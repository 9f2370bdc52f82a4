use chrysalis::storable::body::{read_value, BodyConfig, BodyError, Cursor};
use chrysalis::storable::value::{ClassTable, PerlValue, SeenTable, ValueRef};

fn decode(input: &[u8], config: &BodyConfig) -> (Result<ValueRef, BodyError>, SeenTable, ClassTable) {
    let mut seen = SeenTable::new();
    let mut classes = ClassTable::new();
    let r = read_value(&mut Cursor::new(input), &mut seen, &mut classes, config);
    (r, seen, classes)
}

#[test]
fn native_integer_of_eight_bytes() {
    let mut input = vec![0x06];
    input.extend_from_slice(&(-5i64).to_ne_bytes());
    let (r, seen, _) = decode(&input, &BodyConfig::native_64());
    assert!(matches!(seen.heap().get(r.unwrap()), PerlValue::Integer(-5)));
}

#[test]
fn native_integer_of_four_bytes() {
    let mut input = vec![0x06];
    input.extend_from_slice(&(-70000i32).to_ne_bytes());
    let config = BodyConfig { iv_size: 4, nv_size: 8, network_order: false };
    let (r, seen, _) = decode(&input, &config);
    assert!(matches!(seen.heap().get(r.unwrap()), PerlValue::Integer(-70000)));
}

#[test]
fn network_integer_is_big_endian() {
    let mut input = vec![0x09];
    input.extend_from_slice(&(-2i32).to_be_bytes());
    let (r, seen, _) = decode(&input, &BodyConfig::native_64());
    let v = r.unwrap();
    assert!(matches!(seen.heap().get(v), PerlValue::Integer(-2)));
    assert_eq!(seen.get(0), Some(v));
}

#[test]
fn native_double_keeps_its_bits() {
    let mut input = vec![0x07];
    input.extend_from_slice(&1.5f64.to_ne_bytes());
    let (r, seen, _) = decode(&input, &BodyConfig::native_64());
    match seen.heap().get(r.unwrap()) {
        PerlValue::Double(bits) => assert_eq!(f64::from_bits(*bits), 1.5),
        other => panic!("expected Double: {:?}", other),
    }
}

#[test]
fn byte_bias_edges() {
    let (r, seen, _) = decode(&[0x08, 0x00], &BodyConfig::native_64());
    assert!(matches!(seen.heap().get(r.unwrap()), PerlValue::Integer(-128)));
    let (r, seen, _) = decode(&[0x08, 0xFF], &BodyConfig::native_64());
    assert!(matches!(seen.heap().get(r.unwrap()), PerlValue::Integer(127)));
}

#[test]
fn bless_registers_the_class_and_ix_bless_reuses_it() {
    // An array of two blessed scalars: SX_BLESS "Pet" then SX_IX_BLESS 0.
    let mut input = vec![0x02];
    input.extend_from_slice(&2i32.to_ne_bytes());
    input.extend_from_slice(&[0x11, 3, b'P', b'e', b't', 0x08, 0x81]);
    input.extend_from_slice(&[0x12, 0x00, 0x08, 0x82]);
    let (r, seen, classes) = decode(&input, &BodyConfig::native_64());
    assert_eq!(classes.get(0), Some("Pet"));
    assert_eq!(classes.get(1), None);
    match seen.heap().get(r.unwrap()) {
        PerlValue::Array(items) => {
            for (item, n) in items.iter().zip([1i64, 2]) {
                match seen.heap().get(*item) {
                    PerlValue::Blessed(inner, class) => {
                        assert_eq!(class, "Pet");
                        assert!(matches!(seen.heap().get(*inner), PerlValue::Integer(k) if *k == n));
                    }
                    other => panic!("expected Blessed: {:?}", other),
                }
            }
        }
        other => panic!("expected Array: {:?}", other),
    }
}

#[test]
fn ix_bless_of_unknown_class_errors() {
    let (r, _, _) = decode(&[0x12, 0x03, 0x08, 0x81], &BodyConfig::native_64());
    assert_eq!(r.unwrap_err(), BodyError::ClassIndexOutOfRange(3));
}

#[test]
fn large_object_is_not_implemented() {
    let (r, _, _) = decode(&[0x21], &BodyConfig::native_64());
    assert_eq!(r.unwrap_err(), BodyError::NotYetImplemented("SX_LOBJECT"));
}

#[test]
fn short_scalar_is_truncated() {
    let (r, _, _) = decode(&[0x0A, 5, b'a'], &BodyConfig::native_64());
    assert_eq!(r.unwrap_err(), BodyError::Truncated);
    let (r, _, _) = decode(&[], &BodyConfig::native_64());
    assert_eq!(r.unwrap_err(), BodyError::Truncated);
}

#[test]
fn tied_key_holds_object_and_key() {
    let (r, seen, _) = decode(&[0x15, 0x08, 0xAA, 0x08, 0x85], &BodyConfig::native_64());
    match seen.heap().get(r.unwrap()) {
        PerlValue::TiedKey(obj, key) => {
            assert!(matches!(seen.heap().get(*obj), PerlValue::Integer(42)));
            assert!(matches!(seen.heap().get(*key), PerlValue::Integer(5)));
        }
        other => panic!("expected TiedKey: {:?}", other),
    }
}

#[test]
fn wrapper_is_registered_before_its_child() {
    // SX_REF to a back-reference of index 0: the reference refers to itself.
    let mut input = vec![0x04, 0x00];
    input.extend_from_slice(&0i32.to_be_bytes());
    let (r, seen, _) = decode(&input, &BodyConfig::native_64());
    let v = r.unwrap();
    assert_eq!(seen.get(0), Some(v));
    assert!(matches!(seen.heap().get(v), PerlValue::Ref(inner) if *inner == v));
}

#[test]
fn code_text_is_decoded_leniently() {
    let mut input = vec![0x1A, 0x0A, 2, 0xFF, b'x'];
    input.truncate(5);
    let (r, seen, _) = decode(&input, &BodyConfig::native_64());
    match seen.heap().get(r.unwrap()) {
        PerlValue::Code(s) => assert_eq!(s, "\u{FFFD}x"),
        other => panic!("expected Code: {:?}", other),
    }
}

#[test]
fn tied_array_and_hash() {
    let (r, seen, _) = decode(&[0x0B, 0x02, 0, 0, 0, 0], &BodyConfig::native_64());
    assert!(matches!(seen.heap().get(r.unwrap()), PerlValue::TiedArray(_)));
    let (r, seen, _) = decode(&[0x0C, 0x05], &BodyConfig::native_64());
    assert!(matches!(seen.heap().get(r.unwrap()), PerlValue::TiedHash(_)));
}

#[test]
fn counts_beyond_the_input_are_refused() {
    let mut input = vec![0x02];
    input.extend_from_slice(&(-1i32).to_ne_bytes());
    let (r, _, _) = decode(&input, &BodyConfig::native_64());
    assert!(r.is_err());
    let mut input = vec![0x03];
    input.extend_from_slice(&5i32.to_ne_bytes());
    input.extend_from_slice(&[0x08, 0x81]);
    let (r, _, _) = decode(&input, &BodyConfig::native_64());
    assert!(r.is_err());
    let mut input = vec![0x19, 0x00];
    input.extend_from_slice(&3i32.to_ne_bytes());
    let (r, _, _) = decode(&input, &BodyConfig::native_64());
    assert!(r.is_err());
}

#[test]
fn lengths_beyond_the_input_are_truncated() {
    let mut input = vec![0x01];
    input.extend_from_slice(&100i32.to_ne_bytes());
    input.extend_from_slice(b"abc");
    let (r, _, _) = decode(&input, &BodyConfig::native_64());
    assert_eq!(r.unwrap_err(), BodyError::Truncated);
    let (r, _, _) = decode(&[0x17, 4, b'a'], &BodyConfig::native_64());
    assert_eq!(r.unwrap_err(), BodyError::Truncated);
}
