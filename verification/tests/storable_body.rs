use chrysalis::storable::body::{read_value, BodyConfig, BodyError, Cursor};
use chrysalis::storable::value::{ClassTable, PerlValue, SeenTable, ValueRef};

fn cursor(bytes: &[u8]) -> Cursor<'_> {
    Cursor::new(bytes)
}

fn node(seen: &SeenTable, r: ValueRef) -> &PerlValue {
    seen.heap().get(r)
}

#[test]
fn unknown_tag_errors() {
    let mut seen = SeenTable::new();
    let mut classes = ClassTable::new();
    let config = BodyConfig::native_64();
    assert_eq!(
        read_value(&mut cursor(&[0x99]), &mut seen, &mut classes, &config).unwrap_err(),
        BodyError::UnknownTag(0x99)
    );
}

#[test]
fn body_undef_tag() {
    let mut seen = SeenTable::new();
    let mut classes = ClassTable::new();
    let config = BodyConfig::native_64();
    let val = read_value(&mut cursor(&[0x05]), &mut seen, &mut classes, &config).unwrap();
    assert!(matches!(node(&seen, val), PerlValue::Undef));
}

#[test]
fn yes_tag() {
    let mut seen = SeenTable::new();
    let mut classes = ClassTable::new();
    let config = BodyConfig::native_64();
    let val = read_value(&mut cursor(&[0x0F]), &mut seen, &mut classes, &config).unwrap();
    assert!(matches!(node(&seen, val), PerlValue::Yes));
}

#[test]
fn no_tag() {
    let mut seen = SeenTable::new();
    let mut classes = ClassTable::new();
    let config = BodyConfig::native_64();
    let val = read_value(&mut cursor(&[0x10]), &mut seen, &mut classes, &config).unwrap();
    assert!(matches!(node(&seen, val), PerlValue::No));
}

#[test]
fn immortals_are_not_indexed() {
    let mut seen = SeenTable::new();
    let mut classes = ClassTable::new();
    let config = BodyConfig::native_64();
    read_value(&mut cursor(&[0x05]), &mut seen, &mut classes, &config).unwrap(); // SX_UNDEF
    read_value(&mut cursor(&[0x0F]), &mut seen, &mut classes, &config).unwrap(); // SX_SV_YES old
    read_value(&mut cursor(&[0x22]), &mut seen, &mut classes, &config).unwrap(); // SX_SV_YES new
    read_value(&mut cursor(&[0x10]), &mut seen, &mut classes, &config).unwrap(); // SX_SV_NO old
    read_value(&mut cursor(&[0x23]), &mut seen, &mut classes, &config).unwrap(); // SX_SV_NO new
    assert_eq!(seen.len(), 0);
}

#[test]
fn byte_becomes_integer_and_is_indexed() {
    let mut seen = SeenTable::new();
    let mut classes = ClassTable::new();
    let config = BodyConfig::native_64();
    let val = read_value(&mut cursor(&[0x08, 0xAA]), &mut seen, &mut classes, &config).unwrap();
    assert!(matches!(node(&seen, val), PerlValue::Integer(42)));
    assert_eq!(seen.len(), 1);
}

#[test]
fn scalar_bytes() {
    let mut seen = SeenTable::new();
    let mut classes = ClassTable::new();
    let config = BodyConfig::native_64();
    let mut input = vec![0x0A, 3];
    input.extend_from_slice(b"abc");
    let val = read_value(&mut cursor(&input), &mut seen, &mut classes, &config).unwrap();
    match node(&seen, val) {
        PerlValue::Bytes(b) => assert_eq!(b, b"abc"),
        _ => panic!("expected Bytes"),
    }
    assert_eq!(seen.len(), 1);
}

#[test]
fn utf8_string() {
    let mut seen = SeenTable::new();
    let mut classes = ClassTable::new();
    let config = BodyConfig::native_64();
    let mut input = vec![0x17, 5];
    input.extend_from_slice(b"hello");
    let val = read_value(&mut cursor(&input), &mut seen, &mut classes, &config).unwrap();
    match node(&seen, val) {
        PerlValue::String(s) => assert_eq!(s, "hello"),
        _ => panic!("expected String"),
    }
}

#[test]
fn invalid_utf8_errors() {
    let mut seen = SeenTable::new();
    let mut classes = ClassTable::new();
    let config = BodyConfig::native_64();
    let mut input = vec![0x17, 2];
    input.extend_from_slice(&[0xFF, 0xFE]);
    assert_eq!(
        read_value(&mut cursor(&input), &mut seen, &mut classes, &config).unwrap_err(),
        BodyError::InvalidUtf8
    );
}

#[test]
fn empty_array() {
    let mut seen = SeenTable::new();
    let mut classes = ClassTable::new();
    let config = BodyConfig::native_64();
    let mut input = vec![0x02];
    input.extend_from_slice(&0i32.to_ne_bytes());
    let val = read_value(&mut cursor(&input), &mut seen, &mut classes, &config).unwrap();
    match node(&seen, val) {
        PerlValue::Array(items) => assert!(items.is_empty()),
        _ => panic!("expected Array"),
    }
    assert_eq!(seen.len(), 1);
}

#[test]
fn array_of_bytes() {
    let mut seen = SeenTable::new();
    let mut classes = ClassTable::new();
    let config = BodyConfig::native_64();
    let mut input = vec![0x02];
    input.extend_from_slice(&2i32.to_ne_bytes());
    input.extend_from_slice(&[0x08, 0xAA]);
    input.extend_from_slice(&[0x08, 0x85]);
    let val = read_value(&mut cursor(&input), &mut seen, &mut classes, &config).unwrap();
    match node(&seen, val) {
        PerlValue::Array(items) => {
            assert_eq!(items.len(), 2);
            assert!(matches!(node(&seen, items[0]), PerlValue::Integer(42)));
            assert!(matches!(node(&seen, items[1]), PerlValue::Integer(5)));
        }
        _ => panic!("expected Array"),
    }
    assert_eq!(seen.len(), 3);
}

#[test]
fn simple_hash() {
    let mut seen = SeenTable::new();
    let mut classes = ClassTable::new();
    let config = BodyConfig::native_64();
    let mut input = vec![0x03];
    input.extend_from_slice(&1i32.to_ne_bytes());
    input.extend_from_slice(&[0x08, 0xAA]);
    input.extend_from_slice(&6i32.to_ne_bytes());
    input.extend_from_slice(b"answer");
    let val = read_value(&mut cursor(&input), &mut seen, &mut classes, &config).unwrap();
    match node(&seen, val) {
        PerlValue::Hash(map) => {
            assert_eq!(map.len(), 1);
            let v = map.get(b"answer".as_slice()).unwrap();
            assert!(matches!(node(&seen, v), PerlValue::Integer(42)));
        }
        _ => panic!("expected Hash"),
    }
}

#[test]
fn ref_to_integer() {
    let mut seen = SeenTable::new();
    let mut classes = ClassTable::new();
    let config = BodyConfig::native_64();
    let input = vec![0x04, 0x08, 0xAA];
    let val = read_value(&mut cursor(&input), &mut seen, &mut classes, &config).unwrap();
    match node(&seen, val) {
        PerlValue::Ref(inner) => {
            assert!(matches!(node(&seen, *inner), PerlValue::Integer(42)));
        }
        _ => panic!("expected Ref"),
    }
    assert_eq!(seen.len(), 2);
}

#[test]
fn back_reference() {
    let mut seen = SeenTable::new();
    let mut classes = ClassTable::new();
    let config = BodyConfig::native_64();
    let mut input = vec![0x02];
    input.extend_from_slice(&2i32.to_ne_bytes());
    input.extend_from_slice(&[0x08, 0xAA]);
    input.push(0x00);
    input.extend_from_slice(&1i32.to_be_bytes());
    let val = read_value(&mut cursor(&input), &mut seen, &mut classes, &config).unwrap();
    match node(&seen, val) {
        PerlValue::Array(items) => {
            assert_eq!(items.len(), 2);
            assert_eq!(items[0], items[1]);
            assert!(matches!(node(&seen, items[0]), PerlValue::Integer(42)));
        }
        _ => panic!("expected Array"),
    }
}

#[test]
fn back_reference_out_of_range() {
    let mut seen = SeenTable::new();
    let mut classes = ClassTable::new();
    let config = BodyConfig::native_64();
    let mut input = vec![0x00];
    input.extend_from_slice(&999i32.to_be_bytes());
    assert_eq!(
        read_value(&mut cursor(&input), &mut seen, &mut classes, &config).unwrap_err(),
        BodyError::ObjectIndexOutOfRange(999)
    );
}

#[test]
fn weakref_downgrade() {
    let mut seen = SeenTable::new();
    let mut classes = ClassTable::new();
    let config = BodyConfig::native_64();
    let input = vec![0x1B, 0x08, 0xAA];
    let val = read_value(&mut cursor(&input), &mut seen, &mut classes, &config).unwrap();
    match node(&seen, val) {
        PerlValue::WeakRef(w) => {
            assert!(matches!(node(&seen, *w), PerlValue::Integer(42)), "still alive in seen table");
        }
        _ => panic!("expected WeakRef"),
    }
}

#[test]
fn cycle_does_not_leak() {
    // An array whose only element is a weak reference back to the array.  The
    // cycle is a reference to the array's own node; the heap that owns every
    // node is released as a whole.
    let mut input = vec![0x02];
    input.extend_from_slice(&1i32.to_ne_bytes());
    input.push(0x1B);
    input.push(0x00);
    input.extend_from_slice(&0i32.to_be_bytes());
    let mut seen = SeenTable::new();
    let mut classes = ClassTable::new();
    let config = BodyConfig::native_64();
    let val = read_value(&mut cursor(&input), &mut seen, &mut classes, &config).unwrap();
    let nodes_before = seen.heap().len();
    match node(&seen, val) {
        PerlValue::Array(items) => {
            assert_eq!(items.len(), 1);
            assert!(matches!(node(&seen, items[0]), PerlValue::WeakRef(w) if *w == val));
        }
        _ => panic!("expected Array"),
    }
    // The cycle adds no node beyond the array and the weak reference.
    assert_eq!(nodes_before, 2);
    drop(seen);
}

#[test]
fn blessed_hashref() {
    let mut seen = SeenTable::new();
    let mut classes = ClassTable::new();
    let config = BodyConfig::native_64();
    let mut input = vec![0x11];
    input.push(6);
    input.extend_from_slice(b"Animal");
    input.push(0x04);
    input.push(0x03);
    input.extend_from_slice(&1i32.to_ne_bytes());
    input.extend_from_slice(&[0x08, 0x83]);
    input.extend_from_slice(&3i32.to_ne_bytes());
    input.extend_from_slice(b"age");
    let val = read_value(&mut cursor(&input), &mut seen, &mut classes, &config).unwrap();
    match node(&seen, val) {
        PerlValue::Blessed(inner, class) => {
            assert_eq!(class, "Animal");
            match node(&seen, *inner) {
                PerlValue::Ref(hash_ref) => match node(&seen, *hash_ref) {
                    PerlValue::Hash(map) => {
                        assert_eq!(map.len(), 1);
                        let age = map.get(b"age".as_slice()).unwrap();
                        assert!(matches!(node(&seen, age), PerlValue::Integer(3)));
                    }
                    _ => panic!("expected Hash inside Ref"),
                },
                _ => panic!("expected Ref"),
            }
        }
        _ => panic!("expected Blessed"),
    }
}

#[test]
fn lscalar_bytes() {
    let mut seen = SeenTable::new();
    let mut classes = ClassTable::new();
    let config = BodyConfig::native_64();
    let mut input = vec![0x01];
    input.extend_from_slice(&3i32.to_ne_bytes());
    input.extend_from_slice(b"xyz");
    let val = read_value(&mut cursor(&input), &mut seen, &mut classes, &config).unwrap();
    match node(&seen, val) {
        PerlValue::Bytes(b) => assert_eq!(b, b"xyz"),
        _ => panic!("expected Bytes"),
    }
}

#[test]
fn lutf8str_string() {
    let mut seen = SeenTable::new();
    let mut classes = ClassTable::new();
    let config = BodyConfig::native_64();
    let mut input = vec![0x18];
    input.extend_from_slice(&5i32.to_ne_bytes());
    input.extend_from_slice(b"world");
    let val = read_value(&mut cursor(&input), &mut seen, &mut classes, &config).unwrap();
    match node(&seen, val) {
        PerlValue::String(s) => assert_eq!(s, "world"),
        _ => panic!("expected String"),
    }
}

#[test]
fn overloaded_ref() {
    let mut seen = SeenTable::new();
    let mut classes = ClassTable::new();
    let config = BodyConfig::native_64();
    let input = vec![0x14, 0x08, 0xAA];
    let val = read_value(&mut cursor(&input), &mut seen, &mut classes, &config).unwrap();
    match node(&seen, val) {
        PerlValue::Overloaded(inner) => {
            assert!(matches!(node(&seen, *inner), PerlValue::Integer(42)));
        }
        _ => panic!("expected Overloaded"),
    }
}

#[test]
fn weak_overloaded() {
    let mut seen = SeenTable::new();
    let mut classes = ClassTable::new();
    let config = BodyConfig::native_64();
    let input = vec![0x1C, 0x08, 0xAA];
    let val = read_value(&mut cursor(&input), &mut seen, &mut classes, &config).unwrap();
    assert!(matches!(node(&seen, val), PerlValue::WeakOverloaded(_)));
}

#[test]
fn vstring_short() {
    let mut seen = SeenTable::new();
    let mut classes = ClassTable::new();
    let config = BodyConfig::native_64();
    let mut input = vec![0x1D];
    input.push(3); // 1-byte length
    input.extend_from_slice(&[1, 2, 3]); // vstring bytes
    input.push(0x0A); // SX_SCALAR following
    input.push(3); // 1-byte scalar length
    input.extend_from_slice(&[1, 2, 3]); // scalar bytes
    let val = read_value(&mut cursor(&input), &mut seen, &mut classes, &config).unwrap();
    match node(&seen, val) {
        PerlValue::VString(b) => assert_eq!(b, &[1, 2, 3]),
        _ => panic!("expected VString"),
    }
}

#[test]
fn flag_hash_simple() {
    let mut seen = SeenTable::new();
    let mut classes = ClassTable::new();
    let config = BodyConfig::native_64();
    let mut input = vec![0x19];
    input.push(0x01);
    input.extend_from_slice(&1i32.to_ne_bytes());
    input.extend_from_slice(&[0x08, 0xAA]);
    input.push(0x00);
    input.extend_from_slice(&3i32.to_ne_bytes());
    input.extend_from_slice(b"key");
    let val = read_value(&mut cursor(&input), &mut seen, &mut classes, &config).unwrap();
    match node(&seen, val) {
        PerlValue::FlagHash { hash_flags, entries } => {
            assert_eq!(*hash_flags, 0x01);
            assert_eq!(entries.len(), 1);
            let (key_flags, v) = entries.get(b"key".as_slice()).unwrap();
            assert_eq!(key_flags, 0);
            assert!(matches!(node(&seen, v), PerlValue::Integer(42)));
        }
        _ => panic!("expected FlagHash"),
    }
}

#[test]
fn tied_scalar() {
    let mut seen = SeenTable::new();
    let mut classes = ClassTable::new();
    let config = BodyConfig::native_64();
    let input = vec![0x0D, 0x08, 0xAA];
    let val = read_value(&mut cursor(&input), &mut seen, &mut classes, &config).unwrap();
    match node(&seen, val) {
        PerlValue::TiedScalar(inner) => {
            assert!(matches!(node(&seen, *inner), PerlValue::Integer(42)));
        }
        _ => panic!("expected TiedScalar"),
    }
}

#[test]
fn tied_idx() {
    let mut seen = SeenTable::new();
    let mut classes = ClassTable::new();
    let config = BodyConfig::native_64();
    let mut input = vec![0x16, 0x08, 0xAA];
    input.extend_from_slice(&5i32.to_ne_bytes());
    let val = read_value(&mut cursor(&input), &mut seen, &mut classes, &config).unwrap();
    match node(&seen, val) {
        PerlValue::TiedIdx(object, idx) => {
            assert!(matches!(node(&seen, *object), PerlValue::Integer(42)));
            assert_eq!(*idx, 5);
        }
        _ => panic!("expected TiedIdx"),
    }
}

#[test]
fn code_ref() {
    let mut seen = SeenTable::new();
    let mut classes = ClassTable::new();
    let config = BodyConfig::native_64();
    let src = "sub { $_[0] + 1 }";
    let mut input = vec![0x1A];
    input.extend_from_slice(&(src.len() as i32).to_ne_bytes());
    input.extend_from_slice(src.as_bytes());
    let val = read_value(&mut cursor(&input), &mut seen, &mut classes, &config).unwrap();
    match node(&seen, val) {
        PerlValue::Code(s) => assert_eq!(s, src),
        _ => panic!("expected Code"),
    }
}

#[test]
fn regexp_simple() {
    let mut seen = SeenTable::new();
    let mut classes = ClassTable::new();
    let config = BodyConfig::native_64();
    // SX_REGEXP: op_flags=0, re_len=3 (1 byte), "abc", flags_len=1, "i"
    let mut input = vec![0x20];
    input.push(0x00); // op_flags
    input.push(3); // re_len (1 byte)
    input.extend_from_slice(b"abc");
    input.push(1); // flags_len
    input.extend_from_slice(b"i"); // flags
    let val = read_value(&mut cursor(&input), &mut seen, &mut classes, &config).unwrap();
    match node(&seen, val) {
        PerlValue::Regexp { pattern, flags } => {
            assert_eq!(flags, "i");
            match node(&seen, *pattern) {
                PerlValue::Bytes(b) => assert_eq!(b, b"abc"),
                _ => panic!("expected Bytes pattern"),
            }
        }
        _ => panic!("expected Regexp"),
    }
}

#[test]
fn hook_minimal() {
    let mut seen = SeenTable::new();
    let mut classes = ClassTable::new();
    let config = BodyConfig::native_64();
    let mut input = vec![0x13];
    input.push(0x00);
    input.push(5);
    input.extend_from_slice(b"MyPkg");
    input.push(4);
    input.extend_from_slice(b"data");
    let val = read_value(&mut cursor(&input), &mut seen, &mut classes, &config).unwrap();
    match node(&seen, val) {
        PerlValue::Hook { class, obj_type, frozen, refs, recurse } => {
            assert_eq!(class, "MyPkg");
            assert_eq!(*obj_type, 0);
            assert_eq!(frozen, b"data");
            assert!(refs.is_empty());
            assert!(recurse.is_empty());
        }
        _ => panic!("expected Hook"),
    }
}
