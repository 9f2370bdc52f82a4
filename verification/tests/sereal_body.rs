use chrysalis::sereal::body::read_value;
use chrysalis::sereal::value::SerealSeenTable;
use chrysalis::sereal::{Cursor, SerealError};
use chrysalis::shared_model::{PerlValue, ValueRef};

fn node(seen: &SerealSeenTable, r: ValueRef) -> &PerlValue {
    seen.heap().get(r)
}

fn varint(mut n: u64, out: &mut Vec<u8>) {
    loop {
        let mut byte = (n & 0x7F) as u8;
        n >>= 7;
        if n != 0 {
            byte |= 0x80;
        }
        out.push(byte);
        if n == 0 {
            break;
        }
    }
}

#[test]
fn pos_small_int() {
    let mut c = Cursor::new(&[0x05]);
    let mut seen = SerealSeenTable::new();
    let v = read_value(&mut c, &mut seen, 0).unwrap();
    assert!(matches!(node(&seen, v), PerlValue::Integer(5)));
}

#[test]
fn neg_small_int() {
    let mut c = Cursor::new(&[0x1F]); // NEG_1 = -1
    let mut seen = SerealSeenTable::new();
    let v = read_value(&mut c, &mut seen, 0).unwrap();
    assert!(matches!(node(&seen, v), PerlValue::Integer(-1)));
}

#[test]
fn undef_tag() {
    let mut c = Cursor::new(&[0x25]);
    let mut seen = SerealSeenTable::new();
    let v = read_value(&mut c, &mut seen, 0).unwrap();
    assert!(matches!(node(&seen, v), PerlValue::Undef));
}

#[test]
fn true_false_tags() {
    let mut seen = SerealSeenTable::new();
    let mut c1 = Cursor::new(&[0x3B]);
    let v1 = read_value(&mut c1, &mut seen, 0).unwrap();
    assert!(matches!(node(&seen, v1), PerlValue::Yes));
    let mut c2 = Cursor::new(&[0x3A]);
    let v2 = read_value(&mut c2, &mut seen, 0).unwrap();
    assert!(matches!(node(&seen, v2), PerlValue::No));
}

#[test]
fn varint_tag() {
    let mut c = Cursor::new(&[0x20, 0x2A]); // VARINT 42
    let mut seen = SerealSeenTable::new();
    let v = read_value(&mut c, &mut seen, 0).unwrap();
    assert!(matches!(node(&seen, v), PerlValue::Integer(42)));
}

#[test]
fn zigzag_negative() {
    let mut c = Cursor::new(&[0x21, 0x01]); // zigzag 1 -> -1
    let mut seen = SerealSeenTable::new();
    let v = read_value(&mut c, &mut seen, 0).unwrap();
    assert!(matches!(node(&seen, v), PerlValue::Integer(-1)));
}

#[test]
fn zigzag_positive() {
    let mut c = Cursor::new(&[0x21, 0x02]); // zigzag 2 -> 1
    let mut seen = SerealSeenTable::new();
    let v = read_value(&mut c, &mut seen, 0).unwrap();
    assert!(matches!(node(&seen, v), PerlValue::Integer(1)));
}

#[test]
fn short_binary_tag() {
    let mut input = vec![0x66]; // SHORT_BINARY_6
    input.extend_from_slice(b"answer");
    let mut c = Cursor::new(&input);
    let mut seen = SerealSeenTable::new();
    let v = read_value(&mut c, &mut seen, 0).unwrap();
    match node(&seen, v) {
        PerlValue::Bytes(b) => assert_eq!(b, b"answer"),
        other => panic!("expected Bytes: {:?}", other),
    }
}

#[test]
fn binary_tag() {
    let mut input = vec![0x26, 3];
    input.extend_from_slice(b"xyz");
    let mut c = Cursor::new(&input);
    let mut seen = SerealSeenTable::new();
    let v = read_value(&mut c, &mut seen, 0).unwrap();
    match node(&seen, v) {
        PerlValue::Bytes(b) => assert_eq!(b, b"xyz"),
        other => panic!("expected Bytes: {:?}", other),
    }
}

#[test]
fn str_utf8_tag() {
    let mut input = vec![0x27, 5];
    input.extend_from_slice(b"hello");
    let mut c = Cursor::new(&input);
    let mut seen = SerealSeenTable::new();
    let v = read_value(&mut c, &mut seen, 0).unwrap();
    match node(&seen, v) {
        PerlValue::String(s) => assert_eq!(s, "hello"),
        other => panic!("expected String: {:?}", other),
    }
}

#[test]
fn arrayref_compact() {
    let mut input = vec![0x42]; // ARRAYREF_2
    input.push(0x63);
    input.extend_from_slice(b"abc");
    input.push(0x63);
    input.extend_from_slice(b"xyz");
    let mut c = Cursor::new(&input);
    let mut seen = SerealSeenTable::new();
    let v = read_value(&mut c, &mut seen, 0).unwrap();
    match node(&seen, v) {
        PerlValue::Ref(inner) => match node(&seen, *inner) {
            PerlValue::Array(items) => assert_eq!(items.len(), 2),
            other => panic!("expected Array: {:?}", other),
        },
        other => panic!("expected Ref: {:?}", other),
    }
}

#[test]
fn hashref_compact() {
    // HASHREF_1: key "id" (SHORT_BINARY_2), value POS_10
    let mut c = Cursor::new(&[0x51, 0x62, b'i', b'd', 0x0A]);
    let mut seen = SerealSeenTable::new();
    let v = read_value(&mut c, &mut seen, 0).unwrap();
    match node(&seen, v) {
        PerlValue::Ref(inner) => match node(&seen, *inner) {
            PerlValue::Hash(map) => {
                assert_eq!(map.len(), 1);
                let val = map.get(b"id".as_slice()).unwrap();
                assert!(matches!(node(&seen, val), PerlValue::Integer(10)));
            }
            other => panic!("expected Hash: {:?}", other),
        },
        other => panic!("expected Ref: {:?}", other),
    }
}

#[test]
fn refn_wraps_next_item() {
    let mut c = Cursor::new(&[0x28, 0x0A]); // REFN -> POS_10
    let mut seen = SerealSeenTable::new();
    let v = read_value(&mut c, &mut seen, 0).unwrap();
    match node(&seen, v) {
        PerlValue::Ref(inner) => assert!(matches!(node(&seen, *inner), PerlValue::Integer(10))),
        other => panic!("expected Ref: {:?}", other),
    }
}

#[test]
fn refp_back_reference() {
    let mut seen = SerealSeenTable::new();
    // Populate the table as if offset 0 held an Integer(7).
    let seven = seen.allocate(PerlValue::Integer(7));
    seen.register(0, seven);
    let mut c = Cursor::new(&[0x29, 0x00]); // REFP offset=0
    let v = read_value(&mut c, &mut seen, 0).unwrap();
    match node(&seen, v) {
        PerlValue::Ref(inner) => assert!(matches!(node(&seen, *inner), PerlValue::Integer(7))),
        other => panic!("expected Ref: {:?}", other),
    }
}

#[test]
fn alias_reuses_directly() {
    let mut seen = SerealSeenTable::new();
    let seven = seen.allocate(PerlValue::Integer(7));
    seen.register(0, seven);
    let mut c = Cursor::new(&[0x2E, 0x00]); // ALIAS offset=0
    let v = read_value(&mut c, &mut seen, 0).unwrap();
    assert_eq!(v, seven);
}

#[test]
fn offset_not_found_errors() {
    let mut seen = SerealSeenTable::new();
    let mut c = Cursor::new(&[0x29, 0x63]); // REFP offset=99, nothing registered
    assert_eq!(read_value(&mut c, &mut seen, 0).unwrap_err(), SerealError::OffsetNotFound(99));
}

#[test]
fn object_tag() {
    // OBJECT: class "Foo" (SHORT_BINARY_3), data = POS_5
    let mut input = vec![0x2C];
    input.push(0x63);
    input.extend_from_slice(b"Foo");
    input.push(0x05);
    let mut c = Cursor::new(&input);
    let mut seen = SerealSeenTable::new();
    let v = read_value(&mut c, &mut seen, 0).unwrap();
    match node(&seen, v) {
        PerlValue::Blessed(inner, class) => {
            assert_eq!(class, "Foo");
            assert!(matches!(node(&seen, *inner), PerlValue::Integer(5)));
        }
        other => panic!("expected Blessed: {:?}", other),
    }
}

#[test]
fn regexp_tag() {
    // REGEXP: pattern "abc" (SHORT_BINARY_3), flags "i" (SHORT_BINARY_1)
    let mut input = vec![0x31];
    input.push(0x63);
    input.extend_from_slice(b"abc");
    input.push(0x61);
    input.extend_from_slice(b"i");
    let mut c = Cursor::new(&input);
    let mut seen = SerealSeenTable::new();
    let v = read_value(&mut c, &mut seen, 0).unwrap();
    match node(&seen, v) {
        PerlValue::Regexp { pattern, flags } => {
            assert_eq!(flags, "i");
            match node(&seen, *pattern) {
                PerlValue::Bytes(b) => assert_eq!(b, b"abc"),
                other => panic!("expected Bytes pattern: {:?}", other),
            }
        }
        other => panic!("expected Regexp: {:?}", other),
    }
}

#[test]
fn float_tag() {
    let mut input = vec![0x22];
    input.extend_from_slice(&3.14f32.to_le_bytes());
    let mut c = Cursor::new(&input);
    let mut seen = SerealSeenTable::new();
    let v = read_value(&mut c, &mut seen, 0).unwrap();
    match node(&seen, v) {
        PerlValue::Double(bits) => {
            let f = f64::from_bits(*bits);
            assert!((f - 3.14f32 as f64).abs() < 1e-6);
        }
        other => panic!("expected Double: {:?}", other),
    }
}

#[test]
fn double_tag() {
    let mut input = vec![0x23];
    input.extend_from_slice(&2.718281828f64.to_le_bytes());
    let mut c = Cursor::new(&input);
    let mut seen = SerealSeenTable::new();
    let v = read_value(&mut c, &mut seen, 0).unwrap();
    match node(&seen, v) {
        PerlValue::Double(bits) => assert_eq!(f64::from_bits(*bits), 2.718281828),
        other => panic!("expected Double: {:?}", other),
    }
}

#[test]
fn pad_is_skipped() {
    let mut c = Cursor::new(&[0x3F, 0x05]); // PAD, then POS_5
    let mut seen = SerealSeenTable::new();
    let v = read_value(&mut c, &mut seen, 0).unwrap();
    assert!(matches!(node(&seen, v), PerlValue::Integer(5)));
}

#[test]
fn huge_array_count_does_not_allocate_unboundedly() {
    // ARRAY tag followed by a varint count of 2^40, with only a few bytes of input.
    let mut input = vec![0x2B];
    varint(1u64 << 40, &mut input);
    let mut c = Cursor::new(&input);
    let mut seen = SerealSeenTable::new();
    let result = read_value(&mut c, &mut seen, 0);
    assert!(result.is_err(), "should reject a count that exceeds remaining input, not attempt to allocate");
}

#[test]
fn self_referential_copy_does_not_overflow_stack() {
    // COPY tag whose offset points at itself (offset 0)
    let input = vec![0x2F, 0x00];
    let mut c = Cursor::new(&input);
    let mut seen = SerealSeenTable::new();
    let result = read_value(&mut c, &mut seen, 0);
    assert_eq!(result.unwrap_err(), SerealError::MaxDepthExceeded);
}

#[test]
fn deeply_nested_refn_hits_depth_limit_not_stack_overflow() {
    let mut input = vec![0x28; 200]; // comfortably past MAX_DEPTH=100
    input.push(0x00);
    let mut c = Cursor::new(&input);
    let mut seen = SerealSeenTable::new();
    let result = read_value(&mut c, &mut seen, 0);
    assert_eq!(result.unwrap_err(), SerealError::MaxDepthExceeded);
}

#[test]
fn object_with_non_string_class_name_errors_not_panics() {
    // OBJECT tag, class name given as POS_5 (an integer, not a string)
    let input = vec![0x2C, 0x05, 0x00];
    let mut c = Cursor::new(&input);
    let mut seen = SerealSeenTable::new();
    let result = read_value(&mut c, &mut seen, 0);
    assert!(result.is_err(), "should error, not panic, on non-string class name");
}

#[test]
fn weaken_on_non_ref_errors_not_panics() {
    // WEAKEN tag applied to POS_5 (an integer, not a Ref)
    let input = vec![0x30, 0x05];
    let mut c = Cursor::new(&input);
    let mut seen = SerealSeenTable::new();
    let result = read_value(&mut c, &mut seen, 0);
    assert!(result.is_err(), "should error, not panic, when WEAKEN target isn't a Ref");
}

#[test]
fn hash_key_non_string_errors_not_panics() {
    // HASHREF_1 whose key is POS_5 (an integer), not a string
    let input = vec![0x51, 0x05, 0x0A];
    let mut c = Cursor::new(&input);
    let mut seen = SerealSeenTable::new();
    let result = read_value(&mut c, &mut seen, 0);
    assert!(result.is_err(), "should error, not panic, on non-string hash key");
}

#[test]
fn packet_start_mid_stream_errors_clearly() {
    let input = vec![0x3D];
    let mut c = Cursor::new(&input);
    let mut seen = SerealSeenTable::new();
    let result = read_value(&mut c, &mut seen, 0);
    assert_eq!(result.unwrap_err(), SerealError::UnexpectedPacketStart);
}

#[test]
fn varint_at_i64_max_boundary_does_not_corrupt() {
    // u64::MAX as i64 would wrap to -1; the value must stay unsigned.
    let mut input = vec![0x20]; // VARINT tag
    varint(u64::MAX, &mut input);
    let mut c = Cursor::new(&input);
    let mut seen = SerealSeenTable::new();
    let v = read_value(&mut c, &mut seen, 0).unwrap();
    match node(&seen, v) {
        PerlValue::UnsignedInteger(n) => assert_eq!(*n, u64::MAX),
        PerlValue::Integer(n) => panic!("u64::MAX silently corrupted to Integer({})", n),
        other => panic!("unexpected variant: {:?}", other),
    }
}

#[test]
fn self_referential_hashref_resolves_correctly() {
    let mut input = vec![0x51 | 0x80]; // HASHREF_1, tracked — tag at position 0
    input.push(0x64);
    input.extend_from_slice(b"self");
    input.push(0x29);
    input.push(0x01); // REFP offset=1: tag position 0, plus one
    let mut c = Cursor::new(&input);
    let mut seen = SerealSeenTable::new();
    let v = read_value(&mut c, &mut seen, 0).unwrap();

    let outer_hash = match node(&seen, v) {
        PerlValue::Ref(inner) => *inner,
        other => panic!("expected Ref: {:?}", other),
    };
    let inner_hash = {
        let map = match node(&seen, outer_hash) {
            PerlValue::Hash(m) => m,
            other => panic!("expected Hash: {:?}", other),
        };
        let self_ref = map.get(b"self".as_slice()).unwrap();
        match node(&seen, self_ref) {
            PerlValue::Ref(inner2) => *inner2,
            other => panic!("expected self_ref to be a Ref: {:?}", other),
        }
    };
    // The two reference wrappers are different nodes, but they point at the
    // same hash.
    assert_eq!(outer_hash, inner_hash);
}

#[test]
fn huge_hash_count_does_not_allocate_unboundedly() {
    let mut input = vec![0x2A];
    varint(1u64 << 40, &mut input);
    let mut c = Cursor::new(&input);
    let mut seen = SerealSeenTable::new();
    let result = read_value(&mut c, &mut seen, 0);
    assert!(result.is_err(), "HASH count exceeding input should error, not allocate");
}

#[test]
fn tracked_array_with_multibyte_count_uses_tag_plus_one_offset() {
    // ARRAY tag, tracked, count=200 (a 2-byte varint), 200 POS_0 elements,
    // then a REFP back to offset 1 (tag position 0, plus one).
    let mut input = vec![0x2B | 0x80];
    input.push(0xC8);
    input.push(0x01);
    for _ in 0..200 {
        input.push(0x00);
    }
    input.push(0x29);
    input.push(0x01);

    let mut c = Cursor::new(&input);
    let mut seen = SerealSeenTable::new();
    let array_val = read_value(&mut c, &mut seen, 0).unwrap();
    let refp_val = read_value(&mut c, &mut seen, 0).unwrap();

    match node(&seen, refp_val) {
        PerlValue::Ref(inner) => {
            assert_eq!(*inner, array_val, "REFP at offset (tag_pos+1) should resolve to the tracked array");
        }
        other => panic!("expected Ref: {:?}", other),
    }
}

#[test]
fn objectv_resolves_class_name_by_offset_independent_of_track_bit() {
    // OBJECT "Pet" (untracked class-name tag) -> data, then OBJECTV pointing
    // at the offset of that class-name tag -> more data.
    let class_name_offset = 2; // tag position 1, plus one
    let mut input = vec![0x2C];
    input.push(0x63);
    input.extend_from_slice(b"Pet");
    input.push(0x05);
    input.push(0x2D);
    input.push(class_name_offset as u8);
    input.push(0x06);
    let mut c = Cursor::new(&input);
    let mut seen = SerealSeenTable::new();
    let v1 = read_value(&mut c, &mut seen, 0).unwrap();
    let v2 = read_value(&mut c, &mut seen, 0).unwrap();

    match node(&seen, v1) {
        PerlValue::Blessed(_, class) => assert_eq!(class, "Pet"),
        other => panic!("expected Blessed: {:?}", other),
    }
    match node(&seen, v2) {
        PerlValue::Blessed(_, class) => assert_eq!(class, "Pet"),
        other => panic!("expected Blessed: {:?}", other),
    }
}

#[test]
fn no_yes_tags_5_36_plus() {
    let mut seen = SerealSeenTable::new();
    let mut c1 = Cursor::new(&[0x34]);
    let v1 = read_value(&mut c1, &mut seen, 0).unwrap();
    assert!(matches!(node(&seen, v1), PerlValue::No));
    let mut c2 = Cursor::new(&[0x35]);
    let v2 = read_value(&mut c2, &mut seen, 0).unwrap();
    assert!(matches!(node(&seen, v2), PerlValue::Yes));
}

// ---------------------------------------------------------------------------
// Further cases
// ---------------------------------------------------------------------------

#[test]
fn tracked_scalar_is_registered_one_past_its_tag() {
    // A tracked POS_7 at position 1 (after a PAD) is found again at offset 2.
    let mut c = Cursor::new(&[0x3F, 0x87, 0x2E, 0x02]);
    let mut seen = SerealSeenTable::new();
    let v = read_value(&mut c, &mut seen, 0).unwrap();
    assert_eq!(seen.get(2), Some(v));
    let alias = read_value(&mut c, &mut seen, 0).unwrap();
    assert_eq!(alias, v);
}

#[test]
fn untracked_scalar_is_not_registered() {
    let mut c = Cursor::new(&[0x07]);
    let mut seen = SerealSeenTable::new();
    read_value(&mut c, &mut seen, 0).unwrap();
    assert_eq!(seen.get(1), None);
}

#[test]
fn refp_makes_a_new_reference_node() {
    let mut seen = SerealSeenTable::new();
    let seven = seen.allocate(PerlValue::Integer(7));
    seen.register(5, seven);
    let before = seen.heap().len();
    let mut c = Cursor::new(&[0x29, 0x05]);
    let v = read_value(&mut c, &mut seen, 0).unwrap();
    assert_eq!(v, before);
    assert_eq!(seen.heap().len(), before + 1);
    assert!(matches!(node(&seen, v), PerlValue::Ref(r) if *r == seven));
}

#[test]
fn neg_16_is_the_smallest_small_int() {
    let mut c = Cursor::new(&[0x10]);
    let mut seen = SerealSeenTable::new();
    let v = read_value(&mut c, &mut seen, 0).unwrap();
    assert!(matches!(node(&seen, v), PerlValue::Integer(-16)));
}

#[test]
fn zigzag_extremes() {
    let mut seen = SerealSeenTable::new();
    let mut input = vec![0x21];
    varint(u64::MAX, &mut input);
    let mut c = Cursor::new(&input);
    let v = read_value(&mut c, &mut seen, 0).unwrap();
    assert!(matches!(node(&seen, v), PerlValue::Integer(i64::MIN)));
    let mut input = vec![0x21];
    varint(u64::MAX - 1, &mut input);
    let mut c = Cursor::new(&input);
    let v = read_value(&mut c, &mut seen, 0).unwrap();
    assert!(matches!(node(&seen, v), PerlValue::Integer(i64::MAX)));
}

#[test]
fn varint_just_above_i64_max_stays_unsigned() {
    let mut input = vec![0x20];
    varint(1u64 << 63, &mut input);
    let mut c = Cursor::new(&input);
    let mut seen = SerealSeenTable::new();
    let v = read_value(&mut c, &mut seen, 0).unwrap();
    assert!(matches!(node(&seen, v), PerlValue::UnsignedInteger(n) if *n == 1u64 << 63));
    let mut input = vec![0x20];
    varint(i64::MAX as u64, &mut input);
    let mut c = Cursor::new(&input);
    let v = read_value(&mut c, &mut seen, 0).unwrap();
    assert!(matches!(node(&seen, v), PerlValue::Integer(i64::MAX)));
}

#[test]
fn invalid_utf8_string_errors() {
    let mut c = Cursor::new(&[0x27, 0x02, 0xFF, 0xFE]);
    let mut seen = SerealSeenTable::new();
    assert_eq!(read_value(&mut c, &mut seen, 0).unwrap_err(), SerealError::InvalidUtf8);
}

#[test]
fn multibyte_utf8_string() {
    let mut input = vec![0x27, 0x03];
    input.extend_from_slice("é!".as_bytes());
    let mut c = Cursor::new(&input);
    let mut seen = SerealSeenTable::new();
    let v = read_value(&mut c, &mut seen, 0).unwrap();
    match node(&seen, v) {
        PerlValue::String(s) => assert_eq!(s, "é!"),
        other => panic!("expected String: {:?}", other),
    }
}

#[test]
fn class_name_bytes_are_decoded_leniently() {
    // OBJECT whose class name is the single byte 0xFF: it becomes U+FFFD.
    let mut c = Cursor::new(&[0x2C, 0x61, 0xFF, 0x05]);
    let mut seen = SerealSeenTable::new();
    let v = read_value(&mut c, &mut seen, 0).unwrap();
    match node(&seen, v) {
        PerlValue::Blessed(_, class) => assert_eq!(class, "\u{FFFD}"),
        other => panic!("expected Blessed: {:?}", other),
    }
}

#[test]
fn object_class_is_tracked_one_past_its_tag() {
    let mut c = Cursor::new(&[0x2C, 0x63, b'P', b'e', b't', 0x05]);
    let mut seen = SerealSeenTable::new();
    read_value(&mut c, &mut seen, 0).unwrap();
    assert_eq!(seen.get_class(2), Some("Pet".to_string()));
    assert_eq!(seen.get_class(1), None);
}

#[test]
fn objectv_unknown_class_offset_errors() {
    let mut c = Cursor::new(&[0x2D, 0x09, 0x05]);
    let mut seen = SerealSeenTable::new();
    assert_eq!(read_value(&mut c, &mut seen, 0).unwrap_err(), SerealError::ClassOffsetNotFound(9));
}

#[test]
fn object_freeze_blesses_without_tracking_the_class() {
    let mut c = Cursor::new(&[0x32, 0x63, b'F', b'o', b'o', 0x05]);
    let mut seen = SerealSeenTable::new();
    let v = read_value(&mut c, &mut seen, 0).unwrap();
    match node(&seen, v) {
        PerlValue::Blessed(inner, class) => {
            assert_eq!(class, "Foo");
            assert!(matches!(node(&seen, *inner), PerlValue::Integer(5)));
        }
        other => panic!("expected Blessed: {:?}", other),
    }
    assert_eq!(seen.get_class(2), None);
}

#[test]
fn objectv_freeze_takes_the_class_from_a_tracked_value() {
    // A tracked SHORT_BINARY_3 "Foo" at position 0 (offset 1), then
    // OBJECTV_FREEZE naming offset 1, blessing POS_5.
    let mut c = Cursor::new(&[0xE3, b'F', b'o', b'o', 0x33, 0x01, 0x05]);
    let mut seen = SerealSeenTable::new();
    read_value(&mut c, &mut seen, 0).unwrap();
    let v = read_value(&mut c, &mut seen, 0).unwrap();
    match node(&seen, v) {
        PerlValue::Blessed(_, class) => assert_eq!(class, "Foo"),
        other => panic!("expected Blessed: {:?}", other),
    }
}

#[test]
fn objectv_freeze_unknown_offset_errors() {
    let mut c = Cursor::new(&[0x33, 0x04, 0x05]);
    let mut seen = SerealSeenTable::new();
    assert_eq!(read_value(&mut c, &mut seen, 0).unwrap_err(), SerealError::OffsetNotFound(4));
}

#[test]
fn copy_decodes_an_earlier_value_again() {
    // SHORT_BINARY_2 "hi" at position 0, then COPY of offset 1.
    let mut c = Cursor::new(&[0x62, b'h', b'i', 0x2F, 0x01, 0x07]);
    let mut seen = SerealSeenTable::new();
    let first = read_value(&mut c, &mut seen, 0).unwrap();
    let copy = read_value(&mut c, &mut seen, 0).unwrap();
    assert_ne!(first, copy);
    match node(&seen, copy) {
        PerlValue::Bytes(b) => assert_eq!(b, b"hi"),
        other => panic!("expected Bytes: {:?}", other),
    }
    // Reading resumes after the COPY's offset.
    assert_eq!(c.pos(), 5);
    let next = read_value(&mut c, &mut seen, 0).unwrap();
    assert!(matches!(node(&seen, next), PerlValue::Integer(7)));
}

#[test]
fn copy_offset_zero_names_the_start_of_the_body() {
    // POS_3 at position 0, then COPY of offset 0 decodes it again.
    let mut c = Cursor::new(&[0x03, 0x2F, 0x00]);
    let mut seen = SerealSeenTable::new();
    read_value(&mut c, &mut seen, 0).unwrap();
    let v = read_value(&mut c, &mut seen, 0).unwrap();
    assert!(matches!(node(&seen, v), PerlValue::Integer(3)));
    assert_eq!(c.pos(), 3);
}

#[test]
fn copy_naming_itself_by_offset_one_hits_depth_limit() {
    let mut c = Cursor::new(&[0x2F, 0x01]);
    let mut seen = SerealSeenTable::new();
    assert_eq!(read_value(&mut c, &mut seen, 0).unwrap_err(), SerealError::MaxDepthExceeded);
}

#[test]
fn weaken_of_a_reference_is_a_weak_reference_to_its_target() {
    let mut c = Cursor::new(&[0x30, 0x28, 0x07]);
    let mut seen = SerealSeenTable::new();
    let v = read_value(&mut c, &mut seen, 0).unwrap();
    match node(&seen, v) {
        PerlValue::WeakRef(target) => assert!(matches!(node(&seen, *target), PerlValue::Integer(7))),
        other => panic!("expected WeakRef: {:?}", other),
    }
}

#[test]
fn weaken_non_ref_error_names_the_expectation() {
    let mut c = Cursor::new(&[0x30, 0x05]);
    let mut seen = SerealSeenTable::new();
    assert_eq!(
        read_value(&mut c, &mut seen, 0).unwrap_err(),
        SerealError::UnexpectedValueType { expected: "Ref", context: "WEAKEN target" }
    );
}

#[test]
fn hash_key_error_names_the_context() {
    let mut c = Cursor::new(&[0x51, 0x05, 0x0A]);
    let mut seen = SerealSeenTable::new();
    assert_eq!(
        read_value(&mut c, &mut seen, 0).unwrap_err(),
        SerealError::UnexpectedValueType { expected: "string-like", context: "hash key" }
    );
}

#[test]
fn hash_with_string_keys_and_later_entry_wins() {
    // HASH count 2: "k" -> 1, "k" -> 2.
    let mut c = Cursor::new(&[0x2A, 0x02, 0x27, 0x01, b'k', 0x01, 0x61, b'k', 0x02]);
    let mut seen = SerealSeenTable::new();
    let v = read_value(&mut c, &mut seen, 0).unwrap();
    match node(&seen, v) {
        PerlValue::Hash(map) => {
            assert_eq!(map.len(), 1);
            let val = map.get(b"k".as_slice()).unwrap();
            assert!(matches!(node(&seen, val), PerlValue::Integer(2)));
        }
        other => panic!("expected Hash: {:?}", other),
    }
}

#[test]
fn array_count_just_over_remaining_is_refused() {
    let mut c = Cursor::new(&[0x2B, 0x03, 0x01, 0x02]);
    let mut seen = SerealSeenTable::new();
    assert_eq!(
        read_value(&mut c, &mut seen, 0).unwrap_err(),
        SerealError::CountExceedsInput { count: 3, remaining: 2 }
    );
}

#[test]
fn hash_count_checks_twice_the_count() {
    let mut c = Cursor::new(&[0x2A, 0x02, 0x61, b'a', 0x01]);
    let mut seen = SerealSeenTable::new();
    assert_eq!(
        read_value(&mut c, &mut seen, 0).unwrap_err(),
        SerealError::CountExceedsInput { count: 2, remaining: 3 }
    );
}

#[test]
fn unsupported_tags_are_refused() {
    let cases: [(u8, SerealError); 7] = [
        (0x24, SerealError::UnsupportedTag("LONG_DOUBLE")),
        (0x3E, SerealError::UnsupportedTag("EXTEND")),
        (0x3C, SerealError::UnsupportedTag("MANY")),
        (0x36, SerealError::UnsupportedTag("RESERVED")),
        (0x37, SerealError::UnsupportedTag("RESERVED")),
        (0x38, SerealError::UnsupportedTag("FLOAT_128")),
        (0x3D, SerealError::UnexpectedPacketStart),
    ];
    for (tag, expected) in cases {
        let input = [tag];
        let mut c = Cursor::new(&input);
        let mut seen = SerealSeenTable::new();
        assert_eq!(read_value(&mut c, &mut seen, 0).unwrap_err(), expected);
    }
}

#[test]
fn empty_input_is_truncated() {
    let mut c = Cursor::new(&[]);
    let mut seen = SerealSeenTable::new();
    assert_eq!(read_value(&mut c, &mut seen, 0).unwrap_err(), SerealError::Truncated);
}

#[test]
fn depth_past_the_limit_is_refused_at_once() {
    let mut c = Cursor::new(&[0x05]);
    let mut seen = SerealSeenTable::new();
    assert_eq!(read_value(&mut c, &mut seen, 101).unwrap_err(), SerealError::MaxDepthExceeded);
    assert_eq!(c.pos(), 0);
    let v = read_value(&mut c, &mut seen, 100).unwrap();
    assert!(matches!(node(&seen, v), PerlValue::Integer(5)));
}

#[test]
fn nesting_of_exactly_the_limit_is_accepted() {
    // 100 REFN tags around POS_0 reach depth 100 and no further.
    let mut input = vec![0x28; 100];
    input.push(0x00);
    let mut c = Cursor::new(&input);
    let mut seen = SerealSeenTable::new();
    assert!(read_value(&mut c, &mut seen, 0).is_ok());
    let mut input = vec![0x28; 101];
    input.push(0x00);
    let mut c = Cursor::new(&input);
    assert_eq!(read_value(&mut c, &mut seen, 0).unwrap_err(), SerealError::MaxDepthExceeded);
}
