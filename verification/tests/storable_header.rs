use chrysalis::storable::header::{parse, ArchInfo, ByteOrder, HeaderError, VersionByte};

#[test]
fn network_order_header() {
    let input = [0x05, 0x0B, 0xAA];
    let (v, rest) = parse(&input).unwrap();
    assert_eq!(v, VersionByte { major: 2, minor: 11, network_order: true, arch: None });
    assert_eq!(rest, &[0xAA][..]);
    let c = v.body_config();
    assert_eq!((c.iv_size, c.nv_size, c.network_order), (4, 8, true));
}

#[test]
fn native_header_with_architecture() {
    let mut input = vec![0x04, 0x0B, 8];
    input.extend_from_slice(b"12345678");
    input.extend_from_slice(&[4, 8, 8, 8]);
    input.push(0x05);
    let (v, rest) = parse(&input).unwrap();
    assert_eq!(
        v.arch,
        Some(ArchInfo { byteorder: ByteOrder::Little, word_size: 8, int_size: 4, long_size: 8, ptr_size: 8, nv_size: 8 })
    );
    assert!(!v.network_order);
    assert_eq!(rest, &[0x05][..]);
    let c = v.body_config();
    assert_eq!((c.iv_size, c.nv_size, c.network_order), (8, 8, false));
}

#[test]
fn big_endian_32_bit_architecture() {
    let mut input = vec![0x04, 0x07, 4];
    input.extend_from_slice(b"4321");
    input.extend_from_slice(&[4, 4, 4, 8]);
    let (v, rest) = parse(&input).unwrap();
    let arch = v.arch.unwrap();
    assert_eq!(arch.byteorder, ByteOrder::Big);
    assert_eq!(arch.word_size, 4);
    assert!(rest.is_empty());
}

#[test]
fn file_magic_is_skipped() {
    let frozen = [0x05, 0x0B, 0xAA];
    let mut stored = b"pst0".to_vec();
    stored.extend_from_slice(&frozen);
    let (a, rest_a) = parse(&frozen).unwrap();
    let (b, rest_b) = parse(&stored).unwrap();
    assert_eq!(a, b);
    assert_eq!(rest_a, rest_b);
}

#[test]
fn header_errors() {
    assert_eq!(parse(&[0x05]).unwrap_err(), HeaderError::Truncated);
    assert_eq!(parse(b"pst0\x05").unwrap_err(), HeaderError::Truncated);
    assert_eq!(parse(&[0x07, 0x0B]).unwrap_err(), HeaderError::UnsupportedMajor(3));
    assert_eq!(parse(&[0x04, 0x0B]).unwrap_err(), HeaderError::Truncated);
    assert_eq!(parse(&[0x04, 0x0B, 4, b'1', b'2']).unwrap_err(), HeaderError::Truncated);
    assert_eq!(parse(&[0x04, 0x0B, 4, b'1', b'2', b'3', b'5', 4, 4, 4, 8]).unwrap_err(), HeaderError::UnknownByteOrder);
    assert_eq!(parse(&[0x04, 0x0B, 4, b'1', b'2', b'3', b'4', 4, 4, 4]).unwrap_err(), HeaderError::Truncated);
}
