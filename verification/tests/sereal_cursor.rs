use chrysalis::sereal::{Cursor, SerealError};

#[test]
fn single_byte_varint() {
    // 5 fits in one byte, high bit clear
    let mut c = Cursor::new(&[0x05]);
    assert_eq!(c.read_varint(), Ok(5));
}

#[test]
fn two_byte_varint() {
    // 300 = 0b1_00101100
    // low 7 bits: 0101100 = 0x2C, with high bit set (more follows) = 0xAC
    // remaining bits: 10 = 0x02
    let mut c = Cursor::new(&[0xAC, 0x02]);
    assert_eq!(c.read_varint(), Ok(300));
}

#[test]
fn zero_varint() {
    let mut c = Cursor::new(&[0x00]);
    assert_eq!(c.read_varint(), Ok(0));
}

#[test]
fn truncated_varint() {
    let mut c = Cursor::new(&[0x80]); // high bit set, no more bytes
    assert_eq!(c.read_varint(), Err(SerealError::Truncated));
}

#[test]
fn varint_u64_max_takes_ten_bytes() {
    let input = [0xFF, 0xFF, 0xFF, 0xFF, 0xFF, 0xFF, 0xFF, 0xFF, 0xFF, 0x01];
    let mut c = Cursor::new(&input);
    assert_eq!(c.read_varint(), Ok(u64::MAX));
    assert_eq!(c.pos(), 10);
}

#[test]
fn varint_eleventh_byte_is_refused() {
    let input = [0x80, 0x80, 0x80, 0x80, 0x80, 0x80, 0x80, 0x80, 0x80, 0x80, 0x01];
    let mut c = Cursor::new(&input);
    assert_eq!(c.read_varint(), Err(SerealError::VarintTooLong));
}

#[test]
fn varint_leaves_cursor_after_last_byte() {
    let mut c = Cursor::new(&[0xAC, 0x02, 0x07]);
    assert_eq!(c.read_varint(), Ok(300));
    assert_eq!(c.pos(), 2);
    assert_eq!(c.read_byte(), Ok(0x07));
}

#[test]
fn read_byte_past_end_is_truncated() {
    let mut c = Cursor::new(&[0x01]);
    assert_eq!(c.read_byte(), Ok(0x01));
    assert_eq!(c.read_byte(), Err(SerealError::Truncated));
    assert_eq!(c.pos(), 1);
}

#[test]
fn read_bytes_in_two_steps_equals_one_step() {
    let input = [1u8, 2, 3, 4, 5];
    let mut once = Cursor::new(&input);
    let all = once.read_bytes(4).unwrap().to_vec();
    let mut twice = Cursor::new(&input);
    let mut parts = twice.read_bytes(1).unwrap().to_vec();
    parts.extend_from_slice(twice.read_bytes(3).unwrap());
    assert_eq!(all, parts);
    assert_eq!(once.pos(), twice.pos());
    assert_eq!(once.pos(), 4);
}

#[test]
fn read_bytes_too_many_is_truncated_and_does_not_move() {
    let mut c = Cursor::new(&[1, 2, 3]);
    assert_eq!(c.read_bytes(4), Err(SerealError::Truncated));
    assert_eq!(c.pos(), 0);
}

#[test]
fn seek_then_pos_and_remaining() {
    let input = [9u8, 8, 7, 6];
    let mut c = Cursor::new(&input);
    c.seek(2);
    assert_eq!(c.pos(), 2);
    assert_eq!(c.remaining(), &[7u8, 6][..]);
    assert_eq!(c.remaining_len(), 2);
    c.seek(10);
    assert_eq!(c.remaining_len(), 0);
}

fn encode(mut n: u64) -> Vec<u8> {
    let mut out = Vec::new();
    while n >> 7 != 0 {
        out.push(((n & 0x7F) as u8) | 0x80);
        n >>= 7;
    }
    out.push(n as u8);
    out
}

#[test]
fn varint_round_trip_with_trailing_bytes() {
    for v in [0u64, 1, 127, 128, 300, 16383, 16384, 1 << 35, (1 << 63) - 1, 1 << 63, u64::MAX] {
        let mut input = encode(v);
        let len = input.len();
        input.extend_from_slice(&[0xFF, 0x00]);
        let mut c = Cursor::new(&input);
        assert_eq!(c.read_varint(), Ok(v));
        assert_eq!(c.pos(), len);
    }
}

#[test]
fn position_after_reads_is_the_number_of_bytes_read() {
    let input = [10u8, 20, 30, 40, 50, 60];
    let mut c = Cursor::new(&input);
    let mut total = 0;
    assert_eq!(c.read_byte(), Ok(10));
    total += 1;
    total += c.read_bytes(3).unwrap().len();
    assert_eq!(c.read_byte(), Ok(50));
    total += 1;
    assert_eq!(c.pos(), total);
    assert_eq!(c.remaining(), &input[total..]);
}
