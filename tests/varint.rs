use unsigned_varint::decode::{self, Error};
use unsigned_varint::encode;

#[test]
fn zero_encodes_to_single_byte() {
    assert_eq!(encode::u8(0, &mut encode::u8_buffer()), &[0x00]);
    assert_eq!(encode::u16(0, &mut encode::u16_buffer()), &[0x00]);
    assert_eq!(encode::u32(0, &mut encode::u32_buffer()), &[0x00]);
    assert_eq!(encode::u64(0, &mut encode::u64_buffer()), &[0x00]);
    assert_eq!(encode::u128(0, &mut encode::u128_buffer()), &[0x00]);
    assert_eq!(encode::usize(0, &mut encode::usize_buffer()), &[0x00]);
}

#[test]
fn largest_values_take_most_bytes() {
    assert_eq!(encode::u8(u8::MAX, &mut encode::u8_buffer()), &[0xFF, 0x01]);
    assert_eq!(encode::u16(u16::MAX, &mut encode::u16_buffer()), &[0xFF, 0xFF, 0x03]);
    assert_eq!(encode::u32(u32::MAX, &mut encode::u32_buffer()), &[0xFF, 0xFF, 0xFF, 0xFF, 0x0F]);
    assert_eq!(encode::u64(u64::MAX, &mut encode::u64_buffer()).len(), 10);
    let mut b = encode::u128_buffer();
    let e = encode::u128(u128::MAX, &mut b);
    assert_eq!(e.len(), 19);
    assert!(e[..18].iter().all(|x| *x == 0xFF));
    assert_eq!(e[18], 0x03);
}

#[test]
fn u64_max_end_to_end() {
    let mut buf = encode::u64_buffer();
    let e = encode::u64(18446744073709551615, &mut buf);
    assert_eq!(e, &[0xFF, 0xFF, 0xFF, 0xFF, 0xFF, 0xFF, 0xFF, 0xFF, 0xFF, 0x01]);
    let bytes = [0xFF, 0xFF, 0xFF, 0xFF, 0xFF, 0xFF, 0xFF, 0xFF, 0xFF, 0x01];
    let (v, rest) = decode::u64(&bytes).unwrap();
    assert_eq!(v, 18446744073709551615);
    assert!(rest.is_empty());
}

#[test]
fn small_values() {
    assert_eq!(encode::u16(1, &mut encode::u16_buffer()), &[0x01]);
    assert_eq!(encode::u16(127, &mut encode::u16_buffer()), &[0x7F]);
    assert_eq!(encode::u16(128, &mut encode::u16_buffer()), &[0x80, 0x01]);
    assert_eq!(encode::u16(300, &mut encode::u16_buffer()), &[0xAC, 0x02]);
    assert_eq!(encode::u32(16384, &mut encode::u32_buffer()), &[0x80, 0x80, 0x01]);
    assert_eq!(decode::u16(&[0xAC, 0x02]), Ok((300, &[][..])));
    assert_eq!(decode::u32(&[0x80, 0x80, 0x01]), Ok((16384, &[][..])));
}

#[test]
fn encode_leaves_buffer_tail() {
    let mut buf = [0xEE; 10];
    let len = encode::u64(300, &mut buf).len();
    assert_eq!(len, 2);
    assert_eq!(buf, [0xAC, 0x02, 0xEE, 0xEE, 0xEE, 0xEE, 0xEE, 0xEE, 0xEE, 0xEE]);
}

#[test]
fn round_trip_every_width() {
    let values: [u64; 8] = [0, 1, 127, 128, 255, 300, 1 << 35, u64::MAX];
    for v in values {
        let mut b = encode::u64_buffer();
        assert_eq!(decode::u64(encode::u64(v, &mut b)), Ok((v, &[][..])));
        let w = v as u32;
        let mut b = encode::u32_buffer();
        assert_eq!(decode::u32(encode::u32(w, &mut b)), Ok((w, &[][..])));
        let h = v as u16;
        let mut b = encode::u16_buffer();
        assert_eq!(decode::u16(encode::u16(h, &mut b)), Ok((h, &[][..])));
        let s = v as u8;
        let mut b = encode::u8_buffer();
        assert_eq!(decode::u8(encode::u8(s, &mut b)), Ok((s, &[][..])));
        let q = (v as u128) << 64 | v as u128;
        let mut b = encode::u128_buffer();
        assert_eq!(decode::u128(encode::u128(q, &mut b)), Ok((q, &[][..])));
        let z = v as usize;
        let mut b = encode::usize_buffer();
        assert_eq!(decode::usize(encode::usize(z, &mut b)), Ok((z, &[][..])));
    }
}

#[test]
fn trailing_bytes_are_kept() {
    let mut b = encode::u32_buffer();
    let mut bytes = encode::u32(1_000_000, &mut b).to_vec();
    bytes.extend_from_slice(&[0x80, 0x05, 0xFF]);
    let (v, rest) = decode::u32(&bytes).unwrap();
    assert_eq!(v, 1_000_000);
    assert_eq!(rest, &[0x80, 0x05, 0xFF]);
}

#[test]
fn eleven_continuation_bytes_overflow() {
    assert_eq!(decode::u64(&[0x80; 11]), Err(Error::Overflow));
    assert_eq!(decode::u64(&[0xFF; 11]), Err(Error::Overflow));
    assert_eq!(decode::u64(&[0x80; 10]), Err(Error::Overflow));
    assert_eq!(decode::u8(&[0x80, 0x80]), Err(Error::Overflow));
    assert_eq!(decode::u128(&[0x81; 19]), Err(Error::Overflow));
}

#[test]
fn truncated_input_is_insufficient() {
    assert_eq!(decode::u64(&[]), Err(Error::Insufficient));
    assert_eq!(decode::u64(&[0x80; 9]), Err(Error::Insufficient));
    assert_eq!(decode::u8(&[0x80]), Err(Error::Insufficient));
    assert_eq!(decode::u32(&[0xFF, 0xFF]), Err(Error::Insufficient));
}

#[test]
fn last_group_beyond_width_is_dropped() {
    // 0x7F + (0x7F << 7), kept to its low eight bits
    assert_eq!(decode::u8(&[0xFF, 0x7F]), Ok((0xFF, &[][..])));
    // non-minimal encoding of zero
    assert_eq!(decode::u16(&[0x80, 0x00, 0x07]), Ok((0, &[0x07][..])));
}

#[test]
fn is_last_reads_the_high_bit() {
    assert!(decode::is_last(0x00));
    assert!(decode::is_last(0x7F));
    assert!(!decode::is_last(0x80));
    assert!(!decode::is_last(0xFF));
}
