use futures::executor::block_on;
use futures::io::{AsyncReadExt, AsyncWriteExt, Cursor};
use unsigned_varint::codec::{FrameCodec, FrameError, VarintReader};
use unsigned_varint::{decode, encode};

fn frame_of(payload: &[u8]) -> Vec<u8> {
    let mut out = Vec::new();
    FrameCodec::new().encode(payload, &mut out).unwrap();
    out
}

#[test]
fn encode_writes_prefix_then_payload() {
    let mut out = vec![0x09];
    let codec = FrameCodec::new();
    assert_eq!(codec.encode(&[1, 2, 3], &mut out), Ok(()));
    assert_eq!(out, vec![0x09, 0x03, 1, 2, 3]);
    let big = vec![7u8; 300];
    let mut out = Vec::new();
    codec.encode(&big, &mut out).unwrap();
    assert_eq!(&out[..2], &[0xAC, 0x02]);
    assert_eq!(&out[2..], &big[..]);
    let mut out = Vec::new();
    codec.encode(&[], &mut out).unwrap();
    assert_eq!(out, vec![0x00]);
}

#[test]
fn encode_refuses_oversized_payload() {
    let mut codec = FrameCodec::new();
    codec.set_max_len(2);
    assert_eq!(codec.max_len(), 2);
    let mut out = vec![0x42];
    assert_eq!(codec.encode(&[1, 2, 3], &mut out), Err(FrameError::TooLarge));
    assert_eq!(out, vec![0x42]);
    assert_eq!(codec.encode(&[1, 2], &mut out), Ok(()));
    assert_eq!(out, vec![0x42, 0x02, 1, 2]);
}

#[test]
fn decode_whole_frame_leaves_next() {
    let mut buf = frame_of(&[5, 6, 7]);
    buf.extend_from_slice(&[0x01, 0xAA]);
    let mut codec = FrameCodec::new();
    assert_eq!(codec.decode(&mut buf), Ok(Some(vec![5, 6, 7])));
    assert_eq!(buf, vec![0x01, 0xAA]);
    assert_eq!(codec.decode(&mut buf), Ok(Some(vec![0xAA])));
    assert!(buf.is_empty());
    assert_eq!(codec.decode(&mut buf), Ok(None));
}

#[test]
fn decode_across_every_split_point() {
    let payload: Vec<u8> = (0..200u32).map(|i| (i * 7) as u8).collect();
    let frame = frame_of(&payload);
    assert_eq!(frame.len(), 202);
    for j in 0..frame.len() {
        let mut codec = FrameCodec::new();
        let mut buf = frame[..j].to_vec();
        assert_eq!(codec.decode(&mut buf), Ok(None));
        buf.extend_from_slice(&frame[j..]);
        assert_eq!(codec.decode(&mut buf), Ok(Some(payload.clone())));
        assert!(buf.is_empty());
    }
}

#[test]
fn decode_one_byte_at_a_time() {
    let payload = vec![0x01; 1000];
    let frame = frame_of(&payload);
    let mut codec = FrameCodec::new();
    let mut buf = Vec::new();
    let mut got = None;
    for (i, b) in frame.iter().enumerate() {
        buf.push(*b);
        match codec.decode(&mut buf).unwrap() {
            Some(p) => {
                assert_eq!(i, frame.len() - 1);
                got = Some(p);
            }
            None => assert!(i < frame.len() - 1),
        }
    }
    assert_eq!(got, Some(payload));
}

#[test]
fn decode_refuses_length_above_bound() {
    let mut codec = FrameCodec::new();
    codec.set_max_len(10);
    let mut buf = frame_of(&[0u8; 11]);
    assert_eq!(codec.decode(&mut buf), Err(FrameError::TooLarge));
    assert_eq!(buf, vec![0u8; 11]);
    let mut codec = FrameCodec::new();
    codec.set_max_len(10);
    let mut buf = vec![0x0B];
    assert_eq!(codec.decode(&mut buf), Err(FrameError::TooLarge));
    let mut buf = frame_of(&[3u8; 10]);
    assert_eq!(codec.decode(&mut buf), Ok(Some(vec![3u8; 10])));
}

#[test]
fn decode_refuses_overlong_prefix() {
    let mut codec = FrameCodec::new();
    let mut buf = vec![0x80; 12];
    assert_eq!(codec.decode(&mut buf), Err(FrameError::Overflow));
    assert_eq!(buf, vec![0x80; 12]);
}

#[test]
fn reader_stops_at_last_byte() {
    let mut r = VarintReader::for_width(64);
    assert!(!r.is_complete());
    assert!(!r.push(0xAC));
    assert!(!r.is_complete());
    assert!(r.push(0x02));
    assert!(r.is_complete());
    assert_eq!(r.as_slice(), &[0xAC, 0x02]);
    assert_eq!(decode::u64(r.as_slice()), Ok((300, &[][..])));
}

#[test]
fn reader_stops_at_width_limit() {
    let mut r = VarintReader::for_width(16);
    assert!(!r.push(0x80));
    assert!(!r.push(0x80));
    assert!(r.push(0x80));
    assert_eq!(decode::u16(r.as_slice()), Err(decode::Error::Overflow));
    let mut r = VarintReader::for_width(64);
    for _ in 0..9 {
        assert!(!r.push(0xFF));
    }
    assert!(r.push(0xFF));
    assert_eq!(decode::u64(r.as_slice()), Err(decode::Error::Overflow));
}

fn read_length(io: &mut Cursor<Vec<u8>>) -> usize {
    let mut reader = VarintReader::for_width(usize::BITS);
    while !reader.is_complete() {
        let mut byte = [0u8; 1];
        let n = block_on(io.read(&mut byte)).expect("read");
        assert_eq!(n, 1);
        reader.push(byte[0]);
    }
    decode::usize(reader.as_slice()).expect("decode len").0
}

#[test]
fn encode_decode_identity() {
    for len in [0usize, 1, 127, 128, 300, 16384, 512 * 1024] {
        let xs: Vec<u8> = (0..len).map(|i| (i % 251) as u8).collect();
        let mut io = Cursor::new(vec![0; xs.len() + 10]);
        let mut b = encode::usize_buffer();
        block_on(io.write_all(encode::usize(xs.len(), &mut b))).expect("encode len");
        block_on(io.write_all(&xs)).expect("encode bytes");
        io.set_position(0);
        let n = read_length(&mut io);
        assert_eq!(n, xs.len());
        let mut ys = vec![0; n];
        block_on(io.read_exact(&mut ys)).expect("decode bytes");
        assert_eq!(xs, ys);
    }
}

#[test]
fn streaming_payload_of_8192_bytes() {
    let data = vec![0x01u8; 8192];
    let mut io = Cursor::new(vec![0; 9000]);
    let mut b = encode::usize_buffer();
    block_on(io.write_all(encode::usize(data.len(), &mut b))).expect("encode len");
    block_on(io.write_all(&data)).expect("encode data");
    io.set_position(0);
    let n = read_length(&mut io);
    assert_eq!(n, 8192);
    let mut xs = vec![0; n];
    block_on(io.read_exact(&mut xs)).expect("decode data");
    assert_eq!(data, xs);
}
