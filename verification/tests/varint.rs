use p2p_chat::varint::{decode_varint, encode_varint};

fn enc(v: u64) -> Vec<u8> {
    let mut out = Vec::new();
    encode_varint(v, &mut out);
    out
}

#[test]
fn varint_known_encodings() {
    assert_eq!(enc(0), vec![0x00]);
    assert_eq!(enc(1), vec![0x01]);
    assert_eq!(enc(127), vec![0x7f]);
    assert_eq!(enc(128), vec![0x80, 0x01]);
    assert_eq!(enc(300), vec![0xac, 0x02]);
    assert_eq!(
        enc(u64::MAX),
        vec![0xff, 0xff, 0xff, 0xff, 0xff, 0xff, 0xff, 0xff, 0xff, 0x01]
    );
}

#[test]
fn varint_matches_prost_encoding() {
    let mut v: u64 = 1;
    let mut samples = vec![0u64, u64::MAX, u64::MAX - 1];
    while v < u64::MAX / 3 {
        samples.push(v);
        samples.push(v - 1);
        samples.push(v + 1);
        v *= 3;
    }
    for x in samples {
        let mut theirs = Vec::new();
        prost::encoding::encode_varint(x, &mut theirs);
        assert_eq!(enc(x), theirs, "value {}", x);
    }
}

#[test]
fn varint_roundtrip_with_trailing_bytes() {
    for x in [0u64, 5, 127, 128, 16383, 16384, 1 << 35, u64::MAX] {
        let mut buf = enc(x);
        let n = buf.len();
        buf.extend_from_slice(&[9, 9, 9]);
        assert_eq!(decode_varint(&buf, 0, buf.len()), Some((x, n)));
    }
}

#[test]
fn varint_decode_at_offset_and_window() {
    let buf = vec![0xff, 0xac, 0x02, 0x05];
    assert_eq!(decode_varint(&buf, 1, 4), Some((300, 2)));
    // The window ends before the varint does.
    assert_eq!(decode_varint(&buf, 1, 2), None);
}

#[test]
fn varint_truncated_is_refused() {
    assert_eq!(decode_varint(&[0x80], 0, 1), None);
    assert_eq!(decode_varint(&[], 0, 0), None);
}

#[test]
fn varint_too_long_or_too_large_is_refused() {
    let eleven = [0x80u8, 0x80, 0x80, 0x80, 0x80, 0x80, 0x80, 0x80, 0x80, 0x80, 0x00];
    assert_eq!(decode_varint(&eleven, 0, eleven.len()), None);
    let above = [0xffu8, 0xff, 0xff, 0xff, 0xff, 0xff, 0xff, 0xff, 0xff, 0x02];
    assert_eq!(decode_varint(&above, 0, above.len()), None);
    let mut b: &[u8] = &above;
    assert!(prost::encoding::decode_varint(&mut b).is_err());
}

#[test]
fn varint_non_minimal_is_accepted_like_prost() {
    let buf = [0x80u8, 0x00];
    assert_eq!(decode_varint(&buf, 0, 2), Some((0, 2)));
    let mut b: &[u8] = &buf;
    assert_eq!(prost::encoding::decode_varint(&mut b).unwrap(), 0);
}
