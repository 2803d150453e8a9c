use tag_storage::unsynch::{decode_u32, encode_u32, encode_vec, Reader};

#[test]
fn synchsafe_zero() {
    assert_eq!(encode_u32(0), 0);
    assert_eq!(decode_u32(0), 0);
}

#[test]
fn synchsafe_small_value_crosses_byte() {
    // 383 = 0b1_0111_1111: low seven bits full, one bit carried into the
    // second synchsafe byte.
    assert_eq!(encode_u32(383), 0x027F);
    assert_eq!(decode_u32(0x027F), 383);
}

#[test]
fn synchsafe_largest_value() {
    assert_eq!(encode_u32(0x0FFF_FFFF), 0x7F7F_7F7F);
    assert_eq!(decode_u32(0x7F7F_7F7F), 0x0FFF_FFFF);
}

#[test]
fn synchsafe_round_trip_samples() {
    let samples: Vec<u32> = vec![1, 127, 128, 255, 256, 16383, 16384, 0x0ABC_DEF0, 0x0FFF_FFFE];
    for n in samples {
        assert_eq!(decode_u32(encode_u32(n)), n);
    }
}

#[test]
fn encode_vec_stuffs_ff_null_pair() {
    let mut buf: Vec<u8> = vec![0xFF, 0x00];
    encode_vec(&mut buf);
    assert_eq!(buf, vec![0xFF, 0x00, 0x00]);
}

#[test]
fn encode_vec_leaves_ff_without_null_alone() {
    let mut buf: Vec<u8> = vec![0xFF, 0x01, 0xFF];
    encode_vec(&mut buf);
    assert_eq!(buf, vec![0xFF, 0x01, 0xFF]);
}

#[test]
fn encode_vec_double_ff_then_null() {
    let mut buf: Vec<u8> = vec![0xFF, 0xFF, 0x00];
    encode_vec(&mut buf);
    assert_eq!(buf, vec![0xFF, 0xFF, 0x00, 0x00]);
}

#[test]
fn encode_vec_is_identity_without_ff() {
    let mut buf: Vec<u8> = vec![0x00, 0x01, 0x7E, 0x00, 0x42];
    let expected = buf.clone();
    encode_vec(&mut buf);
    assert_eq!(buf, expected);
}

#[test]
fn encode_vec_empty() {
    let mut buf: Vec<u8> = Vec::new();
    encode_vec(&mut buf);
    assert!(buf.is_empty());
}

#[test]
fn reader_removes_stuffing_bytes() {
    let raw: Vec<u8> = vec![0xFF, 0x00, 0x00, 0x12];
    let mut reader = Reader::new(raw);
    let out = reader.read(16);
    assert_eq!(out, vec![0xFF, 0x00, 0x12]);
    assert_eq!(reader.read(16), Vec::<u8>::new());
}

#[test]
fn reader_keeps_genuine_null_pairs() {
    // 0x00 0x00 with no 0xFF before it is data, not stuffing.
    let raw: Vec<u8> = vec![0x01, 0x00, 0x00, 0x02];
    let mut reader = Reader::new(raw);
    assert_eq!(reader.read(16), vec![0x01, 0x00, 0x00, 0x02]);
}

#[test]
fn reader_state_carries_across_reads() {
    // The stuffing byte sits right at a read boundary: the flag must
    // survive from one read call to the next.
    let raw: Vec<u8> = vec![0xFF, 0x00, 0x07];
    let mut reader = Reader::new(raw);
    assert_eq!(reader.read(1), vec![0xFF]);
    assert_eq!(reader.read(1), vec![0x07]);
    assert_eq!(reader.read(1), Vec::<u8>::new());
}

#[test]
fn reader_undoes_encode_vec() {
    let plain: Vec<u8> = vec![0xFF, 0x00, 0xFF, 0xFF, 0x00, 0x01, 0x00, 0xFF];
    let mut encoded = plain.clone();
    encode_vec(&mut encoded);
    assert_eq!(encoded, vec![0xFF, 0x00, 0x00, 0xFF, 0xFF, 0x00, 0x00, 0x01, 0x00, 0xFF]);
    let mut reader = Reader::new(encoded);
    assert_eq!(reader.read(64), plain);
}

#[test]
fn reader_read_zero_bytes() {
    let mut reader = Reader::new(vec![0x01, 0x02]);
    assert_eq!(reader.read(0), Vec::<u8>::new());
    assert_eq!(reader.read(2), vec![0x01, 0x02]);
}
