use primitives::{Digest, Header, HeaderT};

fn zero_hash() -> Vec<u8> {
    vec![0u8; 32]
}

fn empty_digest() -> Digest {
    Digest { logs: Vec::new() }
}

fn simple_header() -> Header {
    Header::new(1, zero_hash(), zero_hash(), zero_hash(), empty_digest())
}

#[test]
fn header_round_trip_constructed() {
    let h = simple_header();
    let encoded = h.encode();
    let mut pos: usize = 0;
    let decoded = Header::decode(&encoded, &mut pos).unwrap();
    assert_eq!(h, decoded);
    assert_eq!(pos, encoded.len());
}

#[test]
fn header_round_trip_with_mutations() {
    let mut h = Header::new(
        7,
        vec![0x11u8; 32],
        vec![0x22u8; 32],
        vec![0x33u8; 32],
        empty_digest(),
    );
    h.set_number(42);
    h.set_state_root(vec![0x44u8; 32]);
    h.set_parent_hash(vec![0x55u8; 32]);
    h.digest_mut().logs.push(vec![1u8, 2, 3]);
    h.digest_mut().logs.push(Vec::new());
    let encoded = h.encode();
    let mut pos: usize = 0;
    let decoded = Header::decode(&encoded, &mut pos).unwrap();
    assert_eq!(h, decoded);
    assert_eq!(pos, encoded.len());
}

#[test]
fn header_encode_exact_layout() {
    let h = simple_header();
    let encoded = h.encode();
    // 13 fixed-width fields, a one-byte empty extra-data prefix and two
    // one-byte zero counts for seal and digest.
    assert_eq!(encoded.len(), 551);
    // The number, 1, sits at offset 40 as eight little-endian bytes.
    assert_eq!(encoded[40], 1);
    assert_eq!(&encoded[41..48], &[0u8; 7]);
    // Empty extra data: compact prefix 0 after the five leading fields.
    assert_eq!(encoded[132], 0);
    // Empty seal and digest: compact count 0 each.
    assert_eq!(encoded[549], 0);
    assert_eq!(encoded[550], 0);
}

#[test]
fn setters_and_getters_agree() {
    let mut h = simple_header();
    h.set_number(99);
    assert_eq!(*h.number(), 99);
    h.set_parent_hash(vec![0xAAu8; 32]);
    assert_eq!(h.parent_hash(), &vec![0xAAu8; 32]);
    h.set_state_root(vec![0xBBu8; 32]);
    assert_eq!(h.state_root(), &vec![0xBBu8; 32]);
    h.set_extrinsics_root(vec![0xCCu8; 32]);
    assert_eq!(h.extrinsics_root(), &vec![0xCCu8; 32]);
    h.digest_mut().logs.push(vec![9u8; 4]);
    assert_eq!(h.digest().logs, vec![vec![9u8; 4]]);
}

#[test]
fn extrinsics_root_is_backed_by_transactions_root() {
    let h = Header::new(1, zero_hash(), vec![0x77u8; 32], zero_hash(), empty_digest());
    // The constructor's transactions root is what the generic accessor sees.
    assert_eq!(h.extrinsics_root(), &vec![0x77u8; 32]);
    let mut h2 = h.clone();
    h2.set_extrinsics_root(vec![0x88u8; 32]);
    // The alias writes the wire field at the transactions-root offset.
    let encoded = h2.encode();
    assert_eq!(&encoded[68..100], &[0x88u8; 32]);
}

#[test]
fn truncation_always_fails() {
    let mut h = simple_header();
    h.digest_mut().logs.push(vec![6u8; 10]);
    let encoded = h.encode();
    for n in 1..encoded.len() {
        let mut pos: usize = 0;
        let r = Header::decode(&encoded[..encoded.len() - n], &mut pos);
        assert!(r.is_err());
    }
}

#[test]
fn swapped_fixed_width_fields_are_detected() {
    let h = Header::new(
        5,
        zero_hash(),
        vec![0x02u8; 32],
        vec![0x01u8; 32],
        empty_digest(),
    );
    let encoded = h.encode();
    // Swap the parent hash (offset 0..32) with the transactions root
    // (offset 68..100) in the encoded buffer.
    let mut corrupted = encoded.clone();
    for i in 0..32 {
        corrupted.swap(i, 68 + i);
    }
    assert_ne!(corrupted, encoded);
    let mut pos: usize = 0;
    match Header::decode(&corrupted, &mut pos) {
        Ok(decoded) => assert_ne!(decoded, h),
        Err(_) => (),
    }
}

#[test]
fn corrupted_bloom_byte_is_detected() {
    let h = simple_header();
    let encoded = h.encode();
    let mut corrupted = encoded.clone();
    // One byte inside the bloom region (offsets 197..453).
    corrupted[200] ^= 0xFF;
    let mut pos: usize = 0;
    match Header::decode(&corrupted, &mut pos) {
        Ok(decoded) => assert_ne!(decoded, h),
        Err(_) => (),
    }
}

#[test]
fn extra_data_two_byte_length_prefix_round_trips() {
    let base = simple_header().encode();
    // Splice in 64 bytes of extra data: 64 needs the two-byte compact mode,
    // 64 * 4 + 1 == 257, little-endian [0x01, 0x01].
    let mut buf = Vec::new();
    buf.extend_from_slice(&base[..132]);
    buf.push(0x01);
    buf.push(0x01);
    buf.extend_from_slice(&[0xEEu8; 64]);
    buf.extend_from_slice(&base[133..]);
    let mut pos: usize = 0;
    let decoded = Header::decode(&buf, &mut pos).unwrap();
    assert_eq!(pos, buf.len());
    assert_ne!(decoded, simple_header());
    // Re-encoding reproduces the crafted buffer byte for byte.
    assert_eq!(decoded.encode(), buf);
}

#[test]
fn digest_log_length_prefix_exact_bytes() {
    let mut h = simple_header();
    h.digest_mut().logs.push(vec![5u8; 64]);
    let encoded = h.encode();
    assert_eq!(encoded.len(), 551 + 2 + 64);
    // One digest log: compact count 1 encodes as 4.
    assert_eq!(encoded[550], 4);
    // Its 64-byte length takes the two-byte compact mode: [0x01, 0x01].
    assert_eq!(encoded[551], 1);
    assert_eq!(encoded[552], 1);
    assert_eq!(&encoded[553..617], &[5u8; 64]);
}

#[test]
fn extra_data_four_byte_length_prefix_round_trips() {
    let base = simple_header().encode();
    // 16384 bytes of extra data need the four-byte compact mode:
    // 16384 * 4 + 2 == 65538, little-endian [0x02, 0x00, 0x01, 0x00].
    let mut buf = Vec::new();
    buf.extend_from_slice(&base[..132]);
    buf.extend_from_slice(&[0x02, 0x00, 0x01, 0x00]);
    buf.extend_from_slice(&[0x77u8; 16384]);
    buf.extend_from_slice(&base[133..]);
    let mut pos: usize = 0;
    let decoded = Header::decode(&buf, &mut pos).unwrap();
    assert_eq!(pos, buf.len());
    assert_eq!(decoded.encode(), buf);
}

#[test]
fn unknown_wide_length_prefix_is_rejected() {
    let base = simple_header().encode();
    // A first byte of 7 announces a multi-byte count wider than the format
    // allows for lengths; decode must fail.
    let mut buf = Vec::new();
    buf.extend_from_slice(&base[..132]);
    buf.push(0x07);
    buf.extend_from_slice(&base[133..]);
    let mut pos: usize = 0;
    assert!(Header::decode(&buf, &mut pos).is_err());
}

#[test]
fn non_canonical_length_prefix_is_rejected() {
    let base = simple_header().encode();
    // A two-byte compact prefix holding 0 is not canonical: 0 encodes in
    // one byte, so decode must fail rather than accept the wide form.
    let mut buf = Vec::new();
    buf.extend_from_slice(&base[..132]);
    buf.push(0x01);
    buf.push(0x00);
    buf.extend_from_slice(&base[133..]);
    let mut pos: usize = 0;
    assert!(Header::decode(&buf, &mut pos).is_err());
}

#[test]
fn length_prefix_beyond_input_fails() {
    let base = simple_header().encode();
    // Claim 10 bytes of extra data but supply only 3 before the tail; the
    // shifted tail leaves the decoder short and it must fail.
    let mut buf = Vec::new();
    buf.extend_from_slice(&base[..132]);
    buf.push(40);
    buf.extend_from_slice(&[1u8, 2, 3]);
    buf.extend_from_slice(&base[133..]);
    let truncated = &buf[..buf.len() - 7];
    let mut pos: usize = 0;
    assert!(Header::decode(truncated, &mut pos).is_err());
}

#[test]
fn decode_empty_input_fails() {
    let buf: Vec<u8> = Vec::new();
    let mut pos: usize = 0;
    assert!(Header::decode(&buf, &mut pos).is_err());
}
