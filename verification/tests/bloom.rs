use primitives::bloom::Bloom;

#[test]
fn bloom_encode_decode() {
    let data = [Bloom::default(), Bloom::new(vec![1u8; 256])];

    for val in &data {
        let encoded = val.encode();
        let mut pos: usize = 0;
        let decoded = Bloom::decode(&encoded, &mut pos).unwrap();
        assert_eq!(*val, decoded);
    }
}

#[test]
fn bloom_all_ff_round_trip() {
    let val = Bloom::new(vec![0xFFu8; 256]);
    let mut encoded: Vec<u8> = Vec::new();
    val.encode_to(&mut encoded);
    assert_eq!(encoded.len(), 256);
    let mut pos: usize = 0;
    let decoded = Bloom::decode(&encoded, &mut pos).unwrap();
    assert_eq!(val, decoded);
    assert_eq!(pos, 256);
}

#[test]
fn bloom_writes_raw_bytes_without_prefix() {
    let val = Bloom::new(vec![0xABu8; 256]);
    let mut encoded: Vec<u8> = Vec::new();
    val.encode_to(&mut encoded);
    assert_eq!(encoded, vec![0xABu8; 256]);
}

#[test]
fn bloom_decode_rejects_short_input() {
    let input = vec![0u8; 255];
    let mut pos: usize = 0;
    assert!(Bloom::decode(&input, &mut pos).is_err());
}

#[test]
fn bloom_decode_rejects_short_remainder_mid_stream() {
    let input = vec![0u8; 300];
    let mut pos: usize = 100;
    assert!(Bloom::decode(&input, &mut pos).is_err());
    let mut pos2: usize = 44;
    assert!(Bloom::decode(&input, &mut pos2).is_ok());
}
