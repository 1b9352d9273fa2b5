use ptconcealer::scan::scan_bytes;
use ptconcealer::signature::zip_signature_bytes;
use ptconcealer::split::{append_payload, extract_suffix, split_at_signature, truncate_carrier};

#[test]
fn concrete_scenario_offset_97() {
    // Carrier of 100 zero bytes; the signature overwrites bytes 97..101 and
    // three payload bytes follow, for a total length of 104.
    let mut data = vec![0u8; 97];
    data.extend_from_slice(&[0x50, 0x4B, 0x03, 0x04, 0x05, 0x06, 0x07]);
    assert_eq!(data.len(), 104);
    assert_eq!(scan_bytes(&data, &zip_signature_bytes(), 8), Some(97));

    let payload = extract_suffix(&data, 97, 8);
    assert_eq!(payload, vec![0x50, 0x4B, 0x03, 0x04, 0x05, 0x06, 0x07]);

    truncate_carrier(&mut data, 97);
    assert_eq!(data, vec![0u8; 97]);
}

#[test]
fn extract_suffix_copies_exactly_the_tail() {
    let data: Vec<u8> = (0..=20u8).collect();
    for c in 1..=8usize {
        assert_eq!(extract_suffix(&data, 15, c), vec![15u8, 16, 17, 18, 19, 20]);
    }
    assert_eq!(extract_suffix(&data, 0, 4), data);
    assert_eq!(extract_suffix(&data, data.len(), 4), Vec::<u8>::new());
}

#[test]
fn truncate_carrier_keeps_exactly_the_prefix() {
    let mut data: Vec<u8> = (0..10u8).collect();
    truncate_carrier(&mut data, 4);
    assert_eq!(data, vec![0u8, 1, 2, 3]);
    truncate_carrier(&mut data, 4);
    assert_eq!(data, vec![0u8, 1, 2, 3]);
    truncate_carrier(&mut data, 0);
    assert_eq!(data, Vec::<u8>::new());
}

#[test]
fn split_round_trip_restores_carrier_and_payload() {
    // Conceal: a payload beginning with the signature is appended to a
    // carrier free of it. Reveal: the split gives both back byte for byte.
    let carrier: Vec<u8> = vec![1u8, 2, 3, 0x50, 0x4B, 9, 0x03, 0x04, 8, 7];
    let mut payload = zip_signature_bytes();
    payload.extend_from_slice(&[0xAA, 0xBB, 0xCC]);

    let mut file = carrier.clone();
    append_payload(&mut file, &payload);

    let (offset, out) = split_at_signature(&mut file, &zip_signature_bytes(), 8).unwrap();
    assert_eq!(offset, carrier.len() as u64);
    assert_eq!(out, payload);
    assert_eq!(file, carrier);
}

#[test]
fn rescanning_the_truncated_carrier_finds_nothing() {
    let mut data = vec![0u8; 30];
    data.extend_from_slice(&[0x50, 0x4B, 0x03, 0x04, 1, 2, 3]);
    for c in 1..=10usize {
        let mut file = data.clone();
        let (offset, _) = split_at_signature(&mut file, &zip_signature_bytes(), c).unwrap();
        assert_eq!(offset, 30);
        assert_eq!(scan_bytes(&file, &zip_signature_bytes(), c), None, "chunk size {}", c);
    }
}

#[test]
fn split_without_occurrence_leaves_the_carrier_untouched() {
    let mut data = vec![0u8; 25];
    data[5] = 0x50;
    let before = data.clone();
    assert_eq!(split_at_signature(&mut data, &zip_signature_bytes(), 8), None);
    assert_eq!(data, before);
}
