use ledger_service::sealing::{digest_input, digest_text, SealedEventData, SealingEngine};

#[test]
fn test_hash_determinism() {
    let engine = SealingEngine::new();

    let hash1 = engine.compute_event_hash(1, "test-event", b"test payload", "0000000000000000");

    let hash2 = engine.compute_event_hash(1, "test-event", b"test payload", "0000000000000000");

    // Same inputs should produce same hash
    assert_eq!(hash1, hash2);

    // Different sequence should produce different hash
    let hash3 = engine.compute_event_hash(2, "test-event", b"test payload", "0000000000000000");

    assert_ne!(hash1, hash3);
}

#[test]
fn hash_matches_known_digests() {
    let engine = SealingEngine::new();
    assert_eq!(
        engine.compute_event_hash(1, "test-event", b"test payload", "0000000000000000"),
        "1b56db99329382475193eb67fbd8c93ef3c778fa7ced8f26dadc13a857e59044"
    );
    assert_eq!(
        engine.compute_event_hash(2, "test-event", b"test payload", "0000000000000000"),
        "83e8baaa09d6ebdf0e3a0ad4c7f92c5e1cb34cf6be3662f4daadf4e1fdd9272c"
    );
    assert_eq!(
        engine.compute_event_hash(0x0102030405060708, "é", &[0, 255], "z"),
        "91f171943a357c8ba3c4181ea971602a46772e60135d64b1bd2356d7334a8282"
    );
}

#[test]
fn hash_is_deterministic_on_fixed_event() {
    let engine = SealingEngine::new();
    let first = engine.compute_event_hash(5, "e1", &[9, 9], "abc");
    let second = engine.compute_event_hash(5, "e1", &[9, 9], "abc");
    assert_eq!(first, second);
    assert_eq!(first, "2aae4755c9824d8030c760f9abdca2383b780b4ce9a7ab78cf4b675bd5be6c98");
}

#[test]
fn hash_is_sensitive_to_each_argument() {
    let engine = SealingEngine::new();
    let base = engine.compute_event_hash(5, "e1", &[9, 9], "abc");
    let others = vec![
        engine.compute_event_hash(6, "e1", &[9, 9], "abc"),
        engine.compute_event_hash(5, "e2", &[9, 9], "abc"),
        engine.compute_event_hash(5, "e1", &[9, 8], "abc"),
        engine.compute_event_hash(5, "e1", &[9, 9], "abd"),
    ];
    for other in others {
        assert_eq!(other.len(), base.len());
        let differing = base.bytes().zip(other.bytes()).filter(|(a, b)| a != b).count();
        assert!(differing >= 1);
    }
}

#[test]
fn hash_is_sixty_four_lowercase_hex_digits() {
    let engine = SealingEngine::new();
    let hash = engine.compute_event_hash(u64::MAX, "", &[], "");
    assert_eq!(hash.len(), 64);
    assert!(hash.bytes().all(|b| b.is_ascii_digit() || (b'a'..=b'f').contains(&b)));
}

#[test]
fn digest_input_lays_fields_out_in_order() {
    assert_eq!(
        digest_input(5, "e1", &[9, 9], "abc"),
        vec![5, 0, 0, 0, 0, 0, 0, 0, b'e', b'1', 9, 9, b'a', b'b', b'c']
    );
    assert_eq!(
        digest_input(0x0102030405060708, "é", &[0, 255], "z"),
        vec![8, 7, 6, 5, 4, 3, 2, 1, 0xc3, 0xa9, 0, 255, b'z']
    );
    assert_eq!(digest_input(0, "", &[], ""), vec![0; 8]);
}

#[test]
fn digest_text_is_lowercase_hex() {
    assert_eq!(digest_text(&[]), "");
    assert_eq!(digest_text(&[0x00, 0x0f, 0xa0, 0xff, 0x1b]), "000fa0ff1b");
    assert_eq!(digest_text(&[1, 2, 3, 15, 16]), "0102030f10");
}

#[test]
fn record_clone_keeps_every_field() {
    let record = SealedEventData {
        sequence_number: 7,
        event_id: "evt".to_string(),
        payload: vec![1, 2, 3],
        event_hash: "aa".to_string(),
        previous_hash: "bb".to_string(),
        sealed_timestamp: 12,
        commit_latency_ms: 3,
    };
    let copy = record.clone();
    assert_eq!(copy.sequence_number, 7);
    assert_eq!(copy.event_id, "evt");
    assert_eq!(copy.payload, vec![1, 2, 3]);
    assert_eq!(copy.event_hash, "aa");
    assert_eq!(copy.previous_hash, "bb");
    assert_eq!(copy.sealed_timestamp, 12);
    assert_eq!(copy.commit_latency_ms, 3);
}
