use ledger_service::crypto::HashChain;

#[test]
fn test_genesis_hash() {
    let chain = HashChain::new();
    let genesis = chain.get_latest_hash();
    assert_eq!(genesis.len(), 64);
    assert_eq!(genesis, "0".repeat(64));
}

#[test]
fn test_add_and_retrieve() {
    let mut chain = HashChain::new();

    chain.add_hash(1, "hash1".to_string());
    chain.add_hash(2, "hash2".to_string());

    assert_eq!(chain.get_hash(1), Some("hash1".to_string()));
    assert_eq!(chain.get_hash(2), Some("hash2".to_string()));
    assert_eq!(chain.get_latest_hash(), "hash2".to_string());
}

#[test]
fn test_chain_integrity() {
    let mut chain = HashChain::new();

    chain.add_hash(1, "hash1".to_string());
    chain.add_hash(2, "hash2".to_string());
    chain.add_hash(3, "hash3".to_string());

    assert!(chain.verify_integrity());

    // Add non-consecutive sequence
    chain.add_hash(5, "hash5".to_string());
    assert!(!chain.verify_integrity());
}

#[test]
fn empty_chain_is_intact() {
    let chain = HashChain::new();
    assert!(chain.verify_integrity());
    assert_eq!(chain.length(), 0);
    assert_eq!(chain.get_hash(0), None);
    assert_eq!(chain.get_hash(1), None);
}

#[test]
fn latest_hash_is_the_one_at_the_greatest_number() {
    let mut chain = HashChain::new();
    chain.add_hash(7, "seven".to_string());
    assert_eq!(chain.get_latest_hash(), "seven");
    chain.add_hash(3, "three".to_string());
    assert_eq!(chain.get_latest_hash(), "seven");
    chain.add_hash(u64::MAX, "last".to_string());
    assert_eq!(chain.get_latest_hash(), "last");
    chain.add_hash(8, "eight".to_string());
    assert_eq!(chain.get_latest_hash(), "last");
    assert_eq!(chain.length(), 4);
}

#[test]
fn recording_twice_replaces_the_hash() {
    let mut chain = HashChain::new();
    chain.add_hash(1, "first".to_string());
    chain.add_hash(1, "second".to_string());
    assert_eq!(chain.length(), 1);
    assert_eq!(chain.get_hash(1), Some("second".to_string()));
    assert_eq!(chain.get_latest_hash(), "second");
    assert!(chain.verify_integrity());
}

#[test]
fn any_contiguous_run_is_intact() {
    let mut chain = HashChain::new();
    chain.add_hash(42, "a".to_string());
    assert!(chain.verify_integrity());
    chain.add_hash(44, "c".to_string());
    assert!(!chain.verify_integrity());
    chain.add_hash(43, "b".to_string());
    assert!(chain.verify_integrity());
    chain.add_hash(41, "z".to_string());
    assert!(chain.verify_integrity());
    chain.add_hash(0, "0".to_string());
    assert!(!chain.verify_integrity());
}

#[test]
fn run_up_to_the_greatest_number_is_intact() {
    let mut chain = HashChain::new();
    chain.add_hash(u64::MAX, "b".to_string());
    chain.add_hash(u64::MAX - 1, "a".to_string());
    assert!(chain.verify_integrity());
    chain.add_hash(0, "0".to_string());
    assert!(!chain.verify_integrity());
    assert_eq!(chain.get_latest_hash(), "b");
}
