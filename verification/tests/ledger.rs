use ledger_service::ledger::{
    latency_millis, Cause, CertifiedEvent, Ledger, Operation, SealOperation, SealStep,
    LATENCY_BUDGET_MS,
};
use ledger_service::sealing::SealedEventData;
use ledger_service::store::{StoreReply, StoreRequest};
use std::collections::HashMap;

/// A store in memory that serves one request at a time.
struct MemoryStore {
    values: HashMap<String, Vec<u8>>,
    records: HashMap<String, SealedEventData>,
}

impl MemoryStore {
    fn new() -> Self {
        MemoryStore { values: HashMap::new(), records: HashMap::new() }
    }

    fn serve(&mut self, request: StoreRequest) -> StoreReply {
        match request {
            StoreRequest::ReadCounter { key } => StoreReply::Counter(self.values.get(&key).cloned()),
            StoreRequest::SwapCounter { key, expected, replacement } => {
                if self.values.get(&key) == expected.as_ref() {
                    self.values.insert(key, replacement);
                    StoreReply::Swapped(true)
                } else {
                    StoreReply::Swapped(false)
                }
            }
            StoreRequest::PutRecord { key, record } => {
                self.records.insert(key, record);
                StoreReply::Stored
            }
            StoreRequest::GetRecord { key } => StoreReply::Record(self.records.get(&key).cloned()),
        }
    }
}

fn seal(ledger: &mut Ledger, store: &mut MemoryStore, id: &str, payload: &[u8]) -> SealedEventData {
    let (mut operation, mut request) =
        ledger.seal_event(id.to_string(), payload.to_vec(), "sig".to_string(), 0);
    loop {
        let reply = store.serve(request);
        match ledger.advance(operation, reply) {
            SealStep::Ask { operation: next, request: asked } => {
                operation = next;
                request = asked;
            }
            SealStep::Sealed { record, .. } => return record,
            SealStep::Aborted { error } => panic!("seal failed: {:?}", error),
        }
    }
}

fn ask(step: SealStep) -> (SealOperation, StoreRequest) {
    match step {
        SealStep::Ask { operation, request } => (operation, request),
        SealStep::Sealed { record, .. } => panic!("sealed too early: {:?}", record),
        SealStep::Aborted { error } => panic!("seal failed: {:?}", error),
    }
}

fn begin(ledger: &Ledger, id: &str, payload: &[u8]) -> (SealOperation, StoreRequest) {
    ledger.seal_event(id.to_string(), payload.to_vec(), "sig".to_string(), 0)
}

fn current(ledger: &Ledger, store: &mut MemoryStore) -> u64 {
    let reply = store.serve(ledger.get_current_sequence());
    ledger.current_sequence(reply).unwrap()
}

fn lookup(ledger: &Ledger, store: &mut MemoryStore, sequence_number: u64) -> Option<SealedEventData> {
    let reply = store.serve(ledger.get_event(sequence_number));
    ledger.found_event(sequence_number, reply).unwrap()
}

#[test]
fn new_ledger_has_an_empty_chain() {
    let ledger = Ledger::new();
    assert_eq!(ledger.hash_chain().length(), 0);
    assert_eq!(ledger.hash_chain().get_latest_hash(), "0".repeat(64));
    assert!(ledger.hash_chain().verify_integrity());
}

#[test]
fn seal_event_asks_for_the_counter_first() {
    let ledger = Ledger::new();
    let (_, request) = begin(&ledger, "evt-1", b"alpha");
    match request {
        StoreRequest::ReadCounter { key } => assert_eq!(key, "ledger/sequence_counter"),
        _ => panic!("expected a counter read"),
    }
}

#[test]
fn seal_walks_through_counter_swap_and_put() {
    let mut ledger = Ledger::new();
    let (operation, _) = begin(&ledger, "evt-1", b"alpha");

    let (operation, request) = ask(ledger.advance_at(operation, StoreReply::Counter(None), 0, 0));
    match request {
        StoreRequest::SwapCounter { key, expected, replacement } => {
            assert_eq!(key, "ledger/sequence_counter");
            assert_eq!(expected, None);
            assert_eq!(replacement, b"1".to_vec());
        }
        _ => panic!("expected a conditional write"),
    }

    let (operation, request) =
        ask(ledger.advance_at(operation, StoreReply::Swapped(true), 1_700_000_000_123, 4));
    match request {
        StoreRequest::PutRecord { key, record } => {
            assert_eq!(key, "ledger/events/1");
            assert_eq!(record.sequence_number, 1);
            assert_eq!(record.event_id, "evt-1");
            assert_eq!(record.payload, b"alpha".to_vec());
            assert_eq!(record.previous_hash, "0".repeat(64));
            assert_eq!(
                record.event_hash,
                "36a423a6df0f66ac60c0731c26b15fcc8c759dfccc83b6568897292a8b332ad8"
            );
            assert_eq!(record.sealed_timestamp, 1_700_000_000_123);
            assert_eq!(record.commit_latency_ms, 0);
        }
        _ => panic!("expected a record write"),
    }
    assert_eq!(ledger.hash_chain().length(), 0);

    match ledger.advance_at(operation, StoreReply::Stored, 1_700_000_000_200, 7) {
        SealStep::Sealed { record, over_budget } => {
            assert_eq!(record.sequence_number, 1);
            assert_eq!(record.event_id, "evt-1");
            assert_eq!(record.payload, b"alpha".to_vec());
            assert_eq!(record.sealed_timestamp, 1_700_000_000_123);
            assert_eq!(record.commit_latency_ms, 7);
            assert!(!over_budget);
            assert_eq!(ledger.hash_chain().get_hash(1), Some(record.event_hash.clone()));
            assert_eq!(ledger.hash_chain().get_latest_hash(), record.event_hash);
        }
        _ => panic!("expected the sealed record"),
    }
}

#[test]
fn next_sequence_follows_the_stored_counter() {
    let mut ledger = Ledger::new();
    let (operation, _) = begin(&ledger, "evt", b"");
    let stored = Some(b"41".to_vec());
    let (_, request) = ask(ledger.advance_at(operation, StoreReply::Counter(stored.clone()), 0, 0));
    match request {
        StoreRequest::SwapCounter { expected, replacement, .. } => {
            assert_eq!(expected, stored);
            assert_eq!(replacement, b"42".to_vec());
        }
        _ => panic!("expected a conditional write"),
    }
}

#[test]
fn corrupt_counter_aborts_and_is_left_untouched() {
    for garbage in [b"not a number".to_vec(), vec![], vec![0xc3, 0x28], b"-1".to_vec()] {
        let mut ledger = Ledger::new();
        let mut store = MemoryStore::new();
        store.values.insert("ledger/sequence_counter".to_string(), garbage.clone());

        let reply = store.serve(ledger.get_current_sequence());
        match ledger.current_sequence(reply) {
            Err(error) => {
                assert_eq!(error.operation, Operation::ReadCounter);
                assert_eq!(error.sequence_number, None);
                assert_eq!(error.event_id, None);
                assert!(matches!(error.cause, Cause::CorruptCounter));
            }
            Ok(n) => panic!("read a corrupt counter as {}", n),
        }

        let (operation, request) = begin(&ledger, "evt-c", b"x");
        let reply = store.serve(request);
        match ledger.advance(operation, reply) {
            SealStep::Aborted { error } => {
                assert_eq!(error.operation, Operation::ReadCounter);
                assert_eq!(error.sequence_number, None);
                assert_eq!(error.event_id, Some("evt-c".to_string()));
                assert!(matches!(error.cause, Cause::CorruptCounter));
                assert_eq!(
                    error.describe(),
                    "read counter for event evt-c: the counter holds no sequence number"
                );
            }
            _ => panic!("expected a failure"),
        }
        assert_eq!(store.values.get("ledger/sequence_counter"), Some(&garbage));
        assert!(store.records.is_empty());
        assert_eq!(ledger.hash_chain().length(), 0);
    }
}

#[test]
fn absent_counter_reads_as_zero() {
    let mut ledger = Ledger::new();
    let mut store = MemoryStore::new();
    assert_eq!(current(&ledger, &mut store), 0);
    let record = seal(&mut ledger, &mut store, "evt", b"x");
    assert_eq!(record.sequence_number, 1);
    assert_eq!(current(&ledger, &mut store), 1);
}

fn stored(sequence_number: u64, hash: &str) -> SealedEventData {
    SealedEventData {
        sequence_number,
        event_id: format!("evt-{}", sequence_number),
        payload: vec![sequence_number as u8],
        event_hash: hash.to_string(),
        previous_hash: "p".to_string(),
        sealed_timestamp: 1,
        commit_latency_ms: 0,
    }
}

#[test]
fn restored_ledger_holds_the_stored_hashes() {
    let ledger = Ledger::restored(vec![stored(2, "h2"), stored(1, "h1"), stored(3, "h3")]);
    assert_eq!(ledger.hash_chain().length(), 3);
    assert_eq!(ledger.hash_chain().get_hash(1), Some("h1".to_string()));
    assert_eq!(ledger.hash_chain().get_hash(2), Some("h2".to_string()));
    assert_eq!(ledger.hash_chain().get_hash(3), Some("h3".to_string()));
    assert_eq!(ledger.hash_chain().get_hash(4), None);
    assert_eq!(ledger.hash_chain().get_latest_hash(), "h3");
    assert!(ledger.hash_chain().verify_integrity());

    let empty = Ledger::restored(Vec::new());
    assert_eq!(empty.hash_chain().length(), 0);
    assert_eq!(empty.hash_chain().get_latest_hash(), "0".repeat(64));

    let twice = Ledger::restored(vec![stored(5, "first"), stored(5, "second")]);
    assert_eq!(twice.hash_chain().length(), 1);
    assert_eq!(twice.hash_chain().get_hash(5), Some("second".to_string()));
}

#[test]
fn seal_after_restart_links_to_the_last_stored_record() {
    // A first process seals three events.
    let mut store = MemoryStore::new();
    let mut first = Ledger::new();
    seal(&mut first, &mut store, "evt-1", b"alpha");
    seal(&mut first, &mut store, "evt-2", b"beta");
    let third = seal(&mut first, &mut store, "evt-3", b"");

    // A second one starts from what the store holds.
    let records: Vec<SealedEventData> = store.records.values().cloned().collect();
    let mut second = Ledger::restored(records);
    assert_eq!(second.hash_chain().length(), 3);
    assert_eq!(second.hash_chain().get_latest_hash(), third.event_hash);

    let fourth = seal(&mut second, &mut store, "evt-4", b"delta");
    assert_eq!(fourth.sequence_number, 4);
    assert_eq!(fourth.previous_hash, third.event_hash);
    assert_eq!(second.hash_chain().length(), 4);
    assert!(second.hash_chain().verify_integrity());
    assert_eq!(second.hash_chain().get_latest_hash(), fourth.event_hash);
}

#[test]
fn seal_grows_the_chain_by_one() {
    let mut ledger = Ledger::new();
    let mut store = MemoryStore::new();
    for k in 1..=5usize {
        seal(&mut ledger, &mut store, "evt", &[k as u8]);
        assert_eq!(ledger.hash_chain().length(), k);
    }
}

#[test]
fn lost_swap_reads_the_counter_again() {
    let mut ledger = Ledger::new();
    let (operation, _) = begin(&ledger, "evt", b"");
    let (operation, _) = ask(ledger.advance_at(operation, StoreReply::Counter(None), 0, 0));
    let (operation, request) = ask(ledger.advance_at(operation, StoreReply::Swapped(false), 0, 0));
    match request {
        StoreRequest::ReadCounter { key } => assert_eq!(key, "ledger/sequence_counter"),
        _ => panic!("expected a counter read"),
    }
    let (_, request) =
        ask(ledger.advance_at(operation, StoreReply::Counter(Some(b"1".to_vec())), 0, 0));
    match request {
        StoreRequest::SwapCounter { expected, replacement, .. } => {
            assert_eq!(expected, Some(b"1".to_vec()));
            assert_eq!(replacement, b"2".to_vec());
        }
        _ => panic!("expected a conditional write"),
    }
}

#[test]
fn latency_budget_is_reported_not_enforced() {
    assert_eq!(LATENCY_BUDGET_MS, 50);
    for (elapsed, expected) in [(0i64, false), (50, false), (51, true), (10_000, true)] {
        let mut ledger = Ledger::new();
        let (operation, _) = begin(&ledger, "evt", b"p");
        let (operation, _) = ask(ledger.advance_at(operation, StoreReply::Counter(None), 0, 0));
        let (operation, _) = ask(ledger.advance_at(operation, StoreReply::Swapped(true), 5, 0));
        match ledger.advance_at(operation, StoreReply::Stored, 0, elapsed) {
            SealStep::Sealed { record, over_budget } => {
                assert_eq!(record.commit_latency_ms, elapsed);
                assert_eq!(over_budget, expected);
            }
            _ => panic!("expected the sealed record"),
        }
    }
}

#[test]
fn latency_is_narrowed_to_sixty_four_bits() {
    assert_eq!(latency_millis(0), 0);
    assert_eq!(latency_millis(51), 51);
    assert_eq!(latency_millis(i64::MAX as u128), i64::MAX);
    assert_eq!(latency_millis(i64::MAX as u128 + 1), i64::MAX);
    assert_eq!(latency_millis(u128::MAX), i64::MAX);
}

#[test]
fn seal_record_links_to_the_latest_hash() {
    let ledger = Ledger::new();
    let event = CertifiedEvent {
        event_id: "evt-1".to_string(),
        payload: b"alpha".to_vec(),
        veps_signature: "sig".to_string(),
        veps_timestamp: 9,
    };
    let record = ledger.seal_record(1, event, 77);
    assert_eq!(record.sequence_number, 1);
    assert_eq!(record.event_id, "evt-1");
    assert_eq!(record.payload, b"alpha".to_vec());
    assert_eq!(record.previous_hash, "0".repeat(64));
    assert_eq!(
        record.event_hash,
        "36a423a6df0f66ac60c0731c26b15fcc8c759dfccc83b6568897292a8b332ad8"
    );
    assert_eq!(record.sealed_timestamp, 77);
    assert_eq!(record.commit_latency_ms, 0);
}

#[test]
fn sealed_record_round_trips() {
    let mut ledger = Ledger::new();
    let mut store = MemoryStore::new();
    let payload: Vec<u8> = (0..=255).collect();
    let sealed = seal(&mut ledger, &mut store, "evt-rt", &payload);
    let found = lookup(&ledger, &mut store, sealed.sequence_number).expect("record is stored");
    assert_eq!(found.sequence_number, sealed.sequence_number);
    assert_eq!(found.event_id, sealed.event_id);
    assert_eq!(found.payload, payload);
    assert_eq!(found.payload, sealed.payload);
    assert_eq!(found.event_hash, sealed.event_hash);
    assert_eq!(found.previous_hash, sealed.previous_hash);
    assert_eq!(found.sealed_timestamp, sealed.sealed_timestamp);
    assert_eq!(found.commit_latency_ms, 0);
}

#[test]
fn absent_record_is_not_an_error() {
    let mut ledger = Ledger::new();
    let mut store = MemoryStore::new();
    seal(&mut ledger, &mut store, "evt", b"p");
    assert!(lookup(&ledger, &mut store, 2).is_none());
    assert!(lookup(&ledger, &mut store, 0).is_none());
    match ledger.get_event(12) {
        StoreRequest::GetRecord { key } => assert_eq!(key, "ledger/events/12"),
        _ => panic!("expected a record read"),
    }
}

#[test]
fn three_seals_in_sequence_are_linked() {
    let mut ledger = Ledger::new();
    let mut store = MemoryStore::new();
    let first = seal(&mut ledger, &mut store, "evt-1", b"alpha");
    let second = seal(&mut ledger, &mut store, "evt-2", b"beta");
    let third = seal(&mut ledger, &mut store, "evt-3", b"");

    assert_eq!(first.previous_hash, "0".repeat(64));
    assert_eq!(second.previous_hash, first.event_hash);
    assert_eq!(third.previous_hash, second.event_hash);

    assert_eq!(first.event_hash, "36a423a6df0f66ac60c0731c26b15fcc8c759dfccc83b6568897292a8b332ad8");
    assert_eq!(second.event_hash, "428f1f40940b1626b8c6a908fff25300cf729dcd9e058e6208dacc49e18156ab");
    assert_eq!(third.event_hash, "1ebed49f4be3f0e54e12c247d652686313ba2960208342bf87d7e347271224d2");

    assert_eq!((first.sequence_number, second.sequence_number, third.sequence_number), (1, 2, 3));
    assert_eq!(ledger.hash_chain().length(), 3);
    assert!(ledger.hash_chain().verify_integrity());
    assert_eq!(ledger.hash_chain().get_latest_hash(), third.event_hash);
}

#[test]
fn current_sequence_counts_sealed_events() {
    let mut ledger = Ledger::new();
    let mut store = MemoryStore::new();
    assert_eq!(current(&ledger, &mut store), 0);
    for k in 1..=12u64 {
        let record = seal(&mut ledger, &mut store, "evt", &k.to_le_bytes());
        assert_eq!(record.sequence_number, k);
        assert_eq!(current(&ledger, &mut store), k);
    }
    assert_eq!(store.values.get("ledger/sequence_counter"), Some(&b"12".to_vec()));
}

#[test]
fn interleaved_seals_get_distinct_contiguous_numbers() {
    let n = 7usize;
    let mut ledger = Ledger::new();
    let mut store = MemoryStore::new();
    let mut pending: Vec<Option<(SealOperation, StoreRequest)>> = Vec::new();
    for i in 0..n {
        pending.push(Some(begin(&ledger, "evt", &[i as u8])));
    }
    let mut sealed: Vec<SealedEventData> = Vec::new();
    // One step of each operation in turn: all read the same counter value,
    // and all but one lose the conditional write that follows.
    let mut rounds = 0;
    while sealed.len() < n {
        rounds += 1;
        assert!(rounds < 1000);
        for slot in pending.iter_mut() {
            if let Some((operation, request)) = slot.take() {
                let reply = store.serve(request);
                match ledger.advance(operation, reply) {
                    SealStep::Ask { operation, request } => *slot = Some((operation, request)),
                    SealStep::Sealed { record, .. } => sealed.push(record),
                    SealStep::Aborted { error } => panic!("seal failed: {:?}", error),
                }
            }
        }
    }
    let mut numbers: Vec<u64> = sealed.iter().map(|record| record.sequence_number).collect();
    numbers.sort();
    assert_eq!(numbers, (1..=n as u64).collect::<Vec<u64>>());
    assert_eq!(current(&ledger, &mut store), n as u64);
    assert_eq!(ledger.hash_chain().length(), n);
    assert!(ledger.hash_chain().verify_integrity());
    for record in &sealed {
        let found = lookup(&ledger, &mut store, record.sequence_number).unwrap();
        assert_eq!(found.payload, record.payload);
        assert_eq!(found.event_hash, record.event_hash);
    }
}

#[test]
fn store_failure_aborts_with_context() {
    // While the counter is read.
    let mut ledger = Ledger::new();
    let (operation, _) = begin(&ledger, "evt-9", b"p");
    match ledger.advance_at(operation, StoreReply::Failed("timed out".to_string()), 0, 0) {
        SealStep::Aborted { error } => {
            assert_eq!(error.operation, Operation::ReadCounter);
            assert_eq!(error.sequence_number, None);
            assert_eq!(error.event_id, Some("evt-9".to_string()));
            assert!(matches!(error.cause, Cause::Store(ref m) if m == "timed out"));
        }
        _ => panic!("expected a failure"),
    }

    // While the counter is written.
    let (operation, _) = begin(&ledger, "evt-9", b"p");
    let (operation, _) = ask(ledger.advance_at(operation, StoreReply::Counter(None), 0, 0));
    match ledger.advance_at(operation, StoreReply::Failed("unreachable".to_string()), 0, 0) {
        SealStep::Aborted { error } => {
            assert_eq!(error.operation, Operation::SwapCounter);
            assert_eq!(error.sequence_number, None);
            assert_eq!(error.event_id, Some("evt-9".to_string()));
            assert!(matches!(error.cause, Cause::Store(ref m) if m == "unreachable"));
        }
        _ => panic!("expected a failure"),
    }

    // While the record is written: the chain is left as it was.
    let (operation, _) = begin(&ledger, "evt-9", b"p");
    let (operation, _) = ask(ledger.advance_at(operation, StoreReply::Counter(None), 0, 0));
    let (operation, _) = ask(ledger.advance_at(operation, StoreReply::Swapped(true), 0, 0));
    match ledger.advance_at(operation, StoreReply::Failed("disk full".to_string()), 0, 0) {
        SealStep::Aborted { error } => {
            assert_eq!(error.operation, Operation::PutRecord);
            assert_eq!(error.sequence_number, Some(1));
            assert_eq!(error.event_id, Some("evt-9".to_string()));
            assert!(matches!(error.cause, Cause::Store(ref m) if m == "disk full"));
        }
        _ => panic!("expected a failure"),
    }
    assert_eq!(ledger.hash_chain().length(), 0);
}

#[test]
fn reply_that_answers_another_request_aborts() {
    let mut ledger = Ledger::new();
    let (operation, _) = begin(&ledger, "evt", b"p");
    match ledger.advance_at(operation, StoreReply::Stored, 0, 0) {
        SealStep::Aborted { error } => {
            assert_eq!(error.operation, Operation::ReadCounter);
            assert!(matches!(error.cause, Cause::UnexpectedReply));
        }
        _ => panic!("expected a failure"),
    }

    let (operation, _) = begin(&ledger, "evt", b"p");
    let (operation, _) = ask(ledger.advance_at(operation, StoreReply::Counter(None), 0, 0));
    match ledger.advance_at(operation, StoreReply::Counter(None), 0, 0) {
        SealStep::Aborted { error } => {
            assert_eq!(error.operation, Operation::SwapCounter);
            assert!(matches!(error.cause, Cause::UnexpectedReply));
        }
        _ => panic!("expected a failure"),
    }

    let (operation, _) = begin(&ledger, "evt", b"p");
    let (operation, _) = ask(ledger.advance_at(operation, StoreReply::Counter(None), 0, 0));
    let (operation, _) = ask(ledger.advance_at(operation, StoreReply::Swapped(true), 0, 0));
    match ledger.advance_at(operation, StoreReply::Swapped(true), 0, 0) {
        SealStep::Aborted { error } => {
            assert_eq!(error.operation, Operation::PutRecord);
            assert_eq!(error.sequence_number, Some(1));
            assert!(matches!(error.cause, Cause::UnexpectedReply));
        }
        _ => panic!("expected a failure"),
    }
    assert_eq!(ledger.hash_chain().length(), 0);
}

#[test]
fn exhausted_counter_aborts() {
    let mut ledger = Ledger::new();
    let (operation, _) = begin(&ledger, "evt", b"p");
    let stored = Some(b"18446744073709551615".to_vec());
    match ledger.advance_at(operation, StoreReply::Counter(stored), 0, 0) {
        SealStep::Aborted { error } => {
            assert_eq!(error.operation, Operation::ReadCounter);
            assert_eq!(error.sequence_number, None);
            assert!(matches!(error.cause, Cause::SequenceExhausted));
        }
        _ => panic!("expected a failure"),
    }

    let (operation, _) = begin(&ledger, "evt", b"p");
    let stored = Some(b"18446744073709551614".to_vec());
    let (_, request) = ask(ledger.advance_at(operation, StoreReply::Counter(stored), 0, 0));
    match request {
        StoreRequest::SwapCounter { replacement, .. } => {
            assert_eq!(replacement, b"18446744073709551615".to_vec())
        }
        _ => panic!("expected a conditional write"),
    }
}

#[test]
fn lookup_failures_carry_context() {
    let ledger = Ledger::new();
    match ledger.found_event(4, StoreReply::Failed("bad json".to_string())) {
        Err(error) => {
            assert_eq!(error.operation, Operation::GetRecord);
            assert_eq!(error.sequence_number, Some(4));
            assert_eq!(error.event_id, None);
            assert!(matches!(error.cause, Cause::Store(ref m) if m == "bad json"));
        }
        Ok(_) => panic!("expected a failure"),
    }
    match ledger.found_event(4, StoreReply::Stored) {
        Err(error) => {
            assert_eq!(error.operation, Operation::GetRecord);
            assert!(matches!(error.cause, Cause::UnexpectedReply));
        }
        Ok(_) => panic!("expected a failure"),
    }
    match ledger.current_sequence(StoreReply::Failed("down".to_string())) {
        Err(error) => {
            assert_eq!(error.operation, Operation::ReadCounter);
            assert_eq!(error.sequence_number, None);
            assert_eq!(error.event_id, None);
            assert!(matches!(error.cause, Cause::Store(ref m) if m == "down"));
        }
        Ok(_) => panic!("expected a failure"),
    }
    match ledger.current_sequence(StoreReply::Swapped(true)) {
        Err(error) => assert!(matches!(error.cause, Cause::UnexpectedReply)),
        Ok(_) => panic!("expected a failure"),
    }
    assert_eq!(ledger.current_sequence(StoreReply::Counter(None)).unwrap(), 0);
    assert_eq!(ledger.current_sequence(StoreReply::Counter(Some(b"7".to_vec()))).unwrap(), 7);
}

#[test]
fn clock_driven_seal_stamps_the_record() {
    let mut ledger = Ledger::new();
    let mut store = MemoryStore::new();
    let record = seal(&mut ledger, &mut store, "evt", b"p");
    // Later than the first of January 2020, in milliseconds.
    assert!(record.sealed_timestamp > 1_577_836_800_000);
    assert!(record.commit_latency_ms >= 0);
    assert!(record.commit_latency_ms < 20_000);
}

#[test]
fn two_ledgers_share_one_store() {
    let mut store = MemoryStore::new();
    let mut left = Ledger::new();
    let mut right = Ledger::new();
    let mut sealed_left: Vec<SealedEventData> = Vec::new();
    let mut sealed_right: Vec<SealedEventData> = Vec::new();

    // Each ledger runs one operation at a time; the two take turns step by
    // step, so that they race for the counter.
    for round in 0..4u8 {
        let mut a = Some(begin(&left, "left", &[round]));
        let mut b = Some(begin(&right, "right", &[round]));
        let mut steps = 0;
        while a.is_some() || b.is_some() {
            steps += 1;
            assert!(steps < 100);
            if let Some((operation, request)) = a.take() {
                let reply = store.serve(request);
                match left.advance(operation, reply) {
                    SealStep::Ask { operation, request } => a = Some((operation, request)),
                    SealStep::Sealed { record, .. } => sealed_left.push(record),
                    SealStep::Aborted { error } => panic!("seal failed: {:?}", error),
                }
            }
            if let Some((operation, request)) = b.take() {
                let reply = store.serve(request);
                match right.advance(operation, reply) {
                    SealStep::Ask { operation, request } => b = Some((operation, request)),
                    SealStep::Sealed { record, .. } => sealed_right.push(record),
                    SealStep::Aborted { error } => panic!("seal failed: {:?}", error),
                }
            }
        }
    }

    let mut numbers: Vec<u64> = sealed_left
        .iter()
        .chain(sealed_right.iter())
        .map(|record| record.sequence_number)
        .collect();
    numbers.sort();
    assert_eq!(numbers, (1..=8).collect::<Vec<u64>>());
    assert_eq!(current(&left, &mut store), 8);

    // Every ledger links its records to its own chain.
    for sealed in [&sealed_left, &sealed_right] {
        assert_eq!(sealed[0].previous_hash, "0".repeat(64));
        for pair in sealed.windows(2) {
            assert!(pair[0].sequence_number < pair[1].sequence_number);
            assert_eq!(pair[1].previous_hash, pair[0].event_hash);
        }
    }
    assert_eq!(left.hash_chain().length(), 4);
    assert_eq!(right.hash_chain().length(), 4);
}
