use ledger_service::ledger::{Cause, LedgerError, Operation};
use ledger_service::sealing::SealedEventData;
use ledger_service::server::{get_event, health_check, submit_event, StatusCode};

fn record() -> SealedEventData {
    SealedEventData {
        sequence_number: 3,
        event_id: "evt-3".to_string(),
        payload: vec![1, 2, 3],
        event_hash: "aa".to_string(),
        previous_hash: "bb".to_string(),
        sealed_timestamp: 1_700_000_000_000,
        commit_latency_ms: 12,
    }
}

fn failure() -> LedgerError {
    LedgerError {
        operation: Operation::PutRecord,
        sequence_number: Some(3),
        event_id: Some("evt-3".to_string()),
        cause: Cause::Store("disk full".to_string()),
    }
}

#[test]
fn failure_reads_as_request_event_number_and_cause() {
    assert_eq!(failure().describe(), "put record for event evt-3 at sequence 3: disk full");
    let error = LedgerError {
        operation: Operation::ReadCounter,
        sequence_number: None,
        event_id: None,
        cause: Cause::UnexpectedReply,
    };
    assert_eq!(error.describe(), "read counter: unexpected reply from the store");
    let error = LedgerError {
        operation: Operation::SwapCounter,
        sequence_number: None,
        event_id: Some("e".to_string()),
        cause: Cause::SequenceExhausted,
    };
    assert_eq!(error.describe(), "swap counter for event e: sequence numbers are exhausted");
    let error = LedgerError {
        operation: Operation::ReadCounter,
        sequence_number: None,
        event_id: None,
        cause: Cause::CorruptCounter,
    };
    assert_eq!(error.describe(), "read counter: the counter holds no sequence number");
    let error = LedgerError {
        operation: Operation::GetRecord,
        sequence_number: Some(18446744073709551615),
        event_id: None,
        cause: Cause::Store(String::new()),
    };
    assert_eq!(error.describe(), "get record at sequence 18446744073709551615: ");
}

#[test]
fn submit_hands_the_sealed_record_back() {
    let answer = submit_event(Ok(record())).expect("sealed");
    assert_eq!(answer.sequence_number, 3);
    assert_eq!(answer.event_id, "evt-3");
    assert_eq!(answer.payload, vec![1, 2, 3]);
    assert_eq!(answer.event_hash, "aa");
    assert_eq!(answer.previous_hash, "bb");
    assert_eq!(answer.sealed_timestamp, 1_700_000_000_000);
    assert_eq!(answer.commit_latency_ms, 12);
}

#[test]
fn submit_failure_is_internal() {
    let status = submit_event(Err(failure())).expect_err("refused");
    assert_eq!(status.code, StatusCode::Internal);
    assert_eq!(
        status.message,
        "Sealing failed: put record for event evt-3 at sequence 3: disk full"
    );
}

#[test]
fn get_event_finds_or_reports_absence() {
    let answer = get_event(3, Ok(Some(record()))).expect("found");
    assert_eq!(answer.sequence_number, 3);
    assert_eq!(answer.payload, vec![1, 2, 3]);

    let status = get_event(42, Ok(None)).expect_err("absent");
    assert_eq!(status.code, StatusCode::NotFound);
    assert_eq!(status.message, "Event with sequence 42 not found");

    let status = get_event(0, Ok(None)).expect_err("absent");
    assert_eq!(status.message, "Event with sequence 0 not found");
}

#[test]
fn get_event_failure_is_internal() {
    let error = LedgerError {
        operation: Operation::GetRecord,
        sequence_number: Some(7),
        event_id: None,
        cause: Cause::Store("timed out".to_string()),
    };
    let status = get_event(7, Err(error)).expect_err("refused");
    assert_eq!(status.code, StatusCode::Internal);
    assert_eq!(status.message, "Get event failed: get record at sequence 7: timed out");
}

#[test]
fn health_check_reports_the_last_sequence_number() {
    let health = health_check(Ok(0)).expect("healthy");
    assert!(health.healthy);
    assert_eq!(health.status, "ok");
    assert_eq!(health.last_sequence_number, 0);

    let health = health_check(Ok(977)).expect("healthy");
    assert!(health.healthy);
    assert_eq!(health.status, "ok");
    assert_eq!(health.last_sequence_number, 977);
}

#[test]
fn health_check_failure_is_internal() {
    let error = LedgerError {
        operation: Operation::ReadCounter,
        sequence_number: None,
        event_id: None,
        cause: Cause::Store("unreachable".to_string()),
    };
    let status = health_check(Err(error)).expect_err("refused");
    assert_eq!(status.code, StatusCode::Internal);
    assert_eq!(status.message, "Health check failed");
}
