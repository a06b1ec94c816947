//! The seal operation: sequence assignment, hash-chain extension, durable
//! write and chain update, as a conversation with the replicated store.
//!
//! One operation passes through `Received`, `SequenceAssigned`, `Hashed`,
//! `Persisted`, `ChainUpdated` and `Complete`, in this order and never back.
//! It rests only where it waits for the store: while the shared counter is
//! read and while the next sequence number is written in its place (both
//! still `Received`: no number is assigned yet), and while the record is
//! written (`Hashed`). [`Ledger::advance`] takes it from one resting place
//! to the next, or to its end. Any failure ends the operation; nothing is
//! retried but the conditional write that lost against another writer.
//!
//! The sequence number comes from a compare-and-swap on the shared counter,
//! so that two operations never hold the same number, however their steps
//! interleave. A counter that holds no number is never taken for zero: it
//! ends the operation and stays as it is.
//!
//! The chain is local to this process. It is rebuilt from the stored
//! records when the process starts ([`Ledger::restored`]), and a record
//! links to the record sealed just before it as long as this process runs
//! its seal operations one at a time: an operation that is hashed while
//! another one of this ledger is between its hash and its chain update
//! cannot link to it. Whoever drives the ledger keeps them apart; what
//! follows from that is proved in [`crate::laws`].

use crate::counter::{
    counter_bytes, counter_key, counter_key_text, counter_value, decimal_text, record_key,
    record_key_text, sequence_text, stored_sequence,
};
use crate::crypto::{latest_hash, HashChain};
use crate::sealing::{event_hash, SealedEvent, SealedEventData, SealingEngine};
use crate::store::{
    bytes_view, record_view, StoreReply, StoreReplyView, StoreRequest, StoreRequestView,
};
use std::time::{Duration, Instant};
use vstd::prelude::*;
use vstd::string::{StrSliceExecFns, StringExecFns};

verus! {

/// The time, in milliseconds, within which a seal operation is meant to
/// finish. Exceeding it is reported, never refused.
pub const LATENCY_BUDGET_MS: i64 = 50;

/// `std::time::Instant`, carried as an opaque value.
#[verifier::external_type_specification]
#[verifier::external_body]
pub struct ExInstant(Instant);

/// `std::time::Instant::now`: some instant. Nothing is claimed of it.
pub assume_specification[ Instant::now ]() -> (now: Instant);

/// `std::time::Instant::elapsed`: some duration. Nothing is claimed of it.
pub assume_specification[ Instant::elapsed ](start: &Instant) -> (elapsed: Duration);

/// `std::time::Duration::as_millis`: some number. Nothing is claimed of it.
pub assume_specification[ Duration::as_millis ](duration: &Duration) -> (millis: u128);

/// `chrono`'s `DateTime::<Utc>::from` on the system time, and
/// `DateTime::timestamp_millis`: the wall-clock time in milliseconds since
/// the Unix epoch, negative for a clock that stands before it. Nothing is
/// claimed of the number. `chrono` fails only on a time outside the years
/// that it can hold, hundreds of thousands of years from now.
#[verifier::external_body]
fn wall_clock_millis() -> (now_ms: i64) {
    chrono::DateTime::<chrono::Utc>::from(std::time::SystemTime::now()).timestamp_millis()
}

/// An event as its submitter presents it. The signature and the timestamp
/// are those of the upstream certification; they are carried, not examined.
pub struct CertifiedEvent {
    pub event_id: String,
    pub payload: Vec<u8>,
    pub veps_signature: String,
    pub veps_timestamp: i64,
}

/// A [`CertifiedEvent`] as a mathematical value.
pub struct CertifiedEventView {
    pub event_id: Seq<char>,
    pub payload: Seq<u8>,
    pub veps_signature: Seq<char>,
    pub veps_timestamp: i64,
}

impl View for CertifiedEvent {
    type V = CertifiedEventView;

    open spec fn view(&self) -> CertifiedEventView {
        CertifiedEventView {
            event_id: self.event_id@,
            payload: self.payload@,
            veps_signature: self.veps_signature@,
            veps_timestamp: self.veps_timestamp,
        }
    }
}

/// The request during which an operation failed.
#[derive(Clone, Copy, Debug, PartialEq, Eq, Structural)]
pub enum Operation {
    ReadCounter,
    SwapCounter,
    PutRecord,
    GetRecord,
}

/// Why an operation failed.
#[derive(Debug)]
pub enum Cause {
    /// The store reported a failure; the text is the store's.
    Store(String),
    /// The reply does not answer the request that was pending.
    UnexpectedReply,
    /// The counter stands at the greatest sequence number there is.
    SequenceExhausted,
    /// The counter key holds a value that denotes no sequence number. The
    /// value is left as it is.
    CorruptCounter,
}

/// A failed operation, with what is known of it.
#[derive(Debug)]
pub struct LedgerError {
    pub operation: Operation,
    pub sequence_number: Option<u64>,
    pub event_id: Option<String>,
    pub cause: Cause,
}

/// A [`Cause`] as a mathematical value.
pub enum CauseView {
    Store(Seq<char>),
    UnexpectedReply,
    SequenceExhausted,
    CorruptCounter,
}

/// A [`LedgerError`] as a mathematical value.
pub struct LedgerErrorView {
    pub operation: Operation,
    pub sequence_number: Option<u64>,
    pub event_id: Option<Seq<char>>,
    pub cause: CauseView,
}

impl View for Cause {
    type V = CauseView;

    open spec fn view(&self) -> CauseView {
        match *self {
            Cause::Store(message) => CauseView::Store(message@),
            Cause::UnexpectedReply => CauseView::UnexpectedReply,
            Cause::SequenceExhausted => CauseView::SequenceExhausted,
            Cause::CorruptCounter => CauseView::CorruptCounter,
        }
    }
}

impl View for LedgerError {
    type V = LedgerErrorView;

    open spec fn view(&self) -> LedgerErrorView {
        LedgerErrorView {
            operation: self.operation,
            sequence_number: self.sequence_number,
            event_id: match self.event_id {
                Some(id) => Some(id@),
                None => None,
            },
            cause: self.cause@,
        }
    }
}

/// The name of a request in a failure's text.
pub open spec fn operation_name(operation: Operation) -> Seq<char> {
    match operation {
        Operation::ReadCounter => "read counter"@,
        Operation::SwapCounter => "swap counter"@,
        Operation::PutRecord => "put record"@,
        Operation::GetRecord => "get record"@,
    }
}

/// What a cause reads as in a failure's text.
pub open spec fn cause_text(cause: CauseView) -> Seq<char> {
    match cause {
        CauseView::Store(message) => message,
        CauseView::UnexpectedReply => "unexpected reply from the store"@,
        CauseView::SequenceExhausted => "sequence numbers are exhausted"@,
        CauseView::CorruptCounter => "the counter holds no sequence number"@,
    }
}

/// A failure in words: the request, the event and the sequence number as
/// far as they are known, and the cause.
pub open spec fn error_text(error: LedgerErrorView) -> Seq<char> {
    operation_name(error.operation) + (match error.event_id {
        Some(id) => " for event "@ + id,
        None => Seq::<char>::empty(),
    }) + (match error.sequence_number {
        Some(n) => " at sequence "@ + decimal_text(n as nat),
        None => Seq::<char>::empty(),
    }) + ": "@ + cause_text(error.cause)
}

impl LedgerError {
    /// The failure in words.
    pub fn describe(&self) -> (text: String)
        ensures
            text@ == error_text(self@),
    {
        let mut text = match self.operation {
            Operation::ReadCounter => "read counter".to_owned(),
            Operation::SwapCounter => "swap counter".to_owned(),
            Operation::PutRecord => "put record".to_owned(),
            Operation::GetRecord => "get record".to_owned(),
        };
        match &self.event_id {
            Some(id) => {
                text.append(" for event ");
                text.append(id.as_str());
            },
            None => {},
        }
        match self.sequence_number {
            Some(n) => {
                text.append(" at sequence ");
                text.append(sequence_text(n).as_str());
            },
            None => {},
        }
        text.append(": ");
        match &self.cause {
            Cause::Store(message) => text.append(message.as_str()),
            Cause::UnexpectedReply => text.append("unexpected reply from the store"),
            Cause::SequenceExhausted => text.append("sequence numbers are exhausted"),
            Cause::CorruptCounter => text.append("the counter holds no sequence number"),
        }
        assert(text@ =~= error_text(self@));
        text
    }
}

/// Where a seal operation rests.
enum SealProgress {
    Received { event: CertifiedEvent },
    Reserving { event: CertifiedEvent, observed: Option<Vec<u8>>, candidate: u64 },
    Hashed { record: SealedEventData },
}

/// A seal operation under way.
pub struct SealOperation {
    started: Instant,
    progress: SealProgress,
}

/// A [`SealOperation`] as a mathematical value: where it rests and what it
/// holds there.
pub enum SealOperationView {
    /// The counter is being read.
    Received { event: CertifiedEventView },
    /// `candidate` is being written in place of `observed`.
    Reserving { event: CertifiedEventView, observed: Option<Seq<u8>>, candidate: u64 },
    /// `record` is being written.
    Hashed { record: SealedEvent },
}

impl SealOperation {
    /// The latency timer of the operation, started when the event was
    /// received.
    pub closed spec fn timer(&self) -> Instant {
        self.started
    }
}

impl View for SealOperation {
    type V = SealOperationView;

    closed spec fn view(&self) -> SealOperationView {
        match self.progress {
            SealProgress::Received { event } => SealOperationView::Received { event: event@ },
            SealProgress::Reserving { event, observed, candidate } => SealOperationView::Reserving {
                event: event@,
                observed: bytes_view(observed),
                candidate,
            },
            SealProgress::Hashed { record } => SealOperationView::Hashed { record: record@ },
        }
    }
}

/// What comes of one step of a seal operation.
pub enum SealStep {
    /// The operation goes on: carry out `request` and come back with the
    /// reply.
    Ask { operation: SealOperation, request: StoreRequest },
    /// The event is sealed. `over_budget` says that sealing took longer
    /// than [`LATENCY_BUDGET_MS`].
    Sealed { record: SealedEventData, over_budget: bool },
    /// The operation is given up. Nothing is retried.
    Aborted { error: LedgerError },
}

/// A [`SealStep`] as a mathematical value.
pub enum SealStepView {
    Ask { operation: SealOperationView, request: StoreRequestView },
    Sealed { record: SealedEvent, over_budget: bool },
    Aborted { error: LedgerErrorView },
}

impl View for SealStep {
    type V = SealStepView;

    open spec fn view(&self) -> SealStepView {
        match *self {
            SealStep::Ask { operation, request } => SealStepView::Ask {
                operation: operation@,
                request: request@,
            },
            SealStep::Sealed { record, over_budget } => SealStepView::Sealed {
                record: record@,
                over_budget,
            },
            SealStep::Aborted { error } => SealStepView::Aborted { error: error@ },
        }
    }
}

/// The record of `event`, sealed at `sequence_number` behind `previous_hash`
/// at the time `now_ms`. Its latency is not measured yet and stands at zero.
pub open spec fn sealed_record(
    sequence_number: u64,
    event: CertifiedEventView,
    previous_hash: Seq<char>,
    now_ms: i64,
) -> SealedEvent {
    SealedEvent {
        sequence_number,
        event_id: event.event_id,
        payload: event.payload,
        event_hash: event_hash(sequence_number, event.event_id, event.payload, previous_hash),
        previous_hash,
        sealed_timestamp: now_ms,
        commit_latency_ms: 0,
    }
}

/// The step that gives a seal operation up.
pub open spec fn seal_aborted(
    operation: Operation,
    sequence_number: Option<u64>,
    event_id: Seq<char>,
    cause: CauseView,
) -> SealStepView {
    SealStepView::Aborted {
        error: LedgerErrorView { operation, sequence_number, event_id: Some(event_id), cause },
    }
}

/// The step after the counter was read. The next sequence number is one more
/// than what the counter holds; it is written only if the counter has not
/// changed in between. A counter that holds no number ends the operation:
/// nothing is asked of the store, and the counter stays as it is.
pub open spec fn after_counter_read(event: CertifiedEventView, reply: StoreReplyView) -> SealStepView {
    match reply {
        StoreReplyView::Counter(stored) => match stored_sequence(stored) {
            None => seal_aborted(
                Operation::ReadCounter,
                None,
                event.event_id,
                CauseView::CorruptCounter,
            ),
            Some(last) => {
                if last == u64::MAX {
                    seal_aborted(
                        Operation::ReadCounter,
                        None,
                        event.event_id,
                        CauseView::SequenceExhausted,
                    )
                } else {
                    let candidate = (last + 1) as u64;
                    SealStepView::Ask {
                        operation: SealOperationView::Reserving {
                            event,
                            observed: stored,
                            candidate,
                        },
                        request: StoreRequestView::SwapCounter {
                            key: counter_key_text(),
                            expected: stored,
                            replacement: counter_bytes(candidate),
                        },
                    }
                }
            },
        },
        StoreReplyView::Failed(message) => seal_aborted(
            Operation::ReadCounter,
            None,
            event.event_id,
            CauseView::Store(message),
        ),
        _ => seal_aborted(Operation::ReadCounter, None, event.event_id, CauseView::UnexpectedReply),
    }
}

/// The step after the conditional write of `candidate`. Where it was
/// written, `candidate` is the event's sequence number: the event is hashed
/// behind the latest hash of `chain` and its record goes to the store. Where
/// another writer came first, the counter is read again.
pub open spec fn after_swap(
    chain: Map<u64, Seq<char>>,
    event: CertifiedEventView,
    candidate: u64,
    reply: StoreReplyView,
    now_ms: i64,
) -> SealStepView {
    match reply {
        StoreReplyView::Swapped(true) => {
            let record = sealed_record(candidate, event, latest_hash(chain), now_ms);
            SealStepView::Ask {
                operation: SealOperationView::Hashed { record },
                request: StoreRequestView::PutRecord { key: record_key_text(candidate), record },
            }
        },
        StoreReplyView::Swapped(false) => SealStepView::Ask {
            operation: SealOperationView::Received { event },
            request: StoreRequestView::ReadCounter { key: counter_key_text() },
        },
        StoreReplyView::Failed(message) => seal_aborted(
            Operation::SwapCounter,
            None,
            event.event_id,
            CauseView::Store(message),
        ),
        _ => seal_aborted(Operation::SwapCounter, None, event.event_id, CauseView::UnexpectedReply),
    }
}

/// The chain and the step after the record was written. Once the store has
/// it, the hash enters the chain and the record is handed back with the
/// measured latency.
pub open spec fn after_put(
    chain: Map<u64, Seq<char>>,
    record: SealedEvent,
    reply: StoreReplyView,
    elapsed_ms: i64,
) -> (Map<u64, Seq<char>>, SealStepView) {
    match reply {
        StoreReplyView::Stored => (
            chain.insert(record.sequence_number, record.event_hash),
            SealStepView::Sealed {
                record: SealedEvent { commit_latency_ms: elapsed_ms, ..record },
                over_budget: elapsed_ms > LATENCY_BUDGET_MS,
            },
        ),
        StoreReplyView::Failed(message) => (
            chain,
            seal_aborted(
                Operation::PutRecord,
                Some(record.sequence_number),
                record.event_id,
                CauseView::Store(message),
            ),
        ),
        _ => (
            chain,
            seal_aborted(
                Operation::PutRecord,
                Some(record.sequence_number),
                record.event_id,
                CauseView::UnexpectedReply,
            ),
        ),
    }
}

/// One step of a seal operation: the chain and the step that follow from
/// the chain so far, the operation, the store's reply, the wall-clock time
/// and the time since the operation began.
pub open spec fn seal_transition(
    chain: Map<u64, Seq<char>>,
    operation: SealOperationView,
    reply: StoreReplyView,
    now_ms: i64,
    elapsed_ms: i64,
) -> (Map<u64, Seq<char>>, SealStepView) {
    match operation {
        SealOperationView::Received { event } => (chain, after_counter_read(event, reply)),
        SealOperationView::Reserving { event, observed, candidate } => (
            chain,
            after_swap(chain, event, candidate, reply, now_ms),
        ),
        SealOperationView::Hashed { record } => after_put(chain, record, reply, elapsed_ms),
    }
}

/// By how many entries a step lets the chain grow: by one where it seals a
/// record at a sequence number that the chain did not hold, else by none.
pub open spec fn chain_growth(chain: Map<u64, Seq<char>>, step: SealStepView) -> int {
    match step {
        SealStepView::Sealed { record, over_budget } => if chain.contains_key(
            record.sequence_number,
        ) {
            0
        } else {
            1
        },
        _ => 0,
    }
}

/// What a reply to `GetRecord` means for the sequence number asked for. An
/// absent record is an answer, not a failure.
pub open spec fn event_lookup(sequence_number: u64, reply: StoreReplyView) -> Result<
    Option<SealedEvent>,
    LedgerErrorView,
> {
    match reply {
        StoreReplyView::Record(found) => Ok(found),
        StoreReplyView::Failed(message) => Err(
            LedgerErrorView {
                operation: Operation::GetRecord,
                sequence_number: Some(sequence_number),
                event_id: None,
                cause: CauseView::Store(message),
            },
        ),
        _ => Err(
            LedgerErrorView {
                operation: Operation::GetRecord,
                sequence_number: Some(sequence_number),
                event_id: None,
                cause: CauseView::UnexpectedReply,
            },
        ),
    }
}

/// What a reply to `ReadCounter` means for the last assigned sequence
/// number: zero for an absent counter, a failure for one that holds no
/// number.
pub open spec fn sequence_reading(reply: StoreReplyView) -> Result<u64, LedgerErrorView> {
    match reply {
        StoreReplyView::Counter(stored) => match stored_sequence(stored) {
            Some(n) => Ok(n),
            None => Err(
                LedgerErrorView {
                    operation: Operation::ReadCounter,
                    sequence_number: None,
                    event_id: None,
                    cause: CauseView::CorruptCounter,
                },
            ),
        },
        StoreReplyView::Failed(message) => Err(
            LedgerErrorView {
                operation: Operation::ReadCounter,
                sequence_number: None,
                event_id: None,
                cause: CauseView::Store(message),
            },
        ),
        _ => Err(
            LedgerErrorView {
                operation: Operation::ReadCounter,
                sequence_number: None,
                event_id: None,
                cause: CauseView::UnexpectedReply,
            },
        ),
    }
}

/// The views of a sealing outcome.
pub open spec fn sealed_view(sealed: Result<SealedEventData, LedgerError>) -> Result<
    SealedEvent,
    LedgerErrorView,
> {
    match sealed {
        Ok(record) => Ok(record@),
        Err(error) => Err(error@),
    }
}

/// The views of a lookup outcome.
pub open spec fn found_view(found: Result<Option<SealedEventData>, LedgerError>) -> Result<
    Option<SealedEvent>,
    LedgerErrorView,
> {
    match found {
        Ok(record) => Ok(record_view(record)),
        Err(error) => Err(error@),
    }
}

/// The views of a counter reading.
pub open spec fn reading_view(current: Result<u64, LedgerError>) -> Result<u64, LedgerErrorView> {
    match current {
        Ok(n) => Ok(n),
        Err(error) => Err(error@),
    }
}

/// The measured latency in milliseconds; a duration beyond what 64 bits
/// hold counts as the greatest latency there is.
pub open spec fn latency_of(millis: u128) -> i64 {
    if millis > i64::MAX as u128 {
        i64::MAX
    } else {
        millis as i64
    }
}

/// Narrows a duration in milliseconds to a latency.
pub fn latency_millis(millis: u128) -> (latency: i64)
    ensures
        latency == latency_of(millis),
{
    if millis > i64::MAX as u128 {
        i64::MAX
    } else {
        millis as i64
    }
}

/// Hands a sealed record back with its latency.
fn completed(record: SealedEventData, elapsed_ms: i64) -> (step: SealStep)
    ensures
        step@ == (SealStepView::Sealed {
            record: SealedEvent { commit_latency_ms: elapsed_ms, ..record@ },
            over_budget: elapsed_ms > LATENCY_BUDGET_MS,
        }),
{
    SealStep::Sealed {
        record: SealedEventData {
            sequence_number: record.sequence_number,
            event_id: record.event_id,
            payload: record.payload,
            event_hash: record.event_hash,
            previous_hash: record.previous_hash,
            sealed_timestamp: record.sealed_timestamp,
            commit_latency_ms: elapsed_ms,
        },
        over_budget: elapsed_ms > LATENCY_BUDGET_MS,
    }
}

/// Gives a seal operation up.
fn aborted(operation: Operation, sequence_number: Option<u64>, event_id: String, cause: Cause) -> (step:
    SealStep)
    ensures
        step@ == seal_aborted(operation, sequence_number, event_id@, cause@),
{
    SealStep::Aborted {
        error: LedgerError { operation, sequence_number, event_id: Some(event_id), cause },
    }
}

/// What a listing of sealed records is as mathematical values.
pub open spec fn records_view(records: Seq<SealedEventData>) -> Seq<SealedEvent> {
    records.map_values(|record: SealedEventData| record@)
}

/// The chain that a listing of sealed records leaves behind: the hash of
/// each record at its sequence number, and where several carry one number,
/// the hash of the last of them in the listing.
pub open spec fn restored_chain(records: Seq<SealedEvent>) -> Map<u64, Seq<char>>
    decreases records.len(),
{
    if records.len() == 0 {
        Map::empty()
    } else {
        restored_chain(records.drop_last()).insert(
            records.last().sequence_number,
            records.last().event_hash,
        )
    }
}

/// The restored chain holds the sequence numbers of the records and no
/// others, and at each number the hash of a record that carries it.
pub proof fn lemma_restored_chain(records: Seq<SealedEvent>)
    ensures
        forall|k: u64| #[trigger]
            restored_chain(records).contains_key(k) <==> exists|i: int|
                0 <= i < records.len() && (#[trigger] records[i]).sequence_number == k,
        forall|k: u64| #[trigger]
            restored_chain(records).contains_key(k) ==> exists|j: int|
                0 <= j < records.len() && (#[trigger] records[j]).sequence_number == k
                    && restored_chain(records)[k] == records[j].event_hash,
    decreases records.len(),
{
    if records.len() > 0 {
        let earlier = records.drop_last();
        let last = records.last();
        lemma_restored_chain(earlier);
        assert forall|k: u64| #[trigger] restored_chain(records).contains_key(k) implies exists|
            j: int,
        |
            0 <= j < records.len() && (#[trigger] records[j]).sequence_number == k
                && restored_chain(records)[k] == records[j].event_hash by {
            if k == last.sequence_number {
                assert(records[records.len() - 1] == last);
            } else {
                assert(restored_chain(earlier).contains_key(k));
                let j = choose|j: int|
                    0 <= j < earlier.len() && (#[trigger] earlier[j]).sequence_number == k
                        && restored_chain(earlier)[k] == earlier[j].event_hash;
                assert(records[j] == earlier[j]);
            }
        }
        assert forall|k: u64|
            (exists|i: int|
                0 <= i < records.len() && (#[trigger] records[i]).sequence_number
                    == k) implies #[trigger] restored_chain(records).contains_key(k) by {
            let i = choose|i: int|
                0 <= i < records.len() && (#[trigger] records[i]).sequence_number == k;
            if i < earlier.len() {
                assert(earlier[i] == records[i]);
                assert(earlier[i].sequence_number == k);
                assert(restored_chain(earlier).contains_key(k));
            } else {
                assert(records[i] == last);
            }
        }
    }
}

/// Where one record carries the greatest sequence number of a listing, and
/// no other record carries that number, the latest hash of the restored
/// chain is the hash of that record.
pub proof fn lemma_restored_latest(records: Seq<SealedEvent>, m: int)
    requires
        0 <= m < records.len(),
        forall|i: int|
            0 <= i < records.len() && i != m ==> (#[trigger] records[i]).sequence_number
                < records[m].sequence_number,
    ensures
        crate::crypto::is_latest(restored_chain(records), records[m].sequence_number),
        latest_hash(restored_chain(records)) == records[m].event_hash,
{
    lemma_restored_chain(records);
    let chain = restored_chain(records);
    let top = records[m].sequence_number;
    assert(chain.contains_key(top));
    assert forall|j: u64| chain.contains_key(j) implies j <= top by {
        let i = choose|i: int|
            0 <= i < records.len() && (#[trigger] records[i]).sequence_number == j;
    }
    crate::crypto::lemma_latest_hash_at(chain, top);
    let j = choose|j: int|
        0 <= j < records.len() && (#[trigger] records[j]).sequence_number == top && chain[top]
            == records[j].event_hash;
    assert(j == m);
}

/// The sequencing engine: the hash chain of what this process has sealed,
/// and the seal operation that extends it.
pub struct Ledger {
    sealing_engine: SealingEngine,
    hash_chain: HashChain,
}

impl View for Ledger {
    type V = Map<u64, Seq<char>>;

    closed spec fn view(&self) -> Map<u64, Seq<char>> {
        self.hash_chain@
    }
}

impl Ledger {
    /// A ledger whose chain is empty, for a store that holds no sealed
    /// record yet. A process that starts on a store which holds some begins
    /// with [`Ledger::restored`].
    pub fn new() -> (ledger: Self)
        ensures
            ledger@ == Map::<u64, Seq<char>>::empty(),
    {
        Ledger { sealing_engine: SealingEngine::new(), hash_chain: HashChain::new() }
    }

    /// A ledger whose chain is rebuilt from the sealed records that the
    /// store holds: the chain has the sequence numbers of the records and no
    /// others, each with the hash of a record that carries it.
    pub fn restored(records: Vec<SealedEventData>) -> (ledger: Self)
        ensures
            ledger@ == restored_chain(records_view(records@)),
            forall|k: u64| #[trigger]
                ledger@.contains_key(k) <==> exists|i: int|
                    0 <= i < records.len() && (#[trigger] records@[i]).sequence_number == k,
            forall|i: int|
                0 <= i < records.len() ==> exists|j: int|
                    0 <= j < records.len() && (#[trigger] records@[j]).sequence_number
                        == (#[trigger] records@[i]).sequence_number
                        && ledger@[records@[i].sequence_number] == records@[j].event_hash@,
    {
        let mut ledger = Ledger::new();
        let ghost listing = records_view(records@);
        let mut i: usize = 0;
        while i < records.len()
            invariant
                i <= records.len(),
                listing == records_view(records@),
                ledger@ == restored_chain(listing.subrange(0, i as int)),
            decreases records.len() - i,
        {
            let record = &records[i];
            ledger.hash_chain.add_hash(record.sequence_number, record.event_hash.clone());
            proof {
                let longer = listing.subrange(0, i + 1);
                assert(longer.drop_last() =~= listing.subrange(0, i as int));
                assert(longer.last() == records@[i as int]@);
            }
            i = i + 1;
        }
        proof {
            assert(listing.subrange(0, i as int) =~= listing);
            lemma_restored_chain(listing);
            assert forall|k: u64| #[trigger] ledger@.contains_key(k) implies exists|i: int|
                0 <= i < records.len() && (#[trigger] records@[i]).sequence_number == k by {
                let i = choose|i: int|
                    0 <= i < listing.len() && (#[trigger] listing[i]).sequence_number == k;
                assert(records@[i].sequence_number == k);
            }
            assert forall|k: u64|
                (exists|i: int|
                    0 <= i < records.len() && (#[trigger] records@[i]).sequence_number
                        == k) implies #[trigger] ledger@.contains_key(k) by {
                let i = choose|i: int|
                    0 <= i < records.len() && (#[trigger] records@[i]).sequence_number == k;
                assert(listing[i].sequence_number == k);
            }
            assert forall|i: int| 0 <= i < records.len() implies exists|j: int|
                0 <= j < records.len() && (#[trigger] records@[j]).sequence_number
                    == (#[trigger] records@[i]).sequence_number
                    && ledger@[records@[i].sequence_number] == records@[j].event_hash@ by {
                let k = records@[i].sequence_number;
                assert(listing[i].sequence_number == k);
                assert(ledger@.contains_key(k));
                let j = choose|j: int|
                    0 <= j < listing.len() && (#[trigger] listing[j]).sequence_number == k
                        && restored_chain(listing)[k] == listing[j].event_hash;
                assert(records@[j].sequence_number == k);
                assert(records@[j].event_hash@ == listing[j].event_hash);
            }
        }
        ledger
    }

    /// The chain of hashes sealed through this ledger.
    pub fn hash_chain(&self) -> (chain: &HashChain)
        ensures
            chain@ == self@,
    {
        &self.hash_chain
    }

    /// Builds the record of an event whose sequence number is assigned.
    pub fn seal_record(
        &self,
        sequence_number: u64,
        event: CertifiedEvent,
        now_ms: i64,
    ) -> (record: SealedEventData)
        ensures
            record@ == sealed_record(sequence_number, event@, latest_hash(self@), now_ms),
    {
        let previous_hash = self.hash_chain.get_latest_hash();
        let event_hash = self.sealing_engine.compute_event_hash(
            sequence_number,
            event.event_id.as_str(),
            event.payload.as_slice(),
            previous_hash.as_str(),
        );
        SealedEventData {
            sequence_number,
            event_id: event.event_id,
            payload: event.payload,
            event_hash,
            previous_hash,
            sealed_timestamp: now_ms,
            commit_latency_ms: 0,
        }
    }

    /// Receives an event for sealing: starts the latency timer and asks for
    /// the shared counter.
    pub fn seal_event(
        &self,
        event_id: String,
        payload: Vec<u8>,
        veps_signature: String,
        veps_timestamp: i64,
    ) -> (begun: (SealOperation, StoreRequest))
        ensures
            begun.0@ == (SealOperationView::Received {
                event: CertifiedEventView {
                    event_id: event_id@,
                    payload: payload@,
                    veps_signature: veps_signature@,
                    veps_timestamp,
                },
            }),
            begun.1@ == (StoreRequestView::ReadCounter { key: counter_key_text() }),
    {
        let started = Instant::now();
        let event = CertifiedEvent { event_id, payload, veps_signature, veps_timestamp };
        (
            SealOperation { started, progress: SealProgress::Received { event } },
            StoreRequest::ReadCounter { key: counter_key() },
        )
    }

    /// Takes a seal operation one step further, given the store's reply to
    /// the request that was pending, the wall-clock time `now_ms` and the
    /// time `elapsed_ms` since the operation began.
    ///
    /// On the counter's value, the next sequence number is written in its
    /// place, on condition that the counter still holds that value. Where
    /// the write succeeded, the sequence number is assigned: the event is
    /// hashed behind the latest hash of the chain, and its record, stamped
    /// `now_ms`, goes to the store. Where it did not, the counter is read
    /// again. Once the record is stored, its hash enters the chain and the
    /// record is handed back with the latency `elapsed_ms`. The chain
    /// changes in this last step only.
    pub fn advance_at(
        &mut self,
        operation: SealOperation,
        reply: StoreReply,
        now_ms: i64,
        elapsed_ms: i64,
    ) -> (step: SealStep)
        ensures
            (final(self)@, step@) == seal_transition(
                old(self)@,
                operation@,
                reply@,
                now_ms,
                elapsed_ms,
            ),
            step matches SealStep::Ask { operation: next, request } ==> next.timer()
                == operation.timer(),
            final(self)@.dom().finite(),
            final(self)@.len() == old(self)@.len() + chain_growth(old(self)@, step@),
    {
        proof {
            self.lemma_chain_finite();
        }
        let started = operation.started;
        match operation.progress {
            SealProgress::Received { event } => match reply {
                StoreReply::Counter(stored) => {
                    let last: u64 = match counter_value(&stored) {
                        Some(last) => last,
                        None => {
                            return aborted(
                                Operation::ReadCounter,
                                None,
                                event.event_id,
                                Cause::CorruptCounter,
                            );
                        },
                    };
                    if last == u64::MAX {
                        aborted(
                            Operation::ReadCounter,
                            None,
                            event.event_id,
                            Cause::SequenceExhausted,
                        )
                    } else {
                        let candidate: u64 = last + 1;
                        let replacement = sequence_text(candidate).as_str().as_bytes_vec();
                        let expected = stored.clone();
                        assert(bytes_view(expected) == bytes_view(stored)) by {
                            if stored is Some {
                                assert(expected->0@ =~= stored->0@);
                            }
                        }
                        SealStep::Ask {
                            operation: SealOperation {
                                started,
                                progress: SealProgress::Reserving {
                                    event,
                                    observed: stored,
                                    candidate,
                                },
                            },
                            request: StoreRequest::SwapCounter {
                                key: counter_key(),
                                expected,
                                replacement,
                            },
                        }
                    }
                },
                StoreReply::Failed(message) => aborted(
                    Operation::ReadCounter,
                    None,
                    event.event_id,
                    Cause::Store(message),
                ),
                _ => aborted(Operation::ReadCounter, None, event.event_id, Cause::UnexpectedReply),
            },
            SealProgress::Reserving { event, observed, candidate } => match reply {
                StoreReply::Swapped(written) => {
                    if written {
                        let record = self.seal_record(candidate, event, now_ms);
                        let pending = record.clone();
                        SealStep::Ask {
                            operation: SealOperation {
                                started,
                                progress: SealProgress::Hashed { record },
                            },
                            request: StoreRequest::PutRecord {
                                key: record_key(candidate),
                                record: pending,
                            },
                        }
                    } else {
                        SealStep::Ask {
                            operation: SealOperation {
                                started,
                                progress: SealProgress::Received { event },
                            },
                            request: StoreRequest::ReadCounter { key: counter_key() },
                        }
                    }
                },
                StoreReply::Failed(message) => aborted(
                    Operation::SwapCounter,
                    None,
                    event.event_id,
                    Cause::Store(message),
                ),
                _ => aborted(Operation::SwapCounter, None, event.event_id, Cause::UnexpectedReply),
            },
            SealProgress::Hashed { record } => match reply {
                StoreReply::Stored => {
                    self.enter(&record);
                    completed(record, elapsed_ms)
                },
                StoreReply::Failed(message) => aborted(
                    Operation::PutRecord,
                    Some(record.sequence_number),
                    record.event_id,
                    Cause::Store(message),
                ),
                _ => aborted(
                    Operation::PutRecord,
                    Some(record.sequence_number),
                    record.event_id,
                    Cause::UnexpectedReply,
                ),
            },
        }
    }

    /// The chain holds finitely many entries.
    pub proof fn lemma_chain_finite(&self)
        ensures
            self@.dom().finite(),
    {
        self.hash_chain.lemma_finite();
    }

    /// Enters the hash of a stored record into the chain.
    fn enter(&mut self, record: &SealedEventData)
        ensures
            final(self)@ == old(self)@.insert(record.sequence_number, record.event_hash@),
            final(self)@.dom().finite(),
            final(self)@.len() == old(self)@.len() + (if old(self)@.contains_key(
                record.sequence_number,
            ) {
                0int
            } else {
                1int
            }),
    {
        self.hash_chain.add_hash(record.sequence_number, record.event_hash.clone());
    }

    /// Takes a seal operation one step further, given the store's reply to
    /// the request that was pending. The record's timestamp is the
    /// wall-clock time at which it is built. Its latency is what the timer
    /// of the operation shows once the hash has entered the chain; it is
    /// never negative. The timer runs on from step to step.
    pub fn advance(&mut self, operation: SealOperation, reply: StoreReply) -> (step: SealStep)
        ensures
            exists|now_ms: i64, elapsed_ms: i64|
                0 <= elapsed_ms && (final(self)@, step@) == #[trigger] seal_transition(
                    old(self)@,
                    operation@,
                    reply@,
                    now_ms,
                    elapsed_ms,
                ),
            step matches SealStep::Ask { operation: next, request } ==> next.timer()
                == operation.timer(),
            final(self)@.dom().finite(),
            final(self)@.len() == old(self)@.len() + chain_growth(old(self)@, step@),
    {
        proof {
            self.lemma_chain_finite();
        }
        let started = operation.started;
        match operation.progress {
            SealProgress::Received { event } => self.advance_at(
                SealOperation { started, progress: SealProgress::Received { event } },
                reply,
                0,
                0,
            ),
            SealProgress::Reserving { event, observed, candidate } => {
                let now_ms: i64 = wall_clock_millis();
                self.advance_at(
                    SealOperation {
                        started,
                        progress: SealProgress::Reserving { event, observed, candidate },
                    },
                    reply,
                    now_ms,
                    0,
                )
            },
            SealProgress::Hashed { record } => match reply {
                StoreReply::Stored => {
                    self.enter(&record);
                    let elapsed_ms: i64 = latency_millis(started.elapsed().as_millis());
                    let step = completed(record, elapsed_ms);
                    assert((self@, step@) == seal_transition(
                        old(self)@,
                        operation@,
                        reply@,
                        0,
                        elapsed_ms,
                    ));
                    step
                },
                other => self.advance_at(
                    SealOperation { started, progress: SealProgress::Hashed { record } },
                    other,
                    0,
                    0,
                ),
            },
        }
    }

    /// The request that fetches the record sealed at `sequence_number`.
    pub fn get_event(&self, sequence_number: u64) -> (request: StoreRequest)
        ensures
            request@ == (StoreRequestView::GetRecord { key: record_key_text(sequence_number) }),
    {
        StoreRequest::GetRecord { key: record_key(sequence_number) }
    }

    /// Reads the store's reply to [`Ledger::get_event`].
    pub fn found_event(&self, sequence_number: u64, reply: StoreReply) -> (found: Result<
        Option<SealedEventData>,
        LedgerError,
    >)
        ensures
            found_view(found) == event_lookup(sequence_number, reply@),
    {
        match reply {
            StoreReply::Record(found) => Ok(found),
            StoreReply::Failed(message) => Err(
                LedgerError {
                    operation: Operation::GetRecord,
                    sequence_number: Some(sequence_number),
                    event_id: None,
                    cause: Cause::Store(message),
                },
            ),
            _ => Err(
                LedgerError {
                    operation: Operation::GetRecord,
                    sequence_number: Some(sequence_number),
                    event_id: None,
                    cause: Cause::UnexpectedReply,
                },
            ),
        }
    }

    /// The request that fetches the last assigned sequence number.
    pub fn get_current_sequence(&self) -> (request: StoreRequest)
        ensures
            request@ == (StoreRequestView::ReadCounter { key: counter_key_text() }),
    {
        StoreRequest::ReadCounter { key: counter_key() }
    }

    /// Reads the store's reply to [`Ledger::get_current_sequence`]: the
    /// last assigned sequence number, zero where the counter is absent, and
    /// a failure where the counter holds no number.
    pub fn current_sequence(&self, reply: StoreReply) -> (current: Result<u64, LedgerError>)
        ensures
            reading_view(current) == sequence_reading(reply@),
    {
        match reply {
            StoreReply::Counter(stored) => match counter_value(&stored) {
                Some(n) => Ok(n),
                None => Err(
                    LedgerError {
                        operation: Operation::ReadCounter,
                        sequence_number: None,
                        event_id: None,
                        cause: Cause::CorruptCounter,
                    },
                ),
            },
            StoreReply::Failed(message) => Err(
                LedgerError {
                    operation: Operation::ReadCounter,
                    sequence_number: None,
                    event_id: None,
                    cause: Cause::Store(message),
                },
            ),
            _ => Err(
                LedgerError {
                    operation: Operation::ReadCounter,
                    sequence_number: None,
                    event_id: None,
                    cause: Cause::UnexpectedReply,
                },
            ),
        }
    }
}

} // verus!
