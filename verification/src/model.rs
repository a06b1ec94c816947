//! The replicated store as the ledger relies on it, and seal operations
//! that run on one or several ledgers which share that store, as
//! mathematical objects.
//!
//! The store is taken to serve one request at a time, each as a single
//! atomic step: a read returns what the last write left, and a conditional
//! write compares and writes in one step. Any number of seal operations may
//! be under way at once. A request being served and the ledger taking the
//! step that the reply calls for are two moments, and the moments of
//! different operations may interleave in any order.

use crate::counter::{counter_key_text, stored_sequence};
use crate::crypto::latest_hash;
use crate::ledger::{
    seal_transition, CertifiedEventView, LedgerErrorView, SealOperationView, SealStepView,
};
use crate::sealing::SealedEvent;
use crate::store::{StoreReplyView, StoreRequestView};
use vstd::prelude::*;

verus! {

/// What the store holds: byte strings and records, each under its key.
pub struct StoreModel {
    pub values: Map<Seq<char>, Seq<u8>>,
    pub records: Map<Seq<char>, SealedEvent>,
}

impl StoreModel {
    /// A store that holds nothing.
    pub open spec fn fresh() -> StoreModel {
        StoreModel { values: Map::empty(), records: Map::empty() }
    }

    /// The byte string under `key`, if any.
    pub open spec fn value_at(self, key: Seq<char>) -> Option<Seq<u8>> {
        if self.values.contains_key(key) {
            Some(self.values[key])
        } else {
            None
        }
    }

    /// The record under `key`, if any.
    pub open spec fn record_at(self, key: Seq<char>) -> Option<SealedEvent> {
        if self.records.contains_key(key) {
            Some(self.records[key])
        } else {
            None
        }
    }

    /// The counter is absent or holds a number.
    pub open spec fn counter_readable(self) -> bool {
        stored_sequence(self.value_at(counter_key_text())) is Some
    }

    /// The last assigned sequence number according to the store; zero for a
    /// counter that cannot be read.
    pub open spec fn last_sequence(self) -> u64 {
        match stored_sequence(self.value_at(counter_key_text())) {
            Some(n) => n,
            None => 0,
        }
    }

    /// The store after `request`, and its reply. The store of this model is
    /// always reachable and never answers `Failed`.
    pub open spec fn serve(self, request: StoreRequestView) -> (StoreModel, StoreReplyView) {
        match request {
            StoreRequestView::ReadCounter { key } => (
                self,
                StoreReplyView::Counter(self.value_at(key)),
            ),
            StoreRequestView::SwapCounter { key, expected, replacement } => {
                if self.value_at(key) == expected {
                    (
                        StoreModel { values: self.values.insert(key, replacement), ..self },
                        StoreReplyView::Swapped(true),
                    )
                } else {
                    (self, StoreReplyView::Swapped(false))
                }
            },
            StoreRequestView::PutRecord { key, record } => (
                StoreModel { records: self.records.insert(key, record), ..self },
                StoreReplyView::Stored,
            ),
            StoreRequestView::GetRecord { key } => (
                self,
                StoreReplyView::Record(self.record_at(key)),
            ),
        }
    }
}

/// Where one seal operation stands.
pub enum Standing {
    /// Its request is on the way to the store.
    Asking { operation: SealOperationView, request: StoreRequestView },
    /// The store has served its request; the ledger has not yet taken the
    /// step that the reply calls for.
    Answered { operation: SealOperationView, reply: StoreReplyView },
    /// It has sealed its event.
    Sealed { record: SealedEvent, over_budget: bool },
    /// It was given up.
    Aborted { error: LedgerErrorView },
}

/// Where an operation stands after a step of the ledger.
pub open spec fn standing_after(step: SealStepView) -> Standing {
    match step {
        SealStepView::Ask { operation, request } => Standing::Asking { operation, request },
        SealStepView::Sealed { record, over_budget } => Standing::Sealed { record, over_budget },
        SealStepView::Aborted { error } => Standing::Aborted { error },
    }
}

/// Where the operation on `event` stands when it is received.
pub open spec fn received(event: CertifiedEventView) -> Standing {
    Standing::Asking {
        operation: SealOperationView::Received { event },
        request: StoreRequestView::ReadCounter { key: counter_key_text() },
    }
}

/// One moment of one operation.
pub enum Turn {
    /// The store serves the request of the operation `worker`.
    Serve { worker: int },
    /// The ledger of the operation `worker` takes the step that the reply
    /// calls for, while the clocks show `now_ms` and `elapsed_ms`.
    Advance { worker: int, now_ms: i64, elapsed_ms: i64 },
}

/// One store, the ledgers that share it, each with its own chain, and the
/// seal operations that run on them.
pub struct Deployment {
    pub store: StoreModel,
    /// The chain of each ledger.
    pub chains: Seq<Map<u64, Seq<char>>>,
    /// The ledger that runs each operation, as its place in `chains`.
    pub ledger_of: Seq<int>,
    pub operations: Seq<Standing>,
}

impl Deployment {
    /// The store and the chains of the ledgers as they are found, and one
    /// operation for each of `events`, all of them just received; the
    /// operation on the `i`-th event runs on the ledger `ledger_of[i]`.
    pub open spec fn begin(
        store: StoreModel,
        chains: Seq<Map<u64, Seq<char>>>,
        ledger_of: Seq<int>,
        events: Seq<CertifiedEventView>,
    ) -> Deployment
        recommends
            ledger_of.len() == events.len(),
    {
        Deployment {
            store,
            chains,
            ledger_of,
            operations: Seq::new(events.len(), |i: int| received(events[i])),
        }
    }

    /// One ledger with the store and the chain as they are found, and one
    /// operation on it for each of `events`.
    pub open spec fn single(
        store: StoreModel,
        chain: Map<u64, Seq<char>>,
        events: Seq<CertifiedEventView>,
    ) -> Deployment {
        Deployment::begin(store, seq![chain], Seq::new(events.len(), |i: int| 0int), events)
    }

    /// A fresh store, one ledger with an empty chain, and one operation on
    /// it for each of `events`.
    pub open spec fn fresh(events: Seq<CertifiedEventView>) -> Deployment {
        Deployment::single(StoreModel::fresh(), Map::empty(), events)
    }

    /// The operation `worker` runs on a ledger that there is.
    pub open spec fn has_ledger(self, worker: int) -> bool {
        &&& 0 <= worker < self.ledger_of.len()
        &&& 0 <= self.ledger_of[worker] < self.chains.len()
    }

    /// The chain of the ledger that runs the operation `worker`; the empty
    /// chain where there is no such ledger.
    pub open spec fn chain_of(self, worker: int) -> Map<u64, Seq<char>> {
        if self.has_ledger(worker) {
            self.chains[self.ledger_of[worker]]
        } else {
            Map::empty()
        }
    }

    /// The chain of the only ledger of a deployment that has one ledger.
    pub open spec fn chain(self) -> Map<u64, Seq<char>>
        recommends
            self.chains.len() == 1,
    {
        self.chains[0]
    }

    /// The deployment after the store has served the request of `worker`.
    /// Nothing changes unless that operation has a request on the way.
    pub open spec fn serve(self, worker: int) -> Deployment {
        if 0 <= worker < self.operations.len() {
            match self.operations[worker] {
                Standing::Asking { operation, request } => {
                    let (store, reply) = self.store.serve(request);
                    Deployment {
                        store,
                        operations: self.operations.update(
                            worker,
                            Standing::Answered { operation, reply },
                        ),
                        ..self
                    }
                },
                _ => self,
            }
        } else {
            self
        }
    }

    /// The deployment after the ledger of `worker` has taken the step of
    /// that operation. Nothing changes unless the operation has a reply
    /// waiting.
    pub open spec fn advance(self, worker: int, now_ms: i64, elapsed_ms: i64) -> Deployment {
        if 0 <= worker < self.operations.len() {
            match self.operations[worker] {
                Standing::Answered { operation, reply } => {
                    let (chain, step) = seal_transition(
                        self.chain_of(worker),
                        operation,
                        reply,
                        now_ms,
                        elapsed_ms,
                    );
                    Deployment {
                        chains: if self.has_ledger(worker) {
                            self.chains.update(self.ledger_of[worker], chain)
                        } else {
                            self.chains
                        },
                        operations: self.operations.update(worker, standing_after(step)),
                        ..self
                    }
                },
                _ => self,
            }
        } else {
            self
        }
    }

    /// The deployment after one turn.
    pub open spec fn take(self, turn: Turn) -> Deployment {
        match turn {
            Turn::Serve { worker } => self.serve(worker),
            Turn::Advance { worker, now_ms, elapsed_ms } => self.advance(
                worker,
                now_ms,
                elapsed_ms,
            ),
        }
    }

    /// The deployment after the turns of `schedule`, in their order.
    pub open spec fn run(self, schedule: Seq<Turn>) -> Deployment
        decreases schedule.len(),
    {
        if schedule.len() == 0 {
            self
        } else {
            self.run(schedule.drop_last()).take(schedule.last())
        }
    }
}

/// The sequence number that an operation holds, from the moment the store
/// has written it under the counter key on the operation's behalf.
pub open spec fn number_of(standing: Standing) -> Option<u64> {
    match standing {
        Standing::Answered {
            operation: SealOperationView::Reserving { event, observed, candidate },
            reply: StoreReplyView::Swapped(true),
        } => Some(candidate),
        Standing::Asking { operation: SealOperationView::Hashed { record }, request } => Some(
            record.sequence_number,
        ),
        Standing::Answered { operation: SealOperationView::Hashed { record }, reply } => Some(
            record.sequence_number,
        ),
        Standing::Sealed { record, over_budget } => Some(record.sequence_number),
        _ => None,
    }
}

/// How many of `operations` hold a sequence number.
pub open spec fn numbered(operations: Seq<Standing>) -> nat
    decreases operations.len(),
{
    if operations.len() == 0 {
        0
    } else {
        numbered(operations.drop_last()) + if number_of(operations.last()) is Some {
            1nat
        } else {
            0nat
        }
    }
}

/// Some operation holds the sequence number `s`.
pub open spec fn held(operations: Seq<Standing>, s: u64) -> bool {
    exists|i: int| 0 <= i < operations.len() && number_of(#[trigger] operations[i]) == Some(s)
}

/// The record as the store holds it: written before the latency is known.
pub open spec fn as_stored(record: SealedEvent) -> SealedEvent {
    SealedEvent { commit_latency_ms: 0, ..record }
}

/// The six turns in which the operation `worker` seals its event when
/// nothing comes between them: the counter is read, the next number is
/// written, the record is written, and after each the ledger takes its step.
pub open spec fn uninterrupted(worker: int, now_ms: i64, elapsed_ms: i64) -> Seq<Turn> {
    seq![
        Turn::Serve { worker },
        Turn::Advance { worker, now_ms, elapsed_ms },
        Turn::Serve { worker },
        Turn::Advance { worker, now_ms, elapsed_ms },
        Turn::Serve { worker },
        Turn::Advance { worker, now_ms, elapsed_ms },
    ]
}

/// The schedule on which the first `n` operations seal their events one
/// after the other, each without interruption. `clocks` gives, for each
/// operation, the wall-clock time and the latency that the clocks show for
/// it.
pub open spec fn in_sequence(clocks: Seq<(i64, i64)>, n: nat) -> Seq<Turn>
    recommends
        n <= clocks.len(),
    decreases n,
{
    if n == 0 {
        Seq::empty()
    } else {
        in_sequence(clocks, (n - 1) as nat) + uninterrupted(
            n - 1,
            clocks[n - 1].0,
            clocks[n - 1].1,
        )
    }
}

/// The hash that the `i`-th of the operations sealed in sequence links to:
/// the latest hash of the chain they began with for the first, the hash of
/// the record sealed just before for every other.
pub open spec fn predecessor_hash(
    chain: Map<u64, Seq<char>>,
    operations: Seq<Standing>,
    i: int,
) -> Seq<char> {
    if i == 0 {
        latest_hash(chain)
    } else {
        operations[i - 1]->Sealed_record.event_hash
    }
}

/// The `i`-th operation has sealed the `i`-th event at the `i`-th sequence
/// number after `base`, linked to its predecessor.
pub open spec fn sealed_in_place(
    chain: Map<u64, Seq<char>>,
    base: u64,
    events: Seq<CertifiedEventView>,
    operations: Seq<Standing>,
    i: int,
) -> bool {
    let standing = operations[i];
    &&& standing is Sealed
    &&& standing->Sealed_record.sequence_number == base + i + 1
    &&& standing->Sealed_record.event_id == events[i].event_id
    &&& standing->Sealed_record.payload == events[i].payload
    &&& standing->Sealed_record.previous_hash == predecessor_hash(chain, operations, i)
}

/// The operation that a turn moves.
pub open spec fn worker_of(turn: Turn) -> int {
    match turn {
        Turn::Serve { worker } => worker,
        Turn::Advance { worker, now_ms, elapsed_ms } => worker,
    }
}

/// The operations `a` and `b` run on one ledger.
pub open spec fn same_ledger(ledger_of: Seq<int>, a: int, b: int) -> bool {
    &&& 0 <= a < ledger_of.len()
    &&& 0 <= b < ledger_of.len()
    &&& ledger_of[a] == ledger_of[b]
}

/// The operations of each ledger are kept apart: between two turns of one
/// operation, no other operation of its ledger takes a turn. Operations of
/// different ledgers interleave as they like.
pub open spec fn kept_apart(ledger_of: Seq<int>, schedule: Seq<Turn>) -> bool {
    forall|p: int, q: int, r: int|
        0 <= p < q < r < schedule.len() && worker_of(#[trigger] schedule[p]) == worker_of(
            #[trigger] schedule[r],
        ) && same_ledger(ledger_of, worker_of(#[trigger] schedule[q]), worker_of(schedule[p]))
            ==> worker_of(schedule[q]) == worker_of(schedule[p])
}

/// What `chain` holds below the sequence number `n`.
pub open spec fn earlier(chain: Map<u64, Seq<char>>, n: u64) -> Map<u64, Seq<char>> {
    chain.restrict(Set::new(|k: u64| k < n))
}

} // verus!
