//! What holds of seal operations that share one store, on one ledger or on
//! several, whatever the order of their moments: sequence numbers are unique
//! and without a gap, sealed records are found again, the counter counts
//! what was sealed, and a corrupt counter is left alone. What one ledger
//! seals in sequence is linked, also after a restart.

use crate::counter::{
    counter_bytes, counter_key_text, decimal_text, lemma_counter_round_trip, record_key_text,
    stored_sequence,
};
use crate::crypto::{is_gapless, latest_hash, lemma_latest_hash_after_record};
use crate::ledger::{
    event_lookup, lemma_restored_latest, restored_chain, seal_transition, sealed_record,
    sequence_reading, CertifiedEventView, LedgerErrorView, SealOperationView, LATENCY_BUDGET_MS,
};
use crate::model::{
    as_stored, earlier, held, in_sequence, kept_apart, number_of, numbered, predecessor_hash,
    received, same_ledger, sealed_in_place, standing_after, uninterrupted, worker_of, Deployment,
    Standing, StoreModel, Turn,
};
use crate::sealing::SealedEvent;
use crate::store::{StoreReplyView, StoreRequestView};
use vstd::prelude::*;

verus! {

/// What holds of one operation in a deployment whose counter showed `base`
/// when it began: its request or reply is the one its progress calls for,
/// the sequence number it holds is one that the counter has reached since,
/// the store holds its record once the record was written, and the chain its
/// hash once it is sealed. Where the counter was `readable` when the
/// deployment began and has room for every operation, it has not failed.
spec fn standing_sound(
    d: Deployment,
    base: u64,
    readable: bool,
    worker: int,
    standing: Standing,
) -> bool {
    let last = d.store.last_sequence();
    match standing {
        Standing::Asking { operation, request } => match operation {
            SealOperationView::Received { event } => request == (StoreRequestView::ReadCounter {
                key: counter_key_text(),
            }),
            SealOperationView::Reserving { event, observed, candidate } => {
                &&& request == (StoreRequestView::SwapCounter {
                    key: counter_key_text(),
                    expected: observed,
                    replacement: counter_bytes(candidate),
                })
                &&& stored_sequence(observed) is Some
                &&& candidate == stored_sequence(observed)->0 + 1
            },
            SealOperationView::Hashed { record } => {
                &&& request == (StoreRequestView::PutRecord {
                    key: record_key_text(record.sequence_number),
                    record,
                })
                &&& base < record.sequence_number <= last
                &&& record.commit_latency_ms == 0
            },
        },
        Standing::Answered { operation, reply } => match operation {
            SealOperationView::Received { event } => {
                &&& reply is Counter
                &&& stored_sequence(reply->Counter_0) matches Some(n) ==> n <= last
                &&& readable ==> stored_sequence(reply->Counter_0) is Some
            },
            SealOperationView::Reserving { event, observed, candidate } => {
                &&& reply is Swapped
                &&& reply->Swapped_0 ==> base < candidate <= last
            },
            SealOperationView::Hashed { record } => {
                &&& reply is Stored
                &&& base < record.sequence_number <= last
                &&& record.commit_latency_ms == 0
                &&& d.store.record_at(record_key_text(record.sequence_number)) == Some(record)
            },
        },
        Standing::Sealed { record, over_budget } => {
            &&& base < record.sequence_number <= last
            &&& d.store.record_at(record_key_text(record.sequence_number)) == Some(
                as_stored(record),
            )
            &&& d.has_ledger(worker) ==> d.chain_of(worker).contains_key(record.sequence_number)
                && d.chain_of(worker)[record.sequence_number] == record.event_hash
        },
        Standing::Aborted { error } => !(readable && base + d.operations.len() < u64::MAX),
    }
}

/// What holds of every deployment whose counter showed `base` when it
/// began.
spec fn sound(d: Deployment, base: u64, readable: bool) -> bool {
    let last = d.store.last_sequence();
    &&& base <= last
    &&& numbered(d.operations) == last - base
    &&& readable ==> d.store.counter_readable()
    &&& base < last ==> d.store.value_at(counter_key_text()) == Some(counter_bytes(last))
    &&& forall|i: int|
        0 <= i < d.operations.len() ==> standing_sound(
            d,
            base,
            readable,
            i,
            #[trigger] d.operations[i],
        )
    &&& forall|i: int, j: int|
        0 <= i < j < d.operations.len() && number_of(#[trigger] d.operations[i]) is Some
            ==> number_of(d.operations[i]) != number_of(#[trigger] d.operations[j])
    &&& forall|s: u64| base < s <= last ==> #[trigger] held(d.operations, s)
}

/// No more operations hold a sequence number than there are operations.
proof fn lemma_numbered_bound(operations: Seq<Standing>)
    ensures
        numbered(operations) <= operations.len(),
    decreases operations.len(),
{
    if operations.len() > 0 {
        lemma_numbered_bound(operations.drop_last());
    }
}

/// Replacing one operation changes the count by what that operation adds
/// to it.
proof fn lemma_numbered_update(operations: Seq<Standing>, i: int, standing: Standing)
    requires
        0 <= i < operations.len(),
    ensures
        numbered(operations.update(i, standing)) + (if number_of(operations[i]) is Some {
            1nat
        } else {
            0nat
        }) == numbered(operations) + (if number_of(standing) is Some {
            1nat
        } else {
            0nat
        }),
    decreases operations.len(),
{
    let updated = operations.update(i, standing);
    if i == operations.len() - 1 {
        assert(updated.drop_last() =~= operations.drop_last());
    } else {
        lemma_numbered_update(operations.drop_last(), i, standing);
        assert(updated.drop_last() =~= operations.drop_last().update(i, standing));
    }
}

/// Where no operation holds a sequence number, the count is zero.
proof fn lemma_numbered_none(operations: Seq<Standing>)
    requires
        forall|i: int| 0 <= i < operations.len() ==> number_of(#[trigger] operations[i]) is None,
    ensures
        numbered(operations) == 0,
    decreases operations.len(),
{
    if operations.len() > 0 {
        lemma_numbered_none(operations.drop_last());
    }
}

/// Where every operation holds a sequence number, the count is their
/// number.
proof fn lemma_numbered_all(operations: Seq<Standing>)
    requires
        forall|i: int| 0 <= i < operations.len() ==> number_of(#[trigger] operations[i]) is Some,
    ensures
        numbered(operations) == operations.len(),
    decreases operations.len(),
{
    if operations.len() > 0 {
        lemma_numbered_all(operations.drop_last());
    }
}

/// Different sequence numbers have different record keys.
pub proof fn lemma_record_key_injective(a: u64, b: u64)
    requires
        record_key_text(a) == record_key_text(b),
    ensures
        a == b,
{
    let prefix = "ledger/events/"@;
    let ka = record_key_text(a);
    let kb = record_key_text(b);
    assert(decimal_text(a as nat) =~= ka.subrange(prefix.len() as int, ka.len() as int));
    assert(decimal_text(b as nat) =~= kb.subrange(prefix.len() as int, kb.len() as int));
    lemma_counter_round_trip(a);
    lemma_counter_round_trip(b);
}

/// A deployment is sound when it begins.
proof fn lemma_begin_sound(
    store: StoreModel,
    chains: Seq<Map<u64, Seq<char>>>,
    ledger_of: Seq<int>,
    events: Seq<CertifiedEventView>,
)
    ensures
        sound(
            Deployment::begin(store, chains, ledger_of, events),
            store.last_sequence(),
            store.counter_readable(),
        ),
{
    let d = Deployment::begin(store, chains, ledger_of, events);
    lemma_numbered_none(d.operations);
}

/// What the other operations need of a turn for their soundness to last:
/// the counter has not gone back, the ledgers are the same, and the store
/// and the chains still hold what they held for every sequence number but
/// `moved`.
spec fn keeps_others(d: Deployment, after: Deployment, moved: Option<u64>) -> bool {
    &&& d.store.last_sequence() <= after.store.last_sequence()
    &&& after.ledger_of == d.ledger_of
    &&& after.chains.len() == d.chains.len()
    &&& forall|s: u64|
        Some(s) != moved ==> #[trigger] after.store.record_at(record_key_text(s))
            == d.store.record_at(record_key_text(s))
    &&& forall|l: int, s: u64|
        0 <= l < d.chains.len() && Some(s) != moved && #[trigger] d.chains[l].contains_key(s)
            ==> after.chains[l].contains_key(s) && after.chains[l][s] == d.chains[l][s]
}

/// An operation that did not move stays sound through a turn that keeps
/// what it relies on.
proof fn lemma_bystander_sound(
    d: Deployment,
    after: Deployment,
    base: u64,
    readable: bool,
    moved: Option<u64>,
    worker: int,
    standing: Standing,
)
    requires
        standing_sound(d, base, readable, worker, standing),
        keeps_others(d, after, moved),
        after.operations.len() == d.operations.len(),
        number_of(standing) is Some ==> number_of(standing) != moved,
    ensures
        standing_sound(after, base, readable, worker, standing),
{
    match standing {
        Standing::Sealed { record, over_budget } => {
            let s = record.sequence_number;
            assert(after.store.record_at(record_key_text(s)) == d.store.record_at(
                record_key_text(s),
            ));
            if d.has_ledger(worker) {
                assert(d.chains[d.ledger_of[worker]].contains_key(s));
            }
        },
        Standing::Answered { operation: SealOperationView::Hashed { record }, reply } => {
            let s = record.sequence_number;
            assert(after.store.record_at(record_key_text(s)) == d.store.record_at(
                record_key_text(s),
            ));
        },
        _ => {},
    }
}

/// A sequence number that a sound operation holds is one that the counter
/// has reached since the deployment began.
proof fn lemma_numbered_sound(
    d: Deployment,
    base: u64,
    readable: bool,
    worker: int,
    standing: Standing,
)
    requires
        standing_sound(d, base, readable, worker, standing),
    ensures
        number_of(standing) matches Some(s) ==> base < s <= d.store.last_sequence(),
{
}

/// A turn in which one operation moved soundly, and which kept what the
/// others rely on, keeps the deployment sound.
proof fn lemma_moved_sound(
    d: Deployment,
    after: Deployment,
    base: u64,
    readable: bool,
    w: int,
    standing: Standing,
)
    requires
        sound(d, base, readable),
        0 <= w < d.operations.len(),
        after.operations == d.operations.update(w, standing),
        readable ==> after.store.counter_readable(),
        base < after.store.last_sequence() ==> after.store.value_at(counter_key_text()) == Some(
            counter_bytes(after.store.last_sequence()),
        ),
        standing_sound(after, base, readable, w, standing),
        keeps_others(d, after, number_of(standing)),
        number_of(d.operations[w]) is Some ==> number_of(d.operations[w]) == number_of(standing),
        number_of(d.operations[w]) is None && number_of(standing) is Some ==> {
            &&& number_of(standing) == Some((d.store.last_sequence() + 1) as u64)
            &&& after.store.last_sequence() == d.store.last_sequence() + 1
        },
        number_of(d.operations[w]) is Some || number_of(standing) is None
            ==> after.store.last_sequence() == d.store.last_sequence(),
    ensures
        sound(after, base, readable),
{
    let last = d.store.last_sequence();
    let moved = number_of(standing);
    lemma_numbered_update(d.operations, w, standing);
    assert(standing_sound(d, base, readable, w, d.operations[w]));
    assert forall|i: int| 0 <= i < after.operations.len() implies standing_sound(
        after,
        base,
        readable,
        i,
        #[trigger] after.operations[i],
    ) by {
        if i != w {
            assert(after.operations[i] == d.operations[i]);
            assert(standing_sound(d, base, readable, i, d.operations[i]));
            if i < w {
                assert(number_of(d.operations[i]) is Some ==> number_of(d.operations[i])
                    != number_of(d.operations[w]));
            } else {
                assert(number_of(d.operations[w]) is Some ==> number_of(d.operations[w])
                    != number_of(d.operations[i]));
            }
            lemma_numbered_sound(d, base, readable, i, d.operations[i]);
            lemma_bystander_sound(d, after, base, readable, moved, i, d.operations[i]);
        }
    }
    assert forall|i: int, j: int|
        0 <= i < j < after.operations.len() && number_of(
            #[trigger] after.operations[i],
        ) is Some implies number_of(after.operations[i]) != number_of(
        #[trigger] after.operations[j],
    ) by {
        assert(standing_sound(d, base, readable, i, d.operations[i]));
        assert(standing_sound(d, base, readable, j, d.operations[j]));
        lemma_numbered_sound(d, base, readable, i, d.operations[i]);
        lemma_numbered_sound(d, base, readable, j, d.operations[j]);
        if i != w && j != w {
            assert(number_of(d.operations[i]) is Some);
        }
    }
    assert forall|s: u64| base < s <= after.store.last_sequence() implies #[trigger] held(
        after.operations,
        s,
    ) by {
        if s <= last {
            assert(held(d.operations, s));
            let i = choose|i: int|
                0 <= i < d.operations.len() && number_of(#[trigger] d.operations[i]) == Some(s);
            assert(number_of(after.operations[i]) == Some(s));
        } else {
            assert(number_of(after.operations[w]) == Some(s));
        }
    }
}

/// One turn keeps a sound deployment sound.
proof fn lemma_take_sound(d: Deployment, base: u64, readable: bool, turn: Turn)
    requires
        sound(d, base, readable),
    ensures
        sound(d.take(turn), base, readable),
        d.take(turn).operations.len() == d.operations.len(),
{
    let after = d.take(turn);
    let last = d.store.last_sequence();
    lemma_numbered_bound(d.operations);
    match turn {
        Turn::Serve { worker } => {
            if 0 <= worker < d.operations.len() && d.operations[worker] is Asking {
                let operation = d.operations[worker]->Asking_operation;
                let request = d.operations[worker]->Asking_request;
                let (store, reply) = d.store.serve(request);
                let standing = Standing::Answered { operation, reply };
                assert(after.store == store && after.chains == d.chains);
                assert(after.operations == d.operations.update(worker, standing));
                assert(standing_sound(d, base, readable, worker, d.operations[worker]));
                match operation {
                    SealOperationView::Received { event } => {
                        assert(store == d.store);
                    },
                    SealOperationView::Reserving { event, observed, candidate } => {
                        if d.store.value_at(counter_key_text()) == observed {
                            lemma_counter_round_trip(candidate);
                            assert(store.value_at(counter_key_text()) == Some(
                                counter_bytes(candidate),
                            ));
                            assert(after.store.last_sequence() == candidate);
                            assert(store.records == d.store.records);
                        } else {
                            assert(store == d.store);
                        }
                    },
                    SealOperationView::Hashed { record } => {
                        let s = record.sequence_number;
                        assert(store.values == d.store.values);
                        assert forall|t: u64| Some(t) != Some(s) implies #[trigger] store.record_at(
                            record_key_text(t),
                        ) == d.store.record_at(record_key_text(t)) by {
                            if record_key_text(t) == record_key_text(s) {
                                lemma_record_key_injective(t, s);
                            }
                        }
                    },
                }
                lemma_moved_sound(d, after, base, readable, worker, standing);
            }
        },
        Turn::Advance { worker, now_ms, elapsed_ms } => {
            if 0 <= worker < d.operations.len() && d.operations[worker] is Answered {
                let operation = d.operations[worker]->Answered_operation;
                let reply = d.operations[worker]->Answered_reply;
                let (chain, step) = seal_transition(
                    d.chain_of(worker),
                    operation,
                    reply,
                    now_ms,
                    elapsed_ms,
                );
                let standing = standing_after(step);
                assert(after.store == d.store);
                assert(after.operations == d.operations.update(worker, standing));
                assert(standing_sound(d, base, readable, worker, d.operations[worker]));
                lemma_moved_sound(d, after, base, readable, worker, standing);
            }
        },
    }
}

/// Every deployment is sound, whatever the store, the chains and the
/// ledgers it began with and whatever the schedule.
proof fn lemma_run_sound(
    store: StoreModel,
    chains: Seq<Map<u64, Seq<char>>>,
    ledger_of: Seq<int>,
    events: Seq<CertifiedEventView>,
    schedule: Seq<Turn>,
)
    ensures
        sound(
            Deployment::begin(store, chains, ledger_of, events).run(schedule),
            store.last_sequence(),
            store.counter_readable(),
        ),
        Deployment::begin(store, chains, ledger_of, events).run(schedule).operations.len() == events.len(),
    decreases schedule.len(),
{
    if schedule.len() == 0 {
        lemma_begin_sound(store, chains, ledger_of, events);
    } else {
        lemma_run_sound(store, chains, ledger_of, events, schedule.drop_last());
        lemma_take_sound(
            Deployment::begin(store, chains, ledger_of, events).run(schedule.drop_last()),
            store.last_sequence(),
            store.counter_readable(),
            schedule.last(),
        );
    }
}

/// Sequence numbers are unique under concurrency. Let the seal operations
/// on `events` begin on any store, whose counter shows `base`, on one
/// ledger or spread over several. However their moments interleave, and
/// however many they are, no two operations
/// hold the same sequence number, every number held lies above `base` and
/// not above what the counter shows, every such number is held by some
/// operation, and the counter has moved on by as many as there are
/// operations that hold one. Once it has moved, the counter key holds the
/// decimal text of the last number. So once each of the `N` operations holds
/// a number, these are the numbers from `base + 1` to `base + N`, each held
/// once: from 1 to `N` on a fresh counter.
pub proof fn lemma_sequence_numbers_unique(
    store: StoreModel,
    chains: Seq<Map<u64, Seq<char>>>,
    ledger_of: Seq<int>,
    events: Seq<CertifiedEventView>,
    schedule: Seq<Turn>,
)
    ensures
        ({
            let d = Deployment::begin(store, chains, ledger_of, events).run(schedule);
            let base = store.last_sequence();
            let last = d.store.last_sequence();
            &&& d.operations.len() == events.len()
            &&& forall|i: int, j: int|
                0 <= i < d.operations.len() && 0 <= j < d.operations.len() && i != j && number_of(
                    #[trigger] d.operations[i],
                ) is Some ==> number_of(d.operations[i]) != number_of(#[trigger] d.operations[j])
            &&& forall|i: int|
                0 <= i < d.operations.len() ==> (number_of(#[trigger] d.operations[i]) matches Some(
                    s,
                ) ==> base < s <= last)
            &&& forall|s: u64| base < s <= last ==> #[trigger] held(d.operations, s)
            &&& last == base + numbered(d.operations)
            &&& base < last ==> d.store.value_at(counter_key_text()) == Some(counter_bytes(last))
            &&& (forall|i: int|
                0 <= i < d.operations.len() ==> number_of(#[trigger] d.operations[i]) is Some)
                ==> last == base + events.len()
        }),
{
    lemma_run_sound(store, chains, ledger_of, events, schedule);
    let d = Deployment::begin(store, chains, ledger_of, events).run(schedule);
    let base = store.last_sequence();
    let readable = store.counter_readable();
    let last = d.store.last_sequence();
    assert forall|i: int, j: int|
        0 <= i < d.operations.len() && 0 <= j < d.operations.len() && i != j && number_of(
            #[trigger] d.operations[i],
        ) is Some implies number_of(d.operations[i]) != number_of(
        #[trigger] d.operations[j],
    ) by {
        if j < i && number_of(d.operations[j]) is Some {
            assert(number_of(d.operations[j]) != number_of(d.operations[i]));
        }
    }
    assert forall|i: int| 0 <= i < d.operations.len() implies (number_of(
        #[trigger] d.operations[i],
    ) matches Some(s) ==> base < s <= last) by {
        assert(standing_sound(d, base, readable, i, d.operations[i]));
        lemma_numbered_sound(d, base, readable, i, d.operations[i]);
    }
    if forall|i: int| 0 <= i < d.operations.len() ==> number_of(#[trigger] d.operations[i]) is Some {
        lemma_numbered_all(d.operations);
    }
}

/// No seal operation fails for a reason of its own. Where the counter can
/// be read when the operations begin and has room for all of them, with a
/// store that answers every request, whatever the schedule, none is given
/// up.
pub proof fn lemma_never_aborted(
    store: StoreModel,
    chains: Seq<Map<u64, Seq<char>>>,
    ledger_of: Seq<int>,
    events: Seq<CertifiedEventView>,
    schedule: Seq<Turn>,
    i: int,
)
    requires
        store.counter_readable(),
        store.last_sequence() + events.len() < u64::MAX,
        0 <= i < events.len(),
    ensures
        !(Deployment::begin(store, chains, ledger_of, events).run(schedule).operations[i] is Aborted),
{
    lemma_run_sound(store, chains, ledger_of, events, schedule);
    let d = Deployment::begin(store, chains, ledger_of, events).run(schedule);
    assert(standing_sound(d, store.last_sequence(), store.counter_readable(), i, d.operations[i]));
}

/// A corrupt counter is left as it is. Where the counter key holds a value
/// that denotes no number when the operations begin, whatever the schedule,
/// no operation is assigned a sequence number and the store holds what it
/// held.
pub proof fn lemma_corrupt_counter_untouched(
    store: StoreModel,
    chains: Seq<Map<u64, Seq<char>>>,
    ledger_of: Seq<int>,
    events: Seq<CertifiedEventView>,
    schedule: Seq<Turn>,
)
    requires
        !store.counter_readable(),
    ensures
        ({
            let d = Deployment::begin(store, chains, ledger_of, events).run(schedule);
            &&& d.store == store
            &&& d.chains == chains
            &&& forall|i: int|
                0 <= i < events.len() ==> number_of(#[trigger] d.operations[i]) is None
        }),
{
    lemma_corrupt_standings(store, chains, ledger_of, events, schedule);
    let d = Deployment::begin(store, chains, ledger_of, events).run(schedule);
    assert forall|i: int| 0 <= i < events.len() implies number_of(
        #[trigger] d.operations[i],
    ) is None by {
        assert(corrupt_standing(store, d.operations[i]));
    }
}

/// On a corrupt counter every operation waits for the counter, has read
/// it, or was given up, and the store and the chain stay as they were.
proof fn lemma_corrupt_standings(
    store: StoreModel,
    chains: Seq<Map<u64, Seq<char>>>,
    ledger_of: Seq<int>,
    events: Seq<CertifiedEventView>,
    schedule: Seq<Turn>,
)
    requires
        !store.counter_readable(),
    ensures
        ({
            let d = Deployment::begin(store, chains, ledger_of, events).run(schedule);
            &&& d.store == store
            &&& d.chains == chains
            &&& d.operations.len() == events.len()
            &&& forall|i: int| 0 <= i < events.len() ==> corrupt_standing(store, #[trigger] d.operations[i])
        }),
    decreases schedule.len(),
{
    let start = Deployment::begin(store, chains, ledger_of, events);
    if schedule.len() > 0 {
        lemma_corrupt_standings(store, chains, ledger_of, events, schedule.drop_last());
        let d = start.run(schedule.drop_last());
        let after = d.take(schedule.last());
        assert forall|i: int| 0 <= i < events.len() implies corrupt_standing(
            store,
            #[trigger] after.operations[i],
        ) by {
            assert(corrupt_standing(store, d.operations[i]));
        }
    }
}

/// Where an operation can stand on a corrupt counter.
spec fn corrupt_standing(store: StoreModel, standing: Standing) -> bool {
    match standing {
        Standing::Asking { operation, request } => operation is Received && request == (
        StoreRequestView::ReadCounter { key: counter_key_text() }),
        Standing::Answered { operation, reply } => operation is Received && reply
            == StoreReplyView::Counter(store.value_at(counter_key_text())),
        Standing::Sealed { record, over_budget } => false,
        Standing::Aborted { error } => true,
    }
}

/// A sealed record is found again. Once an operation has sealed its event,
/// whatever the other operations do before or after, asking the store for
/// the record's sequence number yields the record that was handed back,
/// every field of it but the latency, which is measured after the record is
/// written and stands at zero in the store. The chain of the operation's
/// ledger holds the record's hash at its sequence number.
pub proof fn lemma_sealed_record_found(
    store: StoreModel,
    chains: Seq<Map<u64, Seq<char>>>,
    ledger_of: Seq<int>,
    events: Seq<CertifiedEventView>,
    schedule: Seq<Turn>,
    i: int,
)
    requires
        0 <= i < events.len(),
        Deployment::begin(store, chains, ledger_of, events).run(schedule).operations[i] is Sealed,
    ensures
        ({
            let d = Deployment::begin(store, chains, ledger_of, events).run(schedule);
            let record = d.operations[i]->Sealed_record;
            let request = StoreRequestView::GetRecord {
                key: record_key_text(record.sequence_number),
            };
            &&& event_lookup(record.sequence_number, d.store.serve(request).1) == Ok::<
                Option<SealedEvent>,
                LedgerErrorView,
            >(Some(as_stored(record)))
            &&& d.store.serve(request).0 == d.store
            &&& d.has_ledger(i) ==> d.chain_of(i).contains_key(record.sequence_number)
                && d.chain_of(i)[record.sequence_number] == record.event_hash
        }),
{
    lemma_run_sound(store, chains, ledger_of, events, schedule);
    let d = Deployment::begin(store, chains, ledger_of, events).run(schedule);
    assert(standing_sound(d, store.last_sequence(), store.counter_readable(), i, d.operations[i]));
}

/// The counter reflects what was sealed. Let `K` operations begin on a
/// store whose counter can be read. Once each of them has sealed its event,
/// whatever the schedule was, reading the last assigned sequence number
/// yields `K` more than it did before, `K` where the store was fresh, and
/// the reading changes nothing in the store.
pub proof fn lemma_counter_counts_sealed(
    store: StoreModel,
    chains: Seq<Map<u64, Seq<char>>>,
    ledger_of: Seq<int>,
    events: Seq<CertifiedEventView>,
    schedule: Seq<Turn>,
)
    requires
        store.counter_readable(),
        forall|i: int|
            0 <= i < events.len() ==> #[trigger] Deployment::begin(store, chains, ledger_of, events).run(
                schedule,
            ).operations[i] is Sealed,
    ensures
        ({
            let d = Deployment::begin(store, chains, ledger_of, events).run(schedule);
            let request = StoreRequestView::ReadCounter { key: counter_key_text() };
            &&& store.last_sequence() + events.len() <= u64::MAX
            &&& sequence_reading(d.store.serve(request).1) == Ok::<u64, LedgerErrorView>(
                (store.last_sequence() + events.len()) as u64,
            )
            &&& d.store.serve(request).0 == d.store
        }),
{
    lemma_run_sound(store, chains, ledger_of, events, schedule);
    let d = Deployment::begin(store, chains, ledger_of, events).run(schedule);
    assert forall|i: int| 0 <= i < d.operations.len() implies number_of(
        #[trigger] d.operations[i],
    ) is Some by {
        assert(d.operations[i] is Sealed);
    }
    lemma_numbered_all(d.operations);
}

/// On a fresh counter, `N` concurrent seal operations that have all been
/// assigned a sequence number hold the numbers from 1 to `N`: each of these
/// numbers is held by one operation, and by one only. The counter key then
/// holds the decimal text of `N`.
pub proof fn lemma_fresh_numbers_are_one_to_n(events: Seq<CertifiedEventView>, schedule: Seq<Turn>)
    requires
        forall|i: int|
            0 <= i < events.len() ==> number_of(
                #[trigger] Deployment::fresh(events).run(schedule).operations[i],
            ) is Some,
    ensures
        ({
            let d = Deployment::fresh(events).run(schedule);
            &&& d.operations.len() == events.len()
            &&& events.len() <= u64::MAX
            &&& forall|i: int|
                0 <= i < events.len() ==> 1 <= (number_of(#[trigger] d.operations[i])->0)
                    <= events.len()
            &&& forall|i: int, j: int|
                0 <= i < events.len() && 0 <= j < events.len() && i != j ==> number_of(
                    #[trigger] d.operations[i],
                ) != number_of(#[trigger] d.operations[j])
            &&& forall|s: u64| 1 <= s <= events.len() ==> #[trigger] held(d.operations, s)
            &&& events.len() >= 1 ==> d.store.value_at(counter_key_text()) == Some(
                counter_bytes(events.len() as u64),
            )
        }),
{
    assert(StoreModel::fresh().value_at(counter_key_text()) is None);
    lemma_sequence_numbers_unique(
        StoreModel::fresh(),
        seq![Map::empty()],
        Seq::new(events.len(), |i: int| 0int),
        events,
        schedule,
    );
}

/// On a fresh store, once each of `K` seal operations has sealed its event,
/// reading the last assigned sequence number yields `K`, and changes
/// nothing in the store.
pub proof fn lemma_fresh_counter_counts_sealed(
    events: Seq<CertifiedEventView>,
    schedule: Seq<Turn>,
)
    requires
        forall|i: int|
            0 <= i < events.len() ==> #[trigger] Deployment::fresh(events).run(
                schedule,
            ).operations[i] is Sealed,
    ensures
        ({
            let d = Deployment::fresh(events).run(schedule);
            let request = StoreRequestView::ReadCounter { key: counter_key_text() };
            &&& sequence_reading(d.store.serve(request).1) == Ok::<u64, LedgerErrorView>(
                events.len() as u64,
            )
            &&& d.store.serve(request).0 == d.store
        }),
{
    assert(StoreModel::fresh().value_at(counter_key_text()) is None);
    lemma_counter_counts_sealed(
        StoreModel::fresh(),
        seq![Map::empty()],
        Seq::new(events.len(), |i: int| 0int),
        events,
        schedule,
    );
}

/// Running one schedule after another is running the two as one.
pub proof fn lemma_run_append(d: Deployment, first: Seq<Turn>, second: Seq<Turn>)
    ensures
        d.run(first + second) == d.run(first).run(second),
    decreases second.len(),
{
    if second.len() == 0 {
        assert(first + second =~= first);
    } else {
        lemma_run_append(d, first, second.drop_last());
        assert((first + second).drop_last() =~= first + second.drop_last());
        assert((first + second).last() == second.last());
    }
}

/// Running six turns is taking them one by one.
proof fn lemma_run_six(d: Deployment, turns: Seq<Turn>)
    requires
        turns.len() == 6,
    ensures
        d.run(turns) == d.take(turns[0]).take(turns[1]).take(turns[2]).take(turns[3]).take(
            turns[4],
        ).take(turns[5]),
{
    let t5 = turns.drop_last();
    let t4 = t5.drop_last();
    let t3 = t4.drop_last();
    let t2 = t3.drop_last();
    let t1 = t2.drop_last();
    let t0 = t1.drop_last();
    assert(d.run(t0) == d);
    assert(d.run(t1) == d.run(t0).take(t1.last()));
    assert(d.run(t2) == d.run(t1).take(t2.last()));
    assert(d.run(t3) == d.run(t2).take(t3.last()));
    assert(d.run(t4) == d.run(t3).take(t4.last()));
    assert(d.run(t5) == d.run(t4).take(t5.last()));
    assert(d.run(turns) == d.run(t5).take(turns.last()));
}

/// What one seal operation does when nothing comes between its moments.
/// From a store whose counter shows `last`, the operation is assigned
/// `last + 1`, links its record to the latest hash of its ledger's chain,
/// leaves the record in the store under the key of its sequence number and
/// the new number under the counter key, and enters its hash into that
/// chain. The chains of the other ledgers stay as they are.
pub proof fn lemma_seal_uninterrupted(
    d: Deployment,
    worker: int,
    event: CertifiedEventView,
    now_ms: i64,
    elapsed_ms: i64,
)
    requires
        0 <= worker < d.operations.len(),
        d.has_ledger(worker),
        d.operations[worker] == received(event),
        d.store.counter_readable(),
        d.store.last_sequence() < u64::MAX,
    ensures
        ({
            let after = d.run(uninterrupted(worker, now_ms, elapsed_ms));
            let number = (d.store.last_sequence() + 1) as u64;
            let stored = sealed_record(number, event, latest_hash(d.chain_of(worker)), now_ms);
            let handed_back = SealedEvent { commit_latency_ms: elapsed_ms, ..stored };
            &&& after.operations == d.operations.update(
                worker,
                Standing::Sealed {
                    record: handed_back,
                    over_budget: elapsed_ms > LATENCY_BUDGET_MS,
                },
            )
            &&& after.store.values == d.store.values.insert(
                counter_key_text(),
                counter_bytes(number),
            )
            &&& after.store.last_sequence() == number
            &&& after.store.records == d.store.records.insert(record_key_text(number), stored)
            &&& after.chains == d.chains.update(
                d.ledger_of[worker],
                d.chain_of(worker).insert(number, stored.event_hash),
            )
            &&& after.ledger_of == d.ledger_of
            &&& as_stored(handed_back) == stored
        }),
{
    let number = (d.store.last_sequence() + 1) as u64;
    lemma_counter_round_trip(number);
    let turns = uninterrupted(worker, now_ms, elapsed_ms);
    lemma_run_six(d, turns);
    let d1 = d.take(turns[0]);
    assert(d1.store == d.store && d1.chains == d.chains);
    let d2 = d1.take(turns[1]);
    assert(d2.store == d.store && d2.chains =~= d.chains);
    let d3 = d2.take(turns[2]);
    assert(d3.chains == d.chains && d3.store.records == d.store.records);
    assert(d3.store.values == d.store.values.insert(counter_key_text(), counter_bytes(number)));
    let d4 = d3.take(turns[3]);
    assert(d4.store == d3.store && d4.chains =~= d.chains);
    let d5 = d4.take(turns[4]);
    assert(d5.chains == d.chains && d5.store.values == d3.store.values);
    let d6 = d5.take(turns[5]);
    assert(d6.store == d5.store);
    assert(d6.operations =~= d.operations.update(
        worker,
        Standing::Sealed {
            record: SealedEvent {
                commit_latency_ms: elapsed_ms,
                ..sealed_record(number, event, latest_hash(d.chain_of(worker)), now_ms)
            },
            over_budget: elapsed_ms > LATENCY_BUDGET_MS,
        },
    ));
}

/// The first `n` events are sealed and linked, the others wait.
spec fn linked_up_to(
    store: StoreModel,
    chain: Map<u64, Seq<char>>,
    events: Seq<CertifiedEventView>,
    d: Deployment,
    n: int,
) -> bool {
    let base = store.last_sequence();
    &&& d.operations.len() == events.len()
    &&& d.chains.len() == 1
    &&& d.ledger_of == Seq::new(events.len(), |i: int| 0int)
    &&& d.store.counter_readable()
    &&& d.store.last_sequence() == base + n
    &&& forall|s: u64|
        #[trigger] d.chain().contains_key(s) <==> chain.contains_key(s) || base < s <= base + n
    &&& latest_hash(d.chain()) == predecessor_hash(chain, d.operations, n)
    &&& forall|i: int| n <= i < events.len() ==> #[trigger] d.operations[i] == received(events[i])
    &&& forall|i: int| 0 <= i < n ==> #[trigger] sealed_in_place(chain, base, events, d.operations, i)
}

/// Sealing in sequence keeps the sealed events linked, one more with each
/// event.
proof fn lemma_linked_up_to(
    store: StoreModel,
    chain: Map<u64, Seq<char>>,
    events: Seq<CertifiedEventView>,
    clocks: Seq<(i64, i64)>,
    n: nat,
)
    requires
        store.counter_readable(),
        store.last_sequence() + events.len() < u64::MAX,
        forall|s: u64| chain.contains_key(s) ==> s <= store.last_sequence(),
        clocks.len() == events.len(),
        n <= events.len(),
    ensures
        linked_up_to(
            store,
            chain,
            events,
            Deployment::single(store, chain, events).run(in_sequence(clocks, n)),
            n as int,
        ),
    decreases n,
{
    let start = Deployment::single(store, chain, events);
    let base = store.last_sequence();
    if n == 0 {
    } else {
        let m = (n - 1) as nat;
        lemma_linked_up_to(store, chain, events, clocks, m);
        let d = start.run(in_sequence(clocks, m));
        let after = start.run(in_sequence(clocks, n));
        lemma_run_append(
            start,
            in_sequence(clocks, m),
            uninterrupted(n - 1, clocks[n - 1].0, clocks[n - 1].1),
        );
        assert(d.operations[m as int] == received(events[m as int]));
        assert(d.has_ledger(m as int) && d.chain_of(m as int) == d.chain());
        lemma_seal_uninterrupted(d, m as int, events[m as int], clocks[n - 1].0, clocks[n - 1].1);
        let number = (base + n) as u64;
        let stored = sealed_record(number, events[m as int], latest_hash(d.chain()), clocks[n - 1].0);
        assert forall|j: u64| d.chain().contains_key(j) implies j <= number by {
            if chain.contains_key(j) {
                assert(j <= base);
            }
        }
        lemma_latest_hash_after_record(d.chain(), number, stored.event_hash);
        assert forall|i: int| 0 <= i < n implies #[trigger] sealed_in_place(
            chain,
            base,
            events,
            after.operations,
            i,
        ) by {
            if i < m {
                assert(sealed_in_place(chain, base, events, d.operations, i));
                assert(after.operations[i] == d.operations[i]);
            }
            if i > 0 {
                assert(after.operations[i - 1] == d.operations[i - 1]);
            }
        }
        assert forall|i: int| n <= i < events.len() implies #[trigger] after.operations[i]
            == received(events[i]) by {
            assert(after.operations[i] == d.operations[i]);
        }
        assert(after.chain() == d.chain().insert(number, stored.event_hash));
        assert forall|s: u64| #[trigger]
            after.chain().contains_key(s) <==> chain.contains_key(s) || base < s <= base + n by {
            if s != number {
                assert(after.chain().contains_key(s) == d.chain().contains_key(s));
                assert(d.chain().contains_key(s) <==> chain.contains_key(s) || base < s <= base + m);
            }
        }
        assert(latest_hash(after.chain()) == predecessor_hash(chain, after.operations, n as int));
        assert(after.store.last_sequence() == base + n);
    }
}

/// The chain links what is sealed in sequence. Let the events be sealed one
/// after the other, on a store whose counter shows `base` and a chain that
/// holds nothing above `base`. Then the `i`-th record carries the `i`-th
/// sequence number after `base` and the `i`-th event, the first links to the
/// latest hash of the chain as it was (for an empty chain the genesis hash),
/// every other links to the hash of the record sealed just before it, and
/// the latest hash of the chain is that of the last record. The chain has
/// gained the sequence numbers from `base + 1` to `base + N`, all of them;
/// where it was empty, or without a gap up to `base`, it is without a gap.
pub proof fn lemma_chain_linkage(
    store: StoreModel,
    chain: Map<u64, Seq<char>>,
    events: Seq<CertifiedEventView>,
    clocks: Seq<(i64, i64)>,
)
    requires
        store.counter_readable(),
        store.last_sequence() + events.len() < u64::MAX,
        forall|s: u64| chain.contains_key(s) ==> s <= store.last_sequence(),
        clocks.len() == events.len(),
    ensures
        ({
            let d = Deployment::single(store, chain, events).run(
                in_sequence(clocks, events.len()),
            );
            let base = store.last_sequence();
            &&& d.operations.len() == events.len()
            &&& forall|i: int|
                0 <= i < events.len() ==> #[trigger] sealed_in_place(
                    chain,
                    base,
                    events,
                    d.operations,
                    i,
                )
            &&& latest_hash(d.chain()) == predecessor_hash(chain, d.operations, events.len() as int)
            &&& forall|s: u64|
                #[trigger] d.chain().contains_key(s) <==> chain.contains_key(s) || base < s <= base
                    + events.len()
            &&& chain.dom().is_empty() || (is_gapless(chain.dom()) && chain.contains_key(base))
                ==> is_gapless(d.chain().dom())
        }),
{
    lemma_linked_up_to(store, chain, events, clocks, events.len());
    let d = Deployment::single(store, chain, events).run(in_sequence(clocks, events.len()));
    let base = store.last_sequence();
    if chain.dom().is_empty() || (is_gapless(chain.dom()) && chain.contains_key(base)) {
        assert forall|a: u64, b: u64, c: u64|
            d.chain().dom().contains(a) && d.chain().dom().contains(c) && a < b && b
                < c implies d.chain().dom().contains(b) by {
            assert(d.chain().contains_key(a) && d.chain().contains_key(c));
            if chain.contains_key(a) && b <= base {
                assert(chain.dom().contains(a) && chain.dom().contains(base));
                assert(chain.dom().contains(b));
            }
            assert(chain.contains_key(b) || base < b <= base + events.len());
        }
    }
}

/// After a restart the chain goes on where it stood. Let the chain be
/// rebuilt from the records that the store holds, of which one carries the
/// greatest sequence number and no other carries that number. Then the next
/// event that is sealed links to the hash of that record, and its sequence
/// number is the one after the counter's.
pub proof fn lemma_restored_seal_links(
    store: StoreModel,
    records: Seq<SealedEvent>,
    m: int,
    event: CertifiedEventView,
    now_ms: i64,
    elapsed_ms: i64,
)
    requires
        0 <= m < records.len(),
        forall|i: int|
            0 <= i < records.len() && i != m ==> (#[trigger] records[i]).sequence_number
                < records[m].sequence_number,
        store.counter_readable(),
        store.last_sequence() < u64::MAX,
    ensures
        ({
            let d = Deployment::single(store, restored_chain(records), seq![event]).run(
                uninterrupted(0, now_ms, elapsed_ms),
            );
            let standing = d.operations[0];
            &&& latest_hash(restored_chain(records)) == records[m].event_hash
            &&& standing is Sealed
            &&& standing->Sealed_record.sequence_number == store.last_sequence() + 1
            &&& standing->Sealed_record.event_id == event.event_id
            &&& standing->Sealed_record.payload == event.payload
            &&& standing->Sealed_record.previous_hash == records[m].event_hash
        }),
{
    lemma_restored_latest(records, m);
    let start = Deployment::single(store, restored_chain(records), seq![event]);
    assert(start.operations[0] == received(event));
    lemma_seal_uninterrupted(start, 0, event, now_ms, elapsed_ms);
}

/// The operation `w` has taken a turn.
spec fn touched(schedule: Seq<Turn>, w: int) -> bool {
    exists|p: int| 0 <= p < schedule.len() && worker_of(#[trigger] schedule[p]) == w
}

/// The operation of the ledger `l` that took a turn last.
spec fn last_on(ledger_of: Seq<int>, schedule: Seq<Turn>, l: int) -> Option<int>
    decreases schedule.len(),
{
    if schedule.len() == 0 {
        None
    } else {
        let w = worker_of(schedule.last());
        if 0 <= w < ledger_of.len() && ledger_of[w] == l {
            Some(w)
        } else {
            last_on(ledger_of, schedule.drop_last(), l)
        }
    }
}

/// The operation that took a turn last on a ledger took a turn, and no
/// operation of that ledger took one after it; where none did, no operation
/// of that ledger has taken a turn.
proof fn lemma_last_on(ledger_of: Seq<int>, schedule: Seq<Turn>, l: int)
    ensures
        last_on(ledger_of, schedule, l) matches Some(c) ==> 0 <= c < ledger_of.len()
            && ledger_of[c] == l && exists|q: int|
            0 <= q < schedule.len() && worker_of(#[trigger] schedule[q]) == c && forall|p: int|
                q < p < schedule.len() ==> !same_ledger(
                    ledger_of,
                    worker_of(#[trigger] schedule[p]),
                    c,
                ),
        last_on(ledger_of, schedule, l) is None ==> forall|p: int|
            0 <= p < schedule.len() ==> !(0 <= worker_of(#[trigger] schedule[p]) < ledger_of.len()
                && ledger_of[worker_of(schedule[p])] == l),
    decreases schedule.len(),
{
    if schedule.len() > 0 {
        let w = worker_of(schedule.last());
        let before = schedule.drop_last();
        if 0 <= w < ledger_of.len() && ledger_of[w] == l {
            let q = schedule.len() - 1;
            assert(worker_of(schedule[q]) == w);
        } else {
            lemma_last_on(ledger_of, before, l);
            if last_on(ledger_of, before, l) is Some {
                let c = last_on(ledger_of, before, l)->0;
                let q = choose|q: int|
                    0 <= q < before.len() && worker_of(#[trigger] before[q]) == c && forall|p: int|
                        q < p < before.len() ==> !same_ledger(
                            ledger_of,
                            worker_of(#[trigger] before[p]),
                            c,
                        );
                assert(schedule[q] == before[q]);
                assert forall|p: int| q < p < schedule.len() implies !same_ledger(
                    ledger_of,
                    worker_of(#[trigger] schedule[p]),
                    c,
                ) by {
                    if p < before.len() {
                        assert(schedule[p] == before[p]);
                    }
                }
            } else {
                assert forall|p: int| 0 <= p < schedule.len() implies !(0 <= worker_of(
                    #[trigger] schedule[p],
                ) < ledger_of.len() && ledger_of[worker_of(schedule[p])] == l) by {
                    if p < before.len() {
                        assert(schedule[p] == before[p]);
                    }
                }
            }
        }
    }
}

/// Where operations are kept apart, the one that takes the next turn is the
/// one that moved last on its ledger, or one that has not moved yet.
proof fn lemma_next_in_turn(ledger_of: Seq<int>, schedule: Seq<Turn>)
    requires
        schedule.len() > 0,
        kept_apart(ledger_of, schedule),
        0 <= worker_of(schedule.last()) < ledger_of.len(),
    ensures
        ({
            let w = worker_of(schedule.last());
            let before = schedule.drop_last();
            last_on(ledger_of, before, ledger_of[w]) == Some(w) || !touched(before, w)
        }),
{
    let w = worker_of(schedule.last());
    let before = schedule.drop_last();
    let l = ledger_of[w];
    lemma_last_on(ledger_of, before, l);
    if touched(before, w) {
        let p = choose|p: int| 0 <= p < before.len() && worker_of(#[trigger] before[p]) == w;
        assert(schedule[p] == before[p]);
        assert(last_on(ledger_of, before, l) is Some);
        let c = last_on(ledger_of, before, l)->0;
        if c != w {
            let q = choose|q: int|
                0 <= q < before.len() && worker_of(#[trigger] before[q]) == c && forall|p: int|
                    q < p < before.len() ==> !same_ledger(
                        ledger_of,
                        worker_of(#[trigger] before[p]),
                        c,
                    );
            assert(schedule[q] == before[q]);
            if q < p {
                assert(same_ledger(ledger_of, worker_of(before[p]), c));
            }
            let r = schedule.len() - 1;
            assert(p < q < r);
            assert(worker_of(schedule[p]) == worker_of(schedule[r]));
            assert(same_ledger(ledger_of, worker_of(schedule[q]), worker_of(schedule[p])));
        }
    }
}

/// A part of a schedule that keeps the operations apart keeps them apart.
proof fn lemma_kept_apart_before(ledger_of: Seq<int>, schedule: Seq<Turn>)
    requires
        schedule.len() > 0,
        kept_apart(ledger_of, schedule),
    ensures
        kept_apart(ledger_of, schedule.drop_last()),
{
    let before = schedule.drop_last();
    assert forall|p: int, q: int, r: int|
        0 <= p < q < r < before.len() && worker_of(#[trigger] before[p]) == worker_of(
            #[trigger] before[r],
        ) && same_ledger(
            ledger_of,
            worker_of(#[trigger] before[q]),
            worker_of(before[p]),
        ) implies worker_of(before[q]) == worker_of(before[p]) by {
        assert(schedule[p] == before[p] && schedule[q] == before[q] && schedule[r] == before[r]);
    }
}

/// What holds of the operation `w` where the operations of its ledger are
/// kept apart: while it has not moved it stands as received; while it is the
/// one that moved last on its ledger and holds a number, the chain of its
/// ledger holds only smaller numbers, and its record, once built, links to
/// the latest hash of that chain; and once it is sealed, its record links to
/// what the chain holds just below its number.
spec fn linked_standing(
    d: Deployment,
    events: Seq<CertifiedEventView>,
    schedule: Seq<Turn>,
    w: int,
) -> bool {
    let chain = d.chain_of(w);
    let standing = d.operations[w];
    let current = last_on(d.ledger_of, schedule, d.ledger_of[w]) == Some(w);
    &&& !touched(schedule, w) ==> standing == received(events[w])
    &&& match standing {
        Standing::Answered {
            operation: SealOperationView::Reserving { event, observed, candidate },
            reply: StoreReplyView::Swapped(true),
        } => current ==> forall|k: u64| chain.contains_key(k) ==> k < candidate,
        Standing::Asking { operation: SealOperationView::Hashed { record }, request } => current
            ==> record.previous_hash == latest_hash(chain) && forall|k: u64|
            chain.contains_key(k) ==> k < record.sequence_number,
        Standing::Answered { operation: SealOperationView::Hashed { record }, reply } => current
            ==> record.previous_hash == latest_hash(chain) && forall|k: u64|
            chain.contains_key(k) ==> k < record.sequence_number,
        Standing::Sealed { record, over_budget } => record.previous_hash == latest_hash(
            earlier(chain, record.sequence_number),
        ),
        _ => true,
    }
}

/// What holds of a deployment whose operations are kept apart.
spec fn linked(
    d: Deployment,
    ledger_of: Seq<int>,
    ledgers: nat,
    events: Seq<CertifiedEventView>,
    schedule: Seq<Turn>,
) -> bool {
    &&& d.ledger_of == ledger_of
    &&& d.chains.len() == ledgers
    &&& d.operations.len() == events.len()
    &&& forall|l: int, k: u64|
        0 <= l < ledgers && #[trigger] d.chains[l].contains_key(k) ==> k
            <= d.store.last_sequence()
    &&& forall|w: int| 0 <= w < events.len() ==> #[trigger] linked_standing(d, events, schedule, w)
}

/// Every turn keeps the links, as long as the operations are kept apart.
proof fn lemma_run_linked(
    store: StoreModel,
    chains: Seq<Map<u64, Seq<char>>>,
    ledger_of: Seq<int>,
    events: Seq<CertifiedEventView>,
    schedule: Seq<Turn>,
)
    requires
        ledger_of.len() == events.len(),
        forall|w: int| 0 <= w < events.len() ==> 0 <= #[trigger] ledger_of[w] < chains.len(),
        forall|l: int, k: u64|
            0 <= l < chains.len() && #[trigger] chains[l].contains_key(k) ==> k
                <= store.last_sequence(),
        kept_apart(ledger_of, schedule),
    ensures
        linked(
            Deployment::begin(store, chains, ledger_of, events).run(schedule),
            ledger_of,
            chains.len(),
            events,
            schedule,
        ),
    decreases schedule.len(),
{
    let start = Deployment::begin(store, chains, ledger_of, events);
    if schedule.len() == 0 {
        assert forall|w: int| 0 <= w < events.len() implies #[trigger] linked_standing(
            start,
            events,
            schedule,
            w,
        ) by {}
    } else {
        let before = schedule.drop_last();
        let turn = schedule.last();
        lemma_kept_apart_before(ledger_of, schedule);
        lemma_run_linked(store, chains, ledger_of, events, before);
        lemma_run_sound(store, chains, ledger_of, events, before);
        lemma_run_sound(store, chains, ledger_of, events, schedule);
        let d = start.run(before);
        let after = start.run(schedule);
        let base = store.last_sequence();
        let readable = store.counter_readable();
        assert(after == d.take(turn));
        lemma_linked_turn(d, after, base, readable, ledger_of, chains.len(), events, schedule);
    }
}

/// One turn keeps the links.
proof fn lemma_linked_turn(
    d: Deployment,
    after: Deployment,
    base: u64,
    readable: bool,
    ledger_of: Seq<int>,
    ledgers: nat,
    events: Seq<CertifiedEventView>,
    schedule: Seq<Turn>,
)
    requires
        schedule.len() > 0,
        kept_apart(ledger_of, schedule),
        ledger_of.len() == events.len(),
        forall|w: int| 0 <= w < events.len() ==> 0 <= #[trigger] ledger_of[w] < ledgers,
        linked(d, ledger_of, ledgers, events, schedule.drop_last()),
        sound(d, base, readable),
        sound(after, base, readable),
        after == d.take(schedule.last()),
    ensures
        linked(after, ledger_of, ledgers, events, schedule),
{
    let before = schedule.drop_last();
    let turn = schedule.last();
    let v = worker_of(turn);
    assert(schedule[schedule.len() - 1] == turn);
    assert forall|w: int| touched(before, w) implies touched(schedule, w) by {
        let p = choose|p: int| 0 <= p < before.len() && worker_of(#[trigger] before[p]) == w;
        assert(schedule[p] == before[p]);
    }
    if 0 <= v < events.len() {
        lemma_next_in_turn(ledger_of, schedule);
        assert(touched(schedule, v));
        assert(linked_standing(d, events, before, v));
        assert(standing_sound(d, base, readable, v, d.operations[v]));
        assert(standing_sound(after, base, readable, v, after.operations[v]));
        let l = ledger_of[v];
        assert(d.has_ledger(v) && d.chain_of(v) == d.chains[l]);
        assert(last_on(ledger_of, schedule, l) == Some(v));
        // The chain of the ledger changes only when its operation is sealed.
        assert(after.chains.len() == ledgers && after.ledger_of == ledger_of);
        assert forall|m: int| 0 <= m < ledgers && m != l implies after.chains[m]
            == d.chains[m] by {}
        assert forall|m: int, k: u64|
            0 <= m < ledgers && #[trigger] after.chains[m].contains_key(k) implies k
            <= after.store.last_sequence() by {
            if m != l {
                assert(d.chains[m].contains_key(k));
            } else if !d.chains[l].contains_key(k) {
                lemma_numbered_sound(after, base, readable, v, after.operations[v]);
            }
        }
        // The operation that moves is the one that moved last on its ledger,
        // unless it has not moved at all.
        let chain = d.chains[l];
        let was_current = last_on(ledger_of, before, l) == Some(v);
        assert(d.operations[v] != received(events[v]) ==> was_current);
        let seals = turn is Advance && d.operations[v] is Answered
            && d.operations[v]->Answered_operation is Hashed && d.operations[v]->Answered_reply
            is Stored;
        if seals {
            let record = d.operations[v]->Answered_operation->Hashed_record;
            assert(d.operations[v] != received(events[v]));
            assert(after.chains[l] == chain.insert(record.sequence_number, record.event_hash));
            assert(forall|k: u64| chain.contains_key(k) ==> k < record.sequence_number);
            assert(record.previous_hash == latest_hash(chain));
            assert(after.operations[v] is Sealed);
            assert(after.operations[v]->Sealed_record.sequence_number == record.sequence_number);
            assert(after.operations[v]->Sealed_record.previous_hash == record.previous_hash);
            assert(earlier(after.chains[l], record.sequence_number) =~= chain);
        } else {
            assert(after.chains[l] == chain) by {
                match turn {
                    Turn::Serve { worker } => {},
                    Turn::Advance { worker, now_ms, elapsed_ms } => {
                        if d.operations[v] is Answered {
                            assert(after.chains =~= d.chains);
                        }
                    },
                }
            }
            assert(after.operations[v] is Sealed ==> after.operations[v] == d.operations[v]);
        }
        assert(linked_standing(after, events, schedule, v)) by {
            assert(after.chain_of(v) == after.chains[l]);
            if !seals {
                match turn {
                    Turn::Serve { worker } => {
                        if d.operations[v] is Asking {
                            let operation = d.operations[v]->Asking_operation;
                            let request = d.operations[v]->Asking_request;
                            if operation is Reserving && d.store.serve(request).1
                                == StoreReplyView::Swapped(true) {
                                assert(stored_sequence(operation->Reserving_observed) == Some(
                                    d.store.last_sequence(),
                                ));
                                assert(forall|k: u64|
                                    chain.contains_key(k) ==> k <= d.store.last_sequence());
                            }
                        }
                    },
                    Turn::Advance { worker, now_ms, elapsed_ms } => {},
                }
            }
        }
        assert forall|w: int| 0 <= w < events.len() implies #[trigger] linked_standing(
            after,
            events,
            schedule,
            w,
        ) by {
            if w != v {
                assert(linked_standing(d, events, before, w));
                assert(standing_sound(d, base, readable, w, d.operations[w]));
                let m = ledger_of[w];
                assert(d.has_ledger(w) && after.has_ledger(w));
                assert(after.operations[w] == d.operations[w]);
                if m == l {
                    assert(last_on(ledger_of, schedule, m) != Some(w));
                    if seals && after.operations[w] is Sealed {
                        let record = after.operations[w]->Sealed_record;
                        assert(chain.contains_key(record.sequence_number));
                        assert(earlier(after.chains[l], record.sequence_number) =~= earlier(
                            chain,
                            record.sequence_number,
                        ));
                    }
                } else {
                    assert(after.chains[m] == d.chains[m]);
                    assert(last_on(ledger_of, schedule, m) == last_on(ledger_of, before, m));
                }
                assert(after.chain_of(w) == after.chains[m]);
                assert(d.chain_of(w) == d.chains[m]);
                assert(!touched(schedule, w) ==> after.operations[w] == received(events[w]));
                let current_after = last_on(after.ledger_of, schedule, after.ledger_of[w]) == Some(
                    w,
                );
                let current_before = last_on(d.ledger_of, before, d.ledger_of[w]) == Some(w);
                assert(current_after ==> current_before && after.chains[m] == d.chains[m]);
                assert(after.operations[w] is Sealed ==> after.operations[w]->Sealed_record.previous_hash
                    == latest_hash(
                    earlier(
                        after.chain_of(w),
                        after.operations[w]->Sealed_record.sequence_number,
                    ),
                ));
            }
        }
    } else {
        assert(after == d);
        assert forall|w: int| 0 <= w < events.len() implies #[trigger] linked_standing(
            after,
            events,
            schedule,
            w,
        ) by {
            assert(linked_standing(d, events, before, w));
            assert(last_on(ledger_of, schedule, ledger_of[w]) == last_on(
                ledger_of,
                before,
                ledger_of[w],
            ));
        }
    }
}

/// Records that a ledger seals are linked, as long as its operations are
/// kept apart. Let the operations begin on any store and on ledgers whose
/// chains hold nothing above the counter, and let no operation take a turn
/// between two turns of another operation of its ledger, while operations
/// of different ledgers interleave as they like. Then every sealed record
/// links to the hash that the chain of its ledger holds at the greatest
/// number below its own, and to the genesis hash where the chain holds
/// nothing below it.
pub proof fn lemma_apart_linked(
    store: StoreModel,
    chains: Seq<Map<u64, Seq<char>>>,
    ledger_of: Seq<int>,
    events: Seq<CertifiedEventView>,
    schedule: Seq<Turn>,
    i: int,
)
    requires
        ledger_of.len() == events.len(),
        forall|w: int| 0 <= w < events.len() ==> 0 <= #[trigger] ledger_of[w] < chains.len(),
        forall|l: int, k: u64|
            0 <= l < chains.len() && #[trigger] chains[l].contains_key(k) ==> k
                <= store.last_sequence(),
        kept_apart(ledger_of, schedule),
        0 <= i < events.len(),
        Deployment::begin(store, chains, ledger_of, events).run(schedule).operations[i] is Sealed,
    ensures
        ({
            let d = Deployment::begin(store, chains, ledger_of, events).run(schedule);
            let record = d.operations[i]->Sealed_record;
            record.previous_hash == latest_hash(earlier(d.chain_of(i), record.sequence_number))
        }),
{
    lemma_run_linked(store, chains, ledger_of, events, schedule);
    let d = Deployment::begin(store, chains, ledger_of, events).run(schedule);
    assert(linked_standing(d, events, schedule, i));
}

/// Consecutive records of one ledger are linked. Under the conditions of
/// [`lemma_apart_linked`], where one ledger has sealed the records numbered
/// `n` and `n + 1`, the second links to the hash of the first.
pub proof fn lemma_apart_consecutive_linked(
    store: StoreModel,
    chains: Seq<Map<u64, Seq<char>>>,
    ledger_of: Seq<int>,
    events: Seq<CertifiedEventView>,
    schedule: Seq<Turn>,
    a: int,
    b: int,
)
    requires
        ledger_of.len() == events.len(),
        forall|w: int| 0 <= w < events.len() ==> 0 <= #[trigger] ledger_of[w] < chains.len(),
        forall|l: int, k: u64|
            0 <= l < chains.len() && #[trigger] chains[l].contains_key(k) ==> k
                <= store.last_sequence(),
        kept_apart(ledger_of, schedule),
        0 <= a < events.len(),
        0 <= b < events.len(),
        ledger_of[a] == ledger_of[b],
        Deployment::begin(store, chains, ledger_of, events).run(schedule).operations[a] is Sealed,
        Deployment::begin(store, chains, ledger_of, events).run(schedule).operations[b] is Sealed,
        Deployment::begin(store, chains, ledger_of, events).run(
            schedule,
        ).operations[b]->Sealed_record.sequence_number == Deployment::begin(
            store,
            chains,
            ledger_of,
            events,
        ).run(schedule).operations[a]->Sealed_record.sequence_number + 1,
    ensures
        ({
            let d = Deployment::begin(store, chains, ledger_of, events).run(schedule);
            d.operations[b]->Sealed_record.previous_hash
                == d.operations[a]->Sealed_record.event_hash
        }),
{
    lemma_apart_linked(store, chains, ledger_of, events, schedule, b);
    lemma_sealed_record_found(store, chains, ledger_of, events, schedule, a);
    lemma_run_linked(store, chains, ledger_of, events, schedule);
    let d = Deployment::begin(store, chains, ledger_of, events).run(schedule);
    let first = d.operations[a]->Sealed_record;
    let second = d.operations[b]->Sealed_record;
    let chain = d.chain_of(b);
    assert(d.has_ledger(a) && d.has_ledger(b) && d.chain_of(a) == chain);
    let below = earlier(chain, second.sequence_number);
    assert(below.contains_key(first.sequence_number));
    assert(crate::crypto::is_latest(below, first.sequence_number));
    crate::crypto::lemma_latest_hash_at(below, first.sequence_number);
}

} // verus!
