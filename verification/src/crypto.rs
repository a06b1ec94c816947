//! The in-memory hash chain: an ordered index from sequence number to the
//! hash sealed at that position.

use std::collections::BTreeMap;
use vstd::prelude::*;
use vstd::std_specs::cmp::OrdSpec;
use vstd::std_specs::iter::IteratorSpec;

verus! {

/// The hash that stands before the first sealed event: sixty-four `'0'`
/// characters.
pub open spec fn genesis_hash() -> Seq<char> {
    Seq::new(64, |i: int| '0')
}

/// `k` is recorded in `entries` and no greater sequence number is.
pub open spec fn is_latest(entries: Map<u64, Seq<char>>, k: u64) -> bool {
    entries.contains_key(k) && forall|j: u64| entries.contains_key(j) ==> j <= k
}

/// The hash a new event links to: the one recorded at the greatest sequence
/// number, or the genesis hash where nothing is recorded.
pub open spec fn latest_hash(entries: Map<u64, Seq<char>>) -> Seq<char> {
    if exists|k: u64| is_latest(entries, k) {
        entries[choose|k: u64| is_latest(entries, k)]
    } else {
        genesis_hash()
    }
}

/// Where nothing is recorded, the latest hash is the genesis hash.
pub proof fn lemma_latest_hash_empty()
    ensures
        latest_hash(Map::<u64, Seq<char>>::empty()) == genesis_hash(),
{
    assert(forall|k: u64| !is_latest(Map::<u64, Seq<char>>::empty(), k));
}

/// The latest hash is the one recorded at the greatest sequence number.
pub proof fn lemma_latest_hash_at(entries: Map<u64, Seq<char>>, k: u64)
    requires
        is_latest(entries, k),
    ensures
        latest_hash(entries) == entries[k],
{
    let chosen = choose|j: u64| is_latest(entries, j);
    assert(chosen == k);
}

/// Recording a hash at a sequence number that no recorded number exceeds
/// makes it the latest hash.
pub proof fn lemma_latest_hash_after_record(
    entries: Map<u64, Seq<char>>,
    sequence_number: u64,
    hash: Seq<char>,
)
    requires
        forall|j: u64| entries.contains_key(j) ==> j <= sequence_number,
    ensures
        latest_hash(entries.insert(sequence_number, hash)) == hash,
{
    lemma_latest_hash_at(entries.insert(sequence_number, hash), sequence_number);
}

/// The recorded sequence numbers form one contiguous run: whatever lies
/// between two recorded numbers is recorded too.
pub open spec fn is_gapless(keys: Set<u64>) -> bool {
    forall|a: u64, b: u64, c: u64|
        keys.contains(a) && keys.contains(c) && a < b && b < c ==> keys.contains(b)
}

/// Every recorded sequence number but the least has its predecessor
/// recorded.
pub open spec fn has_predecessors(keys: Set<u64>) -> bool {
    forall|j: u64, k: u64|
        #[trigger] keys.contains(j) && #[trigger] keys.contains(k) && j < k ==> keys.contains(
            (k - 1) as u64,
        )
}

/// Where every member but the least has its predecessor, everything between
/// two members is a member.
proof fn lemma_descend(keys: Set<u64>, a: u64, c: u64, t: u64)
    requires
        has_predecessors(keys),
        keys.contains(a),
        keys.contains(c),
        a <= t <= c,
    ensures
        keys.contains(t),
    decreases c - t,
{
    if t < c {
        lemma_descend(keys, a, c, (t + 1) as u64);
        assert(keys.contains(((t + 1) - 1) as u64));
    }
}

/// A set of sequence numbers is without a gap exactly where each of its
/// members but the least has its predecessor in it.
pub proof fn lemma_gapless_iff_predecessors(keys: Set<u64>)
    ensures
        is_gapless(keys) <==> has_predecessors(keys),
{
    if is_gapless(keys) {
        assert forall|j: u64, k: u64|
            #[trigger] keys.contains(j) && #[trigger] keys.contains(k) && j < k implies keys.contains(
            (k - 1) as u64,
        ) by {
            let before: u64 = (k - 1) as u64;
            if j < before {
                assert(before < k);
            }
        }
    }
    if has_predecessors(keys) {
        assert forall|a: u64, b: u64, c: u64|
            keys.contains(a) && keys.contains(c) && a < b && b < c implies keys.contains(b) by {
            lemma_descend(keys, a, c, b);
        }
    }
}

/// The entry of `chain` with the greatest key, as [`BTreeMap::last_key_value`]
/// returns it: `None` exactly for an empty map, else the pair whose key no
/// other key of the map exceeds.
#[verifier::external_body]
fn last_entry(chain: &BTreeMap<u64, String>) -> (last: Option<(&u64, &String)>)
    ensures
        match last {
            Some((k, hash)) => chain@.contains_key(*k) && chain@[*k] == *hash && forall|j: u64|
                chain@.contains_key(j) ==> j <= *k,
            None => chain@.dom().is_empty(),
        },
{
    chain.last_key_value()
}

/// Append-only index of the hashes sealed so far, by sequence number.
pub struct HashChain {
    chain: BTreeMap<u64, String>,
}

impl View for HashChain {
    type V = Map<u64, Seq<char>>;

    closed spec fn view(&self) -> Map<u64, Seq<char>> {
        self.chain@.map_values(|h: String| h@)
    }
}

impl HashChain {
    /// An empty chain.
    pub fn new() -> (chain: Self)
        ensures
            chain@ == Map::<u64, Seq<char>>::empty(),
    {
        let chain = HashChain { chain: BTreeMap::new() };
        assert(chain@ =~= Map::<u64, Seq<char>>::empty());
        chain
    }

    /// The chain holds finitely many entries.
    pub proof fn lemma_finite(&self)
        ensures
            self@.dom().finite(),
    {
        assert(self@.dom() =~= self.chain@.dom());
    }

    /// Number of recorded entries.
    pub fn length(&self) -> (n: usize)
        ensures
            n == self@.len(),
            self@.dom().finite(),
    {
        assert(self@.dom() =~= self.chain@.dom());
        self.chain.len()
    }

    /// Records `hash` at `sequence_number`, replacing what was recorded there.
    pub fn add_hash(&mut self, sequence_number: u64, hash: String)
        ensures
            final(self)@ == old(self)@.insert(sequence_number, hash@),
            final(self)@.dom().finite(),
            final(self)@.len() == old(self)@.len() + (if old(self)@.contains_key(
                sequence_number,
            ) {
                0int
            } else {
                1int
            }),
    {
        assert(old(self)@.dom() =~= old(self).chain@.dom());
        self.chain.insert(sequence_number, hash);
        assert(self@.dom() =~= self.chain@.dom());
        assert(self@ =~= old(self)@.insert(sequence_number, hash@));
    }

    /// The hash the next event links to: the one recorded at the greatest
    /// sequence number, or the genesis hash while the chain is empty.
    pub fn get_latest_hash(&self) -> (hash: String)
        ensures
            hash@ == latest_hash(self@),
            self@.dom().is_empty() ==> hash@ == genesis_hash(),
            self@.len() == 0 ==> hash@ == genesis_hash(),
            forall|k: u64| is_latest(self@, k) ==> hash@ == self@[k],
    {
        assert(self@.dom() =~= self.chain@.dom());
        match last_entry(&self.chain) {
            Some((k, hash)) => {
                proof {
                    assert(is_latest(self@, *k));
                    assert(self@.dom().contains(*k));
                    if self@.len() == 0 {
                        self@.dom().lemma_len0_is_empty();
                    }
                }
                hash.clone()
            },
            None => {
                let genesis = "0000000000000000000000000000000000000000000000000000000000000000".to_owned();
                proof {
                    reveal_strlit("0000000000000000000000000000000000000000000000000000000000000000");
                    assert(genesis@ =~= genesis_hash());
                    assert(forall|k: u64| !self@.contains_key(k));
                }
                genesis
            },
        }
    }

    /// Audits the recorded sequence numbers: `true` for an empty chain and
    /// for one whose numbers form a contiguous run, `false` where a number
    /// between two recorded ones is missing.
    pub fn verify_integrity(&self) -> (intact: bool)
        ensures
            intact == is_gapless(self@.dom()),
    {
        let entries = self.chain.iter();
        let ghost listing = entries.remaining();
        let ghost keys = listing.map_values(|entry: (&u64, &String)| *entry.0);
        proof {
            lemma_listing_covers(self.chain@, listing);
            lemma_increasing_is_ascending(keys);
            assert(self@.dom() =~= self.chain@.dom());
        }
        let mut previous: Option<u64> = None;
        for entry in it: entries
            invariant
                it.seq() == listing,
                keys == listing.map_values(|entry: (&u64, &String)| *entry.0),
                ascending(keys),
                forall|k: u64| self@.dom().contains(k) <==> keys.contains(k),
                previous == (if it.index() == 0 {
                    None
                } else {
                    Some(keys[it.index() - 1])
                }),
                consecutive(keys.subrange(0, it.index())),
        {
            let k: u64 = *entry.0;
            assert(k == keys[it.index()]);
            if let Some(p) = previous {
                assert(p < k);
                if k != p + 1 {
                    proof {
                        lemma_jump_is_gap(keys, self@.dom(), it.index());
                    }
                    return false;
                }
            }
            previous = Some(k);
        }
        proof {
            assert(keys.subrange(0, keys.len() as int) =~= keys);
            lemma_consecutive_is_gapless(keys, self@.dom());
        }
        true
    }

    /// The hash recorded at `sequence_number`, if any.
    pub fn get_hash(&self, sequence_number: u64) -> (found: Option<String>)
        ensures
            match found {
                Some(h) => self@.contains_key(sequence_number) && h@ == self@[sequence_number],
                None => !self@.contains_key(sequence_number),
            },
    {
        match self.chain.get(&sequence_number) {
            Some(h) => Some(h.clone()),
            None => None,
        }
    }
}

/// The order in which a `BTreeMap<u64, _>` lists its keys is strictly
/// ascending.
proof fn lemma_increasing_is_ascending(keys: Seq<u64>)
    requires
        vstd::std_specs::btree::increasing_seq(keys),
    ensures
        ascending(keys),
{
    broadcast use vstd::std_specs::btree::group_btree_axioms;
    broadcast use vstd::laws_cmp::group_laws_cmp;

    vstd::std_specs::btree::axiom_increasing_seq_meaning(keys);
    assert forall|i: int, j: int| 0 <= i < j < keys.len() implies keys[i] < keys[j] by {
        assert(keys[i].cmp_spec(&keys[j]) is Less);
    }
}

/// The keys that a map's iterator yields are exactly the map's domain.
proof fn lemma_listing_covers(entries: Map<u64, String>, listing: Seq<(&u64, &String)>)
    requires
        forall|i: int| 0 <= i < listing.len() ==> entries.contains_key(*(#[trigger] listing[i]).0),
        forall|k: u64| #[trigger] entries.contains_key(k) ==> listing.contains((&k, &entries[k])),
    ensures
        forall|k: u64|
            entries.dom().contains(k) <==> listing.map_values(
                |entry: (&u64, &String)| *entry.0,
            ).contains(k),
{
    let keys = listing.map_values(|entry: (&u64, &String)| *entry.0);
    assert forall|k: u64| entries.dom().contains(k) implies keys.contains(k) by {
        let pair = (&k, &entries[k]);
        assert(listing.contains(pair));
        let i = choose|i: int| 0 <= i < listing.len() && listing[i] == pair;
        assert(keys[i] == k);
    }
    assert forall|k: u64| keys.contains(k) implies entries.dom().contains(k) by {
        let i = choose|i: int| 0 <= i < keys.len() && keys[i] == k;
        assert(entries.contains_key(*listing[i].0));
    }
}

/// Strictly ascending order of a sequence of sequence numbers.
spec fn ascending(keys: Seq<u64>) -> bool {
    forall|i: int, j: int| 0 <= i < j < keys.len() ==> keys[i] < keys[j]
}

/// Each element is the successor of the one before it.
spec fn consecutive(keys: Seq<u64>) -> bool {
    forall|i: int| 0 < i < keys.len() ==> #[trigger] keys[i] == keys[i - 1] + 1
}

/// In a consecutive listing, each element lies as far above the first as
/// its place in the listing.
proof fn lemma_consecutive_offset(keys: Seq<u64>, i: int)
    requires
        consecutive(keys),
        0 <= i < keys.len(),
    ensures
        keys[i] == keys[0] + i,
    decreases i,
{
    if i > 0 {
        lemma_consecutive_offset(keys, i - 1);
    }
}

/// A set listed in consecutive order is gapless.
proof fn lemma_consecutive_is_gapless(keys: Seq<u64>, dom: Set<u64>)
    requires
        consecutive(keys),
        forall|k: u64| dom.contains(k) <==> keys.contains(k),
    ensures
        is_gapless(dom),
{
    assert forall|a: u64, b: u64, c: u64|
        dom.contains(a) && dom.contains(c) && a < b && b < c implies dom.contains(b) by {
        let p = choose|p: int| 0 <= p < keys.len() && keys[p] == a;
        let q = choose|q: int| 0 <= q < keys.len() && keys[q] == c;
        lemma_consecutive_offset(keys, p);
        lemma_consecutive_offset(keys, q);
        let m: int = b - keys[0];
        lemma_consecutive_offset(keys, m);
        assert(keys[m] == b);
    }
}

/// Where two neighbours of an ascending listing are not consecutive, the
/// number after the smaller one is missing from the set.
proof fn lemma_jump_is_gap(keys: Seq<u64>, dom: Set<u64>, i: int)
    requires
        ascending(keys),
        forall|k: u64| dom.contains(k) <==> keys.contains(k),
        0 < i < keys.len(),
        keys[i] != keys[i - 1] + 1,
    ensures
        !is_gapless(dom),
{
    let a: u64 = keys[i - 1];
    let c: u64 = keys[i];
    let b: u64 = (a + 1) as u64;
    assert(keys.contains(a) && keys.contains(c));
    if dom.contains(b) {
        let t = choose|t: int| 0 <= t < keys.len() && keys[t] == b;
        if t <= i - 1 {
            assert(t == i - 1 || keys[t] < keys[i - 1]);
        } else {
            assert(t == i || keys[i] < keys[t]);
        }
    }
}

} // verus!
