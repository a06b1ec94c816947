//! The hash that binds one event to everything sealed before it, and the
//! record that a sealed event leaves behind.

use sha2::{Digest, Sha256};
use vstd::bytes::{spec_u64_to_le_bytes, u64_to_le_bytes};
use vstd::prelude::*;
use vstd::utf8::encode_utf8;

verus! {

/// The SHA-256 digest of `data`.
pub uninterp spec fn sha256(data: Seq<u8>) -> Seq<u8>;

/// `sha2`'s one-shot `Sha256::digest`: the result is the SHA-256 digest of
/// `data`, which is thirty-two bytes long. Nothing of this is proved here.
#[verifier::external_body]
fn sha256_digest(data: &[u8]) -> (digest: Vec<u8>)
    ensures
        digest@ == sha256(data@),
        digest@.len() == 32,
{
    Sha256::digest(data).to_vec()
}

/// The sixteen digits of lowercase hexadecimal, by value.
pub open spec fn hex_digits() -> Seq<char> {
    seq!['0', '1', '2', '3', '4', '5', '6', '7', '8', '9', 'a', 'b', 'c', 'd', 'e', 'f']
}

/// Lowercase hexadecimal text of `bytes`: two digits per byte, the high
/// nibble first.
pub open spec fn hex_lower(bytes: Seq<u8>) -> Seq<char> {
    Seq::new(
        2 * bytes.len(),
        |i: int|
            if i % 2 == 0 {
                hex_digits()[(bytes[i / 2] >> 4) as int]
            } else {
                hex_digits()[(bytes[i / 2] & 0x0f) as int]
            },
    )
}

/// `hex::encode`: each byte becomes its two lowercase hexadecimal digits,
/// high nibble first, in the order of the bytes. Nothing of this is proved
/// here.
#[verifier::external_body]
fn hex_encode(bytes: &[u8]) -> (text: String)
    ensures
        text@ == hex_lower(bytes@),
{
    hex::encode(bytes)
}

/// The bytes that are hashed for one event: the sequence number as eight
/// little-endian bytes, then the event id, the payload and the previous hash,
/// one after the other with nothing between them.
pub open spec fn hash_input(
    sequence_number: u64,
    event_id: Seq<char>,
    payload: Seq<u8>,
    previous_hash: Seq<char>,
) -> Seq<u8> {
    spec_u64_to_le_bytes(sequence_number) + encode_utf8(event_id) + payload + encode_utf8(
        previous_hash,
    )
}

/// The chain-extension hash of one event: the lowercase hexadecimal text of
/// the SHA-256 digest of [`hash_input`].
pub open spec fn event_hash(
    sequence_number: u64,
    event_id: Seq<char>,
    payload: Seq<u8>,
    previous_hash: Seq<char>,
) -> Seq<char> {
    hex_lower(sha256(hash_input(sequence_number, event_id, payload, previous_hash)))
}

/// The text of a digest tells the digest: different digests never read the
/// same.
pub proof fn lemma_hex_lower_injective(a: Seq<u8>, b: Seq<u8>)
    requires
        hex_lower(a) == hex_lower(b),
    ensures
        a == b,
{
    assert(hex_lower(a).len() == 2 * a.len());
    assert(hex_lower(b).len() == 2 * b.len());
    assert forall|i: int| 0 <= i < a.len() implies a[i] == b[i] by {
        let x = a[i];
        let y = b[i];
        let high = hex_lower(a)[2 * i];
        let low = hex_lower(a)[2 * i + 1];
        assert(high == hex_digits()[(x >> 4) as int]);
        assert(low == hex_digits()[(x & 0x0f) as int]);
        assert(hex_lower(b)[2 * i] == hex_digits()[(y >> 4) as int]);
        assert(hex_lower(b)[2 * i + 1] == hex_digits()[(y & 0x0f) as int]);
        assert(x >> 4 < 16 && x & 0x0f < 16 && y >> 4 < 16 && y & 0x0f < 16) by (bit_vector);
        assert(x >> 4 == y >> 4);
        assert(x & 0x0f == y & 0x0f);
        assert(x == y) by (bit_vector)
            requires
                x >> 4 == y >> 4,
                x & 0x0f == y & 0x0f,
        ;
    }
    assert(a =~= b);
}

/// Two events carry the same hash only where SHA-256 gives their inputs the
/// same digest.
pub proof fn lemma_equal_hashes_equal_digests(
    sequence_number: u64,
    event_id: Seq<char>,
    payload: Seq<u8>,
    previous_hash: Seq<char>,
    other_sequence_number: u64,
    other_event_id: Seq<char>,
    other_payload: Seq<u8>,
    other_previous_hash: Seq<char>,
)
    requires
        event_hash(sequence_number, event_id, payload, previous_hash) == event_hash(
            other_sequence_number,
            other_event_id,
            other_payload,
            other_previous_hash,
        ),
    ensures
        sha256(hash_input(sequence_number, event_id, payload, previous_hash)) == sha256(
            hash_input(other_sequence_number, other_event_id, other_payload, other_previous_hash),
        ),
{
    lemma_hex_lower_injective(
        sha256(hash_input(sequence_number, event_id, payload, previous_hash)),
        sha256(
            hash_input(other_sequence_number, other_event_id, other_payload, other_previous_hash),
        ),
    );
}

/// A change of one of the four values that are hashed, whichever it is,
/// changes the bytes that are hashed. (Two of them changed together may
/// leave the bytes as they were: nothing separates the event id from the
/// payload.)
pub proof fn lemma_single_change_changes_input(
    sequence_number: u64,
    event_id: Seq<char>,
    payload: Seq<u8>,
    previous_hash: Seq<char>,
    other_sequence_number: u64,
    other_event_id: Seq<char>,
    other_payload: Seq<u8>,
    other_previous_hash: Seq<char>,
)
    requires
        (sequence_number != other_sequence_number && event_id == other_event_id && payload
            == other_payload && previous_hash == other_previous_hash) || (sequence_number
            == other_sequence_number && event_id != other_event_id && payload == other_payload
            && previous_hash == other_previous_hash) || (sequence_number == other_sequence_number
            && event_id == other_event_id && payload != other_payload && previous_hash
            == other_previous_hash) || (sequence_number == other_sequence_number && event_id
            == other_event_id && payload == other_payload && previous_hash
            != other_previous_hash),
    ensures
        hash_input(sequence_number, event_id, payload, previous_hash) != hash_input(
            other_sequence_number,
            other_event_id,
            other_payload,
            other_previous_hash,
        ),
{
    vstd::bytes::lemma_auto_spec_u64_to_from_le_bytes();
    vstd::utf8::encode_utf8_decode_utf8(event_id);
    vstd::utf8::encode_utf8_decode_utf8(other_event_id);
    vstd::utf8::encode_utf8_decode_utf8(previous_hash);
    vstd::utf8::encode_utf8_decode_utf8(other_previous_hash);
    let number = spec_u64_to_le_bytes(sequence_number);
    let id = encode_utf8(event_id);
    let previous = encode_utf8(previous_hash);
    let other_number = spec_u64_to_le_bytes(other_sequence_number);
    let other_id = encode_utf8(other_event_id);
    let other_previous = encode_utf8(other_previous_hash);
    let input = hash_input(sequence_number, event_id, payload, previous_hash);
    let other = hash_input(
        other_sequence_number,
        other_event_id,
        other_payload,
        other_previous_hash,
    );
    if input == other {
        let a: int = id.len() as int + 8;
        let b: int = a + payload.len();
        let c: int = b + previous.len();
        let other_a: int = other_id.len() as int + 8;
        let other_b: int = other_a + other_payload.len();
        let other_c: int = other_b + other_previous.len();
        assert(input.len() == c && other.len() == other_c);
        assert(number =~= input.subrange(0, 8));
        assert(other_number =~= other.subrange(0, 8));
        assert(id =~= input.subrange(8, a));
        assert(other_id =~= other.subrange(8, other_a));
        assert(payload =~= input.subrange(a, b));
        assert(other_payload =~= other.subrange(other_a, other_b));
        assert(previous =~= input.subrange(b, c));
        assert(other_previous =~= other.subrange(other_b, other_c));
        assert(false);
    }
}

/// Lays out the bytes that are hashed for one event.
pub fn digest_input(
    sequence_number: u64,
    event_id: &str,
    payload: &[u8],
    previous_hash: &str,
) -> (input: Vec<u8>)
    ensures
        input@ == hash_input(sequence_number, event_id@, payload@, previous_hash@),
{
    let mut input = u64_to_le_bytes(sequence_number);
    input.extend_from_slice(event_id.as_bytes());
    input.extend_from_slice(payload);
    input.extend_from_slice(previous_hash.as_bytes());
    assert(input@ =~= hash_input(sequence_number, event_id@, payload@, previous_hash@));
    input
}

/// Renders a digest as the text that is stored and compared.
pub fn digest_text(digest: &[u8]) -> (text: String)
    ensures
        text@ == hex_lower(digest@),
        text@.len() == 2 * digest@.len(),
{
    hex_encode(digest)
}

/// Computes chain-extension hashes.
pub struct SealingEngine;

impl SealingEngine {
    pub fn new() -> (engine: Self) {
        SealingEngine
    }

    /// The hash of the event `event_id` with `payload`, sealed at
    /// `sequence_number` behind `previous_hash`. It is a function of these
    /// four values alone, sixty-four hexadecimal digits long.
    pub fn compute_event_hash(
        &self,
        sequence_number: u64,
        event_id: &str,
        payload: &[u8],
        previous_hash: &str,
    ) -> (hash: String)
        ensures
            hash@ == event_hash(sequence_number, event_id@, payload@, previous_hash@),
            hash@.len() == 64,
    {
        let input = digest_input(sequence_number, event_id, payload, previous_hash);
        let digest = sha256_digest(input.as_slice());
        digest_text(digest.as_slice())
    }
}

/// A sealed event as a mathematical value.
pub struct SealedEvent {
    pub sequence_number: u64,
    pub event_id: Seq<char>,
    pub payload: Seq<u8>,
    pub event_hash: Seq<char>,
    pub previous_hash: Seq<char>,
    pub sealed_timestamp: i64,
    pub commit_latency_ms: i64,
}

/// The record of one sealed event: what is stored durably and handed back
/// to the submitter.
#[derive(Debug)]
pub struct SealedEventData {
    pub sequence_number: u64,
    pub event_id: String,
    pub payload: Vec<u8>,
    pub event_hash: String,
    pub previous_hash: String,
    pub sealed_timestamp: i64,
    pub commit_latency_ms: i64,
}

impl Clone for SealedEventData {
    fn clone(&self) -> (copy: Self)
        ensures
            copy@ == self@,
    {
        let copy = SealedEventData {
            sequence_number: self.sequence_number,
            event_id: self.event_id.clone(),
            payload: self.payload.clone(),
            event_hash: self.event_hash.clone(),
            previous_hash: self.previous_hash.clone(),
            sealed_timestamp: self.sealed_timestamp,
            commit_latency_ms: self.commit_latency_ms,
        };
        assert(copy.payload@ =~= self.payload@);
        copy
    }
}

impl View for SealedEventData {
    type V = SealedEvent;

    open spec fn view(&self) -> SealedEvent {
        SealedEvent {
            sequence_number: self.sequence_number,
            event_id: self.event_id@,
            payload: self.payload@,
            event_hash: self.event_hash@,
            previous_hash: self.previous_hash@,
            sealed_timestamp: self.sealed_timestamp,
            commit_latency_ms: self.commit_latency_ms,
        }
    }
}

} // verus!
