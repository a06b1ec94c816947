//! The layout of the replicated store: under which keys the shared counter
//! and the sealed records live, and how the counter's value is written and
//! read.

use crate::store::bytes_view;
use vstd::prelude::*;
use vstd::string::StringExecFns;
use vstd::utf8::{encode_utf8, is_ascii_chars, is_ascii_chars_encode_utf8};

verus! {

/// The character for one decimal digit.
pub open spec fn decimal_digit(d: nat) -> char {
    seq!['0', '1', '2', '3', '4', '5', '6', '7', '8', '9'][d as int]
}

/// Plain decimal text of `n`: no sign, no leading zero but for zero itself.
pub open spec fn decimal_text(n: nat) -> Seq<char>
    decreases n,
{
    if n < 10 {
        seq![decimal_digit(n)]
    } else {
        decimal_text(n / 10).push(decimal_digit(n % 10))
    }
}

/// The key under which the last assigned sequence number is kept.
pub open spec fn counter_key_text() -> Seq<char> {
    "ledger/sequence_counter"@
}

/// What the key of every sealed record begins with.
pub open spec fn record_prefix_text() -> Seq<char> {
    "ledger/events/"@
}

/// The key under which the record sealed at `sequence_number` is kept.
pub open spec fn record_key_text(sequence_number: u64) -> Seq<char> {
    record_prefix_text() + decimal_text(sequence_number as nat)
}

/// The bytes between `'0'` and `'9'`.
pub open spec fn is_digit_byte(b: u8) -> bool {
    0x30 <= b <= 0x39
}

/// Every byte of `digits` is a decimal digit.
pub open spec fn all_digit_bytes(digits: Seq<u8>) -> bool {
    forall|i: int| 0 <= i < digits.len() ==> is_digit_byte(#[trigger] digits[i])
}

/// The number that a run of digit bytes denotes, most significant first.
pub open spec fn digits_value(digits: Seq<u8>) -> nat
    decreases digits.len(),
{
    if digits.len() == 0 {
        0
    } else {
        digits_value(digits.drop_last()) * 10 + (digits.last() - 0x30) as nat
    }
}

/// `text` without one leading `'+'`.
pub open spec fn unsigned_part(text: Seq<u8>) -> Seq<u8> {
    if text.len() > 0 && text[0] == 0x2b {
        text.subrange(1, text.len() as int)
    } else {
        text
    }
}

/// What a stored counter value denotes: an optional `'+'`, then one or more
/// decimal digits whose value fits in 64 bits. Anything else denotes
/// nothing.
pub open spec fn parse_counter_spec(text: Seq<u8>) -> Option<u64> {
    let digits = unsigned_part(text);
    if digits.len() > 0 && all_digit_bytes(digits) && digits_value(digits) <= u64::MAX {
        Some(digits_value(digits) as u64)
    } else {
        None
    }
}

/// The last assigned sequence number according to what the store holds under
/// the counter key: zero where the key is absent, the number that the value
/// denotes where it denotes one, and nothing where the key holds a value
/// that denotes no number. Such a counter is corrupt; it is never read as
/// zero.
pub open spec fn stored_sequence(stored: Option<Seq<u8>>) -> Option<u64> {
    match stored {
        Some(text) => parse_counter_spec(text),
        None => Some(0),
    }
}

/// The text of one decimal digit.
fn digit_text(d: u64) -> (text: &'static str)
    requires
        d < 10,
    ensures
        text@ == seq![decimal_digit(d as nat)],
{
    proof {
        reveal_strlit("0");
        reveal_strlit("1");
        reveal_strlit("2");
        reveal_strlit("3");
        reveal_strlit("4");
        reveal_strlit("5");
        reveal_strlit("6");
        reveal_strlit("7");
        reveal_strlit("8");
        reveal_strlit("9");
    }
    let text = if d == 0 {
        "0"
    } else if d == 1 {
        "1"
    } else if d == 2 {
        "2"
    } else if d == 3 {
        "3"
    } else if d == 4 {
        "4"
    } else if d == 5 {
        "5"
    } else if d == 6 {
        "6"
    } else if d == 7 {
        "7"
    } else if d == 8 {
        "8"
    } else {
        "9"
    };
    assert(text@ =~= seq![decimal_digit(d as nat)]);
    text
}

/// Appends the decimal text of `n` to `text`.
fn push_decimal(text: &mut String, n: u64)
    ensures
        final(text)@ == old(text)@ + decimal_text(n as nat),
    decreases n,
{
    if n >= 10 {
        push_decimal(text, n / 10);
    }
    text.append(digit_text(n % 10));
    assert(text@ =~= old(text)@ + decimal_text(n as nat));
}

/// The decimal text of a sequence number, as it is stored under the counter
/// key.
pub fn sequence_text(n: u64) -> (text: String)
    ensures
        text@ == decimal_text(n as nat),
{
    let mut text = String::new();
    push_decimal(&mut text, n);
    assert(text@ =~= decimal_text(n as nat));
    text
}

/// The key of the shared counter.
pub fn counter_key() -> (key: String)
    ensures
        key@ == counter_key_text(),
{
    "ledger/sequence_counter".to_owned()
}

/// The prefix under which all sealed records are found.
pub fn record_prefix() -> (prefix: String)
    ensures
        prefix@ == record_prefix_text(),
{
    "ledger/events/".to_owned()
}

/// The key of the record sealed at `sequence_number`.
pub fn record_key(sequence_number: u64) -> (key: String)
    ensures
        key@ == record_key_text(sequence_number),
{
    let mut key = record_prefix();
    push_decimal(&mut key, sequence_number);
    key
}

/// A run of digits denotes at least what any of its prefixes denotes.
proof fn lemma_digits_value_prefix(digits: Seq<u8>, n: int)
    requires
        all_digit_bytes(digits),
        0 <= n <= digits.len(),
    ensures
        digits_value(digits.subrange(0, n)) <= digits_value(digits),
    decreases digits.len() - n,
{
    if n == digits.len() {
        assert(digits.subrange(0, n) =~= digits);
    } else {
        lemma_digits_value_prefix(digits, n + 1);
        let longer = digits.subrange(0, n + 1);
        assert(longer.drop_last() =~= digits.subrange(0, n));
        assert(is_digit_byte(longer.last()));
    }
}

/// Reads a stored counter value.
///
/// Accepts an optional `'+'` followed by one or more decimal digits whose
/// value fits in 64 bits, and nothing else.
pub fn parse_counter(text: &[u8]) -> (value: Option<u64>)
    ensures
        value == parse_counter_spec(text@),
{
    let start: usize = if text.len() > 0 && text[0] == 0x2b {
        1
    } else {
        0
    };
    let ghost digits = unsigned_part(text@);
    assert(digits == text@.subrange(start as int, text@.len() as int)) by {
        assert(text@.subrange(0, text@.len() as int) =~= text@);
    }
    if start == text.len() {
        return None;
    }
    let mut value: u64 = 0;
    let mut i: usize = start;
    assert(digits.subrange(0, 0) =~= Seq::<u8>::empty());
    while i < text.len()
        invariant
            start <= i <= text.len(),
            digits == unsigned_part(text@),
            digits == text@.subrange(start as int, text@.len() as int),
            all_digit_bytes(digits.subrange(0, i - start)),
            value == digits_value(digits.subrange(0, i - start)),
        decreases text.len() - i,
    {
        let b: u8 = text[i];
        let ghost read = digits.subrange(0, i - start);
        let ghost longer = digits.subrange(0, i - start + 1);
        assert(longer.drop_last() =~= read);
        assert(longer.last() == b);
        if b < 0x30 || b > 0x39 {
            assert(!is_digit_byte(digits[i - start]));
            return None;
        }
        assert(digits_value(longer) == value * 10 + (b - 0x30));
        let shifted: u64 = match value.checked_mul(10) {
            Some(shifted) => shifted,
            None => {
                proof {
                    if all_digit_bytes(digits) {
                        lemma_digits_value_prefix(digits, i - start + 1);
                    }
                }
                return None;
            },
        };
        value = match shifted.checked_add((b - 0x30) as u64) {
            Some(sum) => sum,
            None => {
                proof {
                    if all_digit_bytes(digits) {
                        lemma_digits_value_prefix(digits, i - start + 1);
                    }
                }
                return None;
            },
        };
        assert forall|j: int| 0 <= j < longer.len() implies is_digit_byte(
            #[trigger] longer[j],
        ) by {
            if j < read.len() {
                assert(longer[j] == read[j]);
            }
        }
        i = i + 1;
    }
    assert(digits.subrange(0, i - start) =~= digits);
    Some(value)
}

/// The last assigned sequence number according to the store: zero where the
/// counter key is absent, what is read from its value where that is a
/// number, and `None` where the key holds anything else.
pub fn counter_value(stored: &Option<Vec<u8>>) -> (last: Option<u64>)
    ensures
        last == stored_sequence(bytes_view(*stored)),
{
    match stored {
        Some(text) => parse_counter(text.as_slice()),
        None => Some(0),
    }
}

/// The bytes written under the counter key for the sequence number `n`.
pub open spec fn counter_bytes(n: u64) -> Seq<u8> {
    encode_utf8(decimal_text(n as nat))
}

/// A decimal text is not empty and holds decimal digits only.
proof fn lemma_decimal_text_digits(n: nat)
    ensures
        decimal_text(n).len() >= 1,
        forall|i: int|
            0 <= i < decimal_text(n).len() ==> '0' <= #[trigger] decimal_text(n)[i] <= '9',
    decreases n,
{
    if n >= 10 {
        lemma_decimal_text_digits(n / 10);
    }
}

/// The bytes of a decimal text are its characters, one byte each.
proof fn lemma_counter_bytes(n: nat)
    ensures
        encode_utf8(decimal_text(n)).len() == decimal_text(n).len(),
        forall|i: int|
            0 <= i < decimal_text(n).len() ==> #[trigger] encode_utf8(decimal_text(n))[i]
                == decimal_text(n)[i] as u8,
        all_digit_bytes(encode_utf8(decimal_text(n))),
{
    lemma_decimal_text_digits(n);
    let text = decimal_text(n);
    assert(is_ascii_chars(text));
    is_ascii_chars_encode_utf8(text);
    let bytes = encode_utf8(text);
    assert forall|i: int| 0 <= i < bytes.len() implies is_digit_byte(#[trigger] bytes[i]) by {
        assert(bytes[i] == text[i] as u8);
        assert('0' <= text[i] <= '9');
    }
}

/// The bytes of the decimal text of `n` denote `n`.
proof fn lemma_decimal_value(n: nat)
    ensures
        digits_value(encode_utf8(decimal_text(n))) == n,
    decreases n,
{
    lemma_counter_bytes(n);
    let text = decimal_text(n);
    let bytes = encode_utf8(text);
    if n < 10 {
        assert(bytes.len() == 1);
        assert(bytes[0] == text[0] as u8);
        assert(bytes.drop_last().len() == 0);
        assert(digits_value(bytes.drop_last()) == 0);
    } else {
        lemma_decimal_value(n / 10);
        lemma_counter_bytes(n / 10);
        let head = encode_utf8(decimal_text(n / 10));
        assert(bytes.drop_last() =~= head) by {
            assert forall|i: int| 0 <= i < head.len() implies bytes.drop_last()[i] == head[i] by {
                assert(bytes[i] == text[i] as u8);
                assert(head[i] == decimal_text(n / 10)[i] as u8);
            }
        }
        assert(bytes.last() == decimal_digit(n % 10) as u8) by {
            assert(bytes[bytes.len() - 1] == text[bytes.len() - 1] as u8);
        }
    }
}

/// What is written under the counter key reads back as the number written.
pub proof fn lemma_counter_round_trip(n: u64)
    ensures
        parse_counter_spec(counter_bytes(n)) == Some(n),
        stored_sequence(Some(counter_bytes(n))) == Some(n),
{
    lemma_counter_bytes(n as nat);
    lemma_decimal_text_digits(n as nat);
    lemma_decimal_value(n as nat);
    let bytes = counter_bytes(n);
    assert(bytes[0] == decimal_text(n as nat)[0] as u8);
    assert(is_digit_byte(bytes[0]));
}

} // verus!
