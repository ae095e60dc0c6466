//! The bencode grammar and its decoder.
//!
//! The grammar dispatches on the first byte of the remaining input and
//! needs no backtracking: a decimal digit starts a byte string
//! `<length>:<bytes>`, `i` an integer `i<digits>e`, `l` a list
//! `l<value>*e`, and `d` a dictionary `d<key><value>*e` whose keys are
//! byte strings.
//!
//! `spec_decode_value` states the whole grammar as a function from the
//! input bytes, a position and a nesting allowance to the outcome, and the
//! executable decoder returns exactly that outcome.
use crate::value::elems_view;
use crate::value::pairs_view;
use crate::value::BValue;
use crate::value::Value;
use vstd::prelude::*;

verus! {

broadcast use
    vstd::std_specs::vec::group_vec_axioms,
    vstd::seq::group_seq_axioms,
    crate::value::lemma_bview_list,
    crate::value::lemma_bview_dict;

/// How deeply lists and dictionaries may nest. Input that nests deeper is
/// rejected, so that adversarial input cannot exhaust the stack.
pub const MAX_DEPTH: usize = 64;

/// Why a decode gave no value. `Truncated` is the one recoverable
/// outcome: the input is a proper prefix of a valid production, and the
/// count is a lower bound on how many bytes are still missing.
#[derive(Debug, Clone, Copy, PartialEq, Eq, Structural)]
pub enum DecodeError {
    /// The byte at which a value was expected starts none: it is neither a
    /// digit nor `i`, `l` or `d`.
    MalformedTag,
    /// A digit sequence is malformed: empty where one is required, not
    /// followed by its closing byte, or too large for its machine integer.
    InvalidLength,
    /// The input ends before the production does; decoding can be retried
    /// with at least this many more bytes.
    Truncated(usize),
    /// A list or dictionary holds, where its closing `e` or a further
    /// element could stand, a byte that can start neither.
    Unterminated,
    /// The input nests lists and dictionaries deeper than `MAX_DEPTH`.
    TooDeep,
}

/// An ASCII decimal digit.
pub open spec fn is_bencode_digit(b: u8) -> bool {
    48 <= b <= 57
}

/// A byte that can start a value.
pub open spec fn is_value_start(b: u8) -> bool {
    is_bencode_digit(b) || b == 105 || b == 108 || b == 100
}

/// How many digits stand at `pos`.
pub open spec fn count_digits(s: Seq<u8>, pos: int) -> nat
    decreases s.len() - pos,
{
    if 0 <= pos < s.len() && is_bencode_digit(s[pos]) {
        1 + count_digits(s, pos + 1)
    } else {
        0
    }
}

/// The number the digits `s[pos..end]` write in decimal.
pub open spec fn digits_value(s: Seq<u8>, pos: int, end: int) -> int
    decreases end - pos,
{
    if pos < end {
        digits_value(s, pos, end - 1) * 10 + (s[end - 1] - 48)
    } else {
        0
    }
}

/// The outcome of decoding the byte string production at `pos`, where a
/// digit stands: `<length>:<bytes>`.
pub open spec fn spec_decode_bytes(s: Seq<u8>, pos: int) -> Result<(BValue, int), DecodeError> {
    let j = pos + count_digits(s, pos);
    if j >= s.len() {
        Err(DecodeError::Truncated(1))
    } else {
        let n = digits_value(s, pos, j);
        if n > usize::MAX {
            Err(DecodeError::InvalidLength)
        } else if s[j] != 58 {
            Err(DecodeError::InvalidLength)
        } else if s.len() - (j + 1) < n {
            Err(DecodeError::Truncated((n - (s.len() - (j + 1))) as usize))
        } else {
            Ok((BValue::Bytes(s.subrange(j + 1, j + 1 + n)), j + 1 + n))
        }
    }
}

/// The outcome of decoding the integer production at `pos`, where `i`
/// stands: `i<digits>e`. A sign is not accepted, so every integer this
/// decoder yields is nonnegative.
pub open spec fn spec_decode_int(s: Seq<u8>, pos: int) -> Result<(BValue, int), DecodeError> {
    let j = pos + 1 + count_digits(s, pos + 1);
    if j >= s.len() {
        Err(DecodeError::Truncated(1))
    } else if j == pos + 1 {
        Err(DecodeError::InvalidLength)
    } else {
        let n = digits_value(s, pos + 1, j);
        if n > i64::MAX {
            Err(DecodeError::InvalidLength)
        } else if s[j] != 101 {
            Err(DecodeError::InvalidLength)
        } else {
            Ok((BValue::Int(n), j + 1))
        }
    }
}

/// The outcome of decoding one value at `pos` with `depth` nesting levels
/// left: the value's model and the position just past it, or why there is
/// no value.
pub open spec fn spec_decode_value(s: Seq<u8>, pos: int, depth: nat) -> Result<
    (BValue, int),
    DecodeError,
>
    decreases s.len() - pos, 0int,
{
    if !(0 <= pos < s.len()) {
        Err(DecodeError::Truncated(1))
    } else if is_bencode_digit(s[pos]) {
        spec_decode_bytes(s, pos)
    } else if s[pos] == 105 {
        spec_decode_int(s, pos)
    } else if s[pos] == 108 {
        if depth == 0 {
            Err(DecodeError::TooDeep)
        } else {
            match spec_decode_items(s, pos + 1, (depth - 1) as nat) {
                Ok((items, end)) => Ok((BValue::List(items), end)),
                Err(e) => Err(e),
            }
        }
    } else if s[pos] == 100 {
        if depth == 0 {
            Err(DecodeError::TooDeep)
        } else {
            match spec_decode_pairs(s, pos + 1, (depth - 1) as nat) {
                Ok((pairs, end)) => Ok((BValue::Dict(pairs), end)),
                Err(e) => Err(e),
            }
        }
    } else {
        Err(DecodeError::MalformedTag)
    }
}

/// The outcome of decoding list elements from `pos` up to the closing
/// `e`: their models in order and the position just past the `e`.
pub open spec fn spec_decode_items(s: Seq<u8>, pos: int, depth: nat) -> Result<
    (Seq<BValue>, int),
    DecodeError,
>
    decreases s.len() - pos, 1int,
{
    if !(0 <= pos < s.len()) {
        Err(DecodeError::Truncated(1))
    } else if s[pos] == 101 {
        Ok((Seq::empty(), pos + 1))
    } else if !is_value_start(s[pos]) {
        Err(DecodeError::Unterminated)
    } else {
        match spec_decode_value(s, pos, depth) {
            Ok((v, end)) => if pos < end <= s.len() {
                match spec_decode_items(s, end, depth) {
                    Ok((rest, end2)) => Ok((seq![v] + rest, end2)),
                    Err(e) => Err(e),
                }
            } else {
                // A decoded value always consumes at least one byte and
                // stays inside the input; the guard only serves the
                // termination check.
                Err(DecodeError::Unterminated)
            },
            Err(e) => Err(e),
        }
    }
}

/// The outcome of decoding dictionary pairs from `pos` up to the closing
/// `e`: the keys' and values' models in decode order and the position just
/// past the `e`.
pub open spec fn spec_decode_pairs(s: Seq<u8>, pos: int, depth: nat) -> Result<
    (Seq<(Seq<u8>, BValue)>, int),
    DecodeError,
>
    decreases s.len() - pos, 1int,
{
    if !(0 <= pos < s.len()) {
        Err(DecodeError::Truncated(1))
    } else if s[pos] == 101 {
        Ok((Seq::empty(), pos + 1))
    } else if !is_bencode_digit(s[pos]) {
        Err(DecodeError::Unterminated)
    } else {
        match spec_decode_bytes(s, pos) {
            Ok((kv, kend)) => if pos < kend <= s.len() {
                match spec_decode_value(s, kend, depth) {
                    Ok((v, vend)) => if kend < vend <= s.len() {
                        match spec_decode_pairs(s, vend, depth) {
                            Ok((rest, end2)) => Ok((seq![(kv->Bytes_0, v)] + rest, end2)),
                            Err(e) => Err(e),
                        }
                    } else {
                        // Unreachable, as in `spec_decode_items`.
                        Err(DecodeError::Unterminated)
                    },
                    Err(e) => Err(e),
                }
            } else {
                // Unreachable, as in `spec_decode_items`.
                Err(DecodeError::Unterminated)
            },
            Err(e) => Err(e),
        }
    }
}

/// Where the digit run at `pos` ends: every byte before it is a digit,
/// and it is the input's end or a byte that is no digit.
pub proof fn lemma_count_digits_run(s: Seq<u8>, pos: int)
    requires
        0 <= pos <= s.len(),
    ensures
        pos + count_digits(s, pos) <= s.len(),
        forall|k: int| pos <= k < pos + count_digits(s, pos) ==> is_bencode_digit(#[trigger] s[k]),
        pos + count_digits(s, pos) == s.len() || !is_bencode_digit(s[pos + count_digits(s, pos)]),
    decreases s.len() - pos,
{
    if pos < s.len() && is_bencode_digit(s[pos]) {
        lemma_count_digits_run(s, pos + 1);
    }
}

/// Digits write a nonnegative number.
pub proof fn lemma_digits_value_nonneg(s: Seq<u8>, pos: int, end: int)
    requires
        forall|k: int| pos <= k < end ==> is_bencode_digit(#[trigger] s[k]),
    ensures
        digits_value(s, pos, end) >= 0,
    decreases end - pos,
{
    if pos < end {
        lemma_digits_value_nonneg(s, pos, end - 1);
    }
}

/// A decoded byte string reaches past its first byte and stays inside the
/// input, and is a byte string.
pub proof fn lemma_decode_bytes_bounds(s: Seq<u8>, pos: int)
    requires
        0 <= pos < s.len(),
        is_bencode_digit(s[pos]),
    ensures
        spec_decode_bytes(s, pos) matches Ok((v, end)) ==> pos < end <= s.len() && (v
            matches BValue::Bytes(_)),
{
    lemma_count_digits_run(s, pos);
    let j = pos + count_digits(s, pos);
    if j < s.len() {
        lemma_digits_value_nonneg(s, pos, j);
    }
}

/// A decoded value reaches past its first byte and stays inside the input.
pub proof fn lemma_decode_value_bounds(s: Seq<u8>, pos: int, depth: nat)
    ensures
        spec_decode_value(s, pos, depth) matches Ok((v, end)) ==> pos < end <= s.len(),
    decreases s.len() - pos, 0int,
{
    if 0 <= pos < s.len() {
        if is_bencode_digit(s[pos]) {
            lemma_decode_bytes_bounds(s, pos);
        } else if s[pos] == 105 {
            lemma_count_digits_run(s, pos + 1);
            let j = pos + 1 + count_digits(s, pos + 1);
            if j < s.len() {
                lemma_digits_value_nonneg(s, pos + 1, j);
            }
        } else if s[pos] == 108 && depth > 0 {
            lemma_decode_items_bounds(s, pos + 1, (depth - 1) as nat);
        } else if s[pos] == 100 && depth > 0 {
            lemma_decode_pairs_bounds(s, pos + 1, (depth - 1) as nat);
        }
    }
}

/// Decoded list elements reach past their first byte and stay inside the
/// input.
pub proof fn lemma_decode_items_bounds(s: Seq<u8>, pos: int, depth: nat)
    ensures
        spec_decode_items(s, pos, depth) matches Ok((items, end)) ==> pos < end <= s.len(),
    decreases s.len() - pos, 1int,
{
    if 0 <= pos < s.len() && s[pos] != 101 && is_value_start(s[pos]) {
        lemma_decode_value_bounds(s, pos, depth);
        match spec_decode_value(s, pos, depth) {
            Ok((v, end)) => {
                lemma_decode_items_bounds(s, end, depth);
            },
            Err(_) => {},
        }
    }
}

/// Decoded dictionary pairs reach past their first byte and stay inside
/// the input.
pub proof fn lemma_decode_pairs_bounds(s: Seq<u8>, pos: int, depth: nat)
    ensures
        spec_decode_pairs(s, pos, depth) matches Ok((pairs, end)) ==> pos < end <= s.len(),
    decreases s.len() - pos, 1int,
{
    if 0 <= pos < s.len() && s[pos] != 101 && is_bencode_digit(s[pos]) {
        lemma_decode_bytes_bounds(s, pos);
        match spec_decode_bytes(s, pos) {
            Ok((kv, kend)) => {
                lemma_decode_value_bounds(s, kend, depth);
                match spec_decode_value(s, kend, depth) {
                    Ok((v, vend)) => {
                        lemma_decode_pairs_bounds(s, vend, depth);
                    },
                    Err(_) => {},
                }
            },
            Err(_) => {},
        }
    }
}

/// Taking a prefix changes a digit run only where the cut falls inside
/// or at the end of the run.
pub proof fn lemma_count_digits_take(s: Seq<u8>, m: int, pos: int)
    requires
        0 <= pos <= m <= s.len(),
    ensures
        count_digits(s.take(m), pos) == if pos + count_digits(s, pos) <= m {
            count_digits(s, pos) as int
        } else {
            m - pos
        },
    decreases m - pos,
{
    lemma_count_digits_run(s, pos);
    if pos < m && is_bencode_digit(s[pos]) {
        lemma_count_digits_take(s, m, pos + 1);
    }
}

/// Digits that lie inside the kept prefix write the same number there.
pub proof fn lemma_digits_value_take(s: Seq<u8>, m: int, pos: int, end: int)
    requires
        0 <= pos,
        end <= m <= s.len(),
    ensures
        digits_value(s.take(m), pos, end) == digits_value(s, pos, end),
    decreases end - pos,
{
    if pos < end {
        lemma_digits_value_take(s, m, pos, end - 1);
    }
}

/// A byte string decodes the same from any prefix that still holds all of
/// it: the production reads no byte past its own end.
pub proof fn lemma_decode_bytes_take(s: Seq<u8>, m: int, pos: int)
    requires
        0 <= pos < s.len(),
        is_bencode_digit(s[pos]),
        spec_decode_bytes(s, pos) matches Ok((v, end)) && end <= m <= s.len(),
    ensures
        spec_decode_bytes(s.take(m), pos) == spec_decode_bytes(s, pos),
{
    lemma_decode_bytes_bounds(s, pos);
    lemma_count_digits_run(s, pos);
    let j = pos + count_digits(s, pos) as int;
    lemma_digits_value_nonneg(s, pos, j);
    lemma_count_digits_take(s, m, pos);
    lemma_digits_value_take(s, m, pos, j);
    let n = digits_value(s, pos, j);
    assert(s.take(m).subrange(j + 1, j + 1 + n) =~= s.subrange(j + 1, j + 1 + n));
}

/// An integer decodes the same from any prefix that still holds all of it.
pub proof fn lemma_decode_int_take(s: Seq<u8>, m: int, pos: int)
    requires
        0 <= pos < s.len(),
        s[pos] == 105,
        spec_decode_int(s, pos) matches Ok((v, end)) && end <= m <= s.len(),
    ensures
        spec_decode_int(s.take(m), pos) == spec_decode_int(s, pos),
{
    lemma_count_digits_run(s, pos + 1);
    let j = pos + 1 + count_digits(s, pos + 1) as int;
    lemma_digits_value_nonneg(s, pos + 1, j);
    lemma_count_digits_take(s, m, pos + 1);
    lemma_digits_value_take(s, m, pos + 1, j);
}

/// A value decodes the same from any prefix that still holds all of it.
pub proof fn lemma_decode_value_take(s: Seq<u8>, m: int, pos: int, depth: nat)
    requires
        0 <= pos,
        spec_decode_value(s, pos, depth) matches Ok((v, end)) && end <= m <= s.len(),
    ensures
        spec_decode_value(s.take(m), pos, depth) == spec_decode_value(s, pos, depth),
    decreases s.len() - pos, 0int,
{
    lemma_decode_value_bounds(s, pos, depth);
    if is_bencode_digit(s[pos]) {
        lemma_decode_bytes_take(s, m, pos);
    } else if s[pos] == 105 {
        lemma_decode_int_take(s, m, pos);
    } else if s[pos] == 108 {
        lemma_decode_items_bounds(s, pos + 1, (depth - 1) as nat);
        lemma_decode_items_take(s, m, pos + 1, (depth - 1) as nat);
    } else if s[pos] == 100 {
        lemma_decode_pairs_bounds(s, pos + 1, (depth - 1) as nat);
        lemma_decode_pairs_take(s, m, pos + 1, (depth - 1) as nat);
    }
}

/// List elements decode the same from any prefix that still holds all of
/// them.
pub proof fn lemma_decode_items_take(s: Seq<u8>, m: int, pos: int, depth: nat)
    requires
        0 <= pos,
        spec_decode_items(s, pos, depth) matches Ok((items, end)) && end <= m <= s.len(),
    ensures
        spec_decode_items(s.take(m), pos, depth) == spec_decode_items(s, pos, depth),
    decreases s.len() - pos, 1int,
{
    if s[pos] == 101 {
    } else {
        lemma_decode_value_bounds(s, pos, depth);
        let e1 = spec_decode_value(s, pos, depth)->Ok_0.1;
        lemma_decode_items_bounds(s, e1, depth);
        lemma_decode_value_take(s, m, pos, depth);
        lemma_decode_items_take(s, m, e1, depth);
    }
}

/// Dictionary pairs decode the same from any prefix that still holds all
/// of them.
pub proof fn lemma_decode_pairs_take(s: Seq<u8>, m: int, pos: int, depth: nat)
    requires
        0 <= pos,
        spec_decode_pairs(s, pos, depth) matches Ok((pairs, end)) && end <= m <= s.len(),
    ensures
        spec_decode_pairs(s.take(m), pos, depth) == spec_decode_pairs(s, pos, depth),
    decreases s.len() - pos, 1int,
{
    if s[pos] == 101 {
    } else {
        lemma_decode_bytes_bounds(s, pos);
        let kend = spec_decode_bytes(s, pos)->Ok_0.1;
        lemma_decode_value_bounds(s, kend, depth);
        let vend = spec_decode_value(s, kend, depth)->Ok_0.1;
        lemma_decode_pairs_bounds(s, vend, depth);
        lemma_decode_bytes_take(s, m, pos);
        lemma_decode_value_take(s, m, kend, depth);
        lemma_decode_pairs_take(s, m, vend, depth);
    }
}

/// Cutting a byte string production short leaves `Truncated`.
pub proof fn lemma_truncate_bytes(s: Seq<u8>, m: int, pos: int)
    requires
        0 <= pos < s.len(),
        is_bencode_digit(s[pos]),
        spec_decode_bytes(s, pos) matches Ok((v, end)) && pos < m < end,
        m <= s.len(),
    ensures
        spec_decode_bytes(s.take(m), pos) matches Err(e) && e matches DecodeError::Truncated(_),
{
    lemma_count_digits_run(s, pos);
    lemma_count_digits_take(s, m, pos);
    let j = pos + count_digits(s, pos) as int;
    if m > j {
        lemma_digits_value_take(s, m, pos, j);
    }
}

/// Cutting an integer production short leaves `Truncated`.
pub proof fn lemma_truncate_int(s: Seq<u8>, m: int, pos: int)
    requires
        0 <= pos < s.len(),
        s[pos] == 105,
        spec_decode_int(s, pos) matches Ok((v, end)) && pos < m < end,
        m <= s.len(),
    ensures
        spec_decode_int(s.take(m), pos) matches Err(e) && e matches DecodeError::Truncated(_),
{
    lemma_count_digits_run(s, pos + 1);
    lemma_count_digits_take(s, m, pos + 1);
    let j = pos + 1 + count_digits(s, pos + 1) as int;
    if m > j {
        lemma_digits_value_take(s, m, pos + 1, j);
    }
}

/// Cutting a value short anywhere before its last byte leaves
/// `Truncated`.
pub proof fn lemma_truncate_value(s: Seq<u8>, m: int, pos: int, depth: nat)
    requires
        0 <= pos <= m <= s.len(),
        spec_decode_value(s, pos, depth) matches Ok((v, end)) && m < end,
    ensures
        spec_decode_value(s.take(m), pos, depth) matches Err(e) && e matches DecodeError::Truncated(
            _,
        ),
    decreases s.len() - pos, 0int,
{
    lemma_decode_value_bounds(s, pos, depth);
    if m == pos {
    } else if is_bencode_digit(s[pos]) {
        lemma_truncate_bytes(s, m, pos);
    } else if s[pos] == 105 {
        lemma_truncate_int(s, m, pos);
    } else if s[pos] == 108 {
        lemma_decode_items_bounds(s, pos + 1, (depth - 1) as nat);
        lemma_truncate_items(s, m, pos + 1, (depth - 1) as nat);
    } else if s[pos] == 100 {
        lemma_decode_pairs_bounds(s, pos + 1, (depth - 1) as nat);
        lemma_truncate_pairs(s, m, pos + 1, (depth - 1) as nat);
    }
}

/// Cutting a run of list elements short leaves `Truncated`.
pub proof fn lemma_truncate_items(s: Seq<u8>, m: int, pos: int, depth: nat)
    requires
        0 <= pos <= m <= s.len(),
        spec_decode_items(s, pos, depth) matches Ok((items, end)) && m < end,
    ensures
        spec_decode_items(s.take(m), pos, depth) matches Err(e) && e matches DecodeError::Truncated(
            _,
        ),
    decreases s.len() - pos, 1int,
{
    lemma_decode_items_bounds(s, pos, depth);
    if m == pos {
    } else if s[pos] == 101 {
    } else {
        lemma_decode_value_bounds(s, pos, depth);
        let e1 = spec_decode_value(s, pos, depth)->Ok_0.1;
        lemma_decode_items_bounds(s, e1, depth);
        if m < e1 {
            lemma_truncate_value(s, m, pos, depth);
        } else {
            lemma_decode_value_take(s, m, pos, depth);
            lemma_truncate_items(s, m, e1, depth);
        }
    }
}

/// Cutting a run of dictionary pairs short leaves `Truncated`.
pub proof fn lemma_truncate_pairs(s: Seq<u8>, m: int, pos: int, depth: nat)
    requires
        0 <= pos <= m <= s.len(),
        spec_decode_pairs(s, pos, depth) matches Ok((pairs, end)) && m < end,
    ensures
        spec_decode_pairs(s.take(m), pos, depth) matches Err(e) && e matches DecodeError::Truncated(
            _,
        ),
    decreases s.len() - pos, 1int,
{
    lemma_decode_pairs_bounds(s, pos, depth);
    if m == pos {
    } else if s[pos] == 101 {
    } else {
        lemma_decode_bytes_bounds(s, pos);
        let kend = spec_decode_bytes(s, pos)->Ok_0.1;
        lemma_decode_value_bounds(s, kend, depth);
        let vend = spec_decode_value(s, kend, depth)->Ok_0.1;
        lemma_decode_pairs_bounds(s, vend, depth);
        if m < kend {
            lemma_truncate_bytes(s, m, pos);
        } else if m < vend {
            lemma_decode_bytes_take(s, m, pos);
            lemma_truncate_value(s, m, kend, depth);
        } else {
            lemma_decode_bytes_take(s, m, pos);
            lemma_decode_value_take(s, m, kend, depth);
            lemma_truncate_pairs(s, m, vend, depth);
        }
    }
}

/// Truncating a buffer anywhere before the last byte of the value it
/// holds makes decoding report `Truncated` — never another error.
pub proof fn lemma_truncation_incomplete(s: Seq<u8>, m: int, depth: nat)
    requires
        spec_decode_value(s, 0, depth) matches Ok((v, end)) && 0 <= m < end,
    ensures
        spec_decode_value(s.take(m), 0, depth) matches Err(e) && e
            matches DecodeError::Truncated(_),
{
    lemma_decode_value_bounds(s, 0, depth);
    lemma_truncate_value(s, m, 0, depth);
}

/// Decoding a byte string `<length>:<payload>` yields exactly the
/// `length` payload bytes after the colon and ends exactly past them, so
/// everything after those bytes is left over. `j` names the position of
/// the colon.
pub proof fn lemma_byte_string_round_trip(s: Seq<u8>, j: int, depth: nat)
    requires
        0 < j < s.len(),
        forall|k: int| 0 <= k < j ==> is_bencode_digit(#[trigger] s[k]),
        s[j] == 58,
        digits_value(s, 0, j) <= usize::MAX,
        j + 1 + digits_value(s, 0, j) <= s.len(),
    ensures
        spec_decode_value(s, 0, depth) == Ok::<(BValue, int), DecodeError>(
            (
                BValue::Bytes(s.subrange(j + 1, j + 1 + digits_value(s, 0, j))),
                j + 1 + digits_value(s, 0, j),
            ),
        ),
{
    lemma_count_digits_run(s, 0);
    lemma_digits_value_nonneg(s, 0, j);
    let c = count_digits(s, 0) as int;
    if c < j {
        assert(is_bencode_digit(s[c]));
    }
    assert(c == j);
}

/// A first byte that starts no production yields `MalformedTag`, whatever
/// else the buffer holds and however long it is.
pub proof fn lemma_malformed_tag(s: Seq<u8>, depth: nat)
    requires
        s.len() > 0,
        !is_value_start(s[0]),
    ensures
        spec_decode_value(s, 0, depth) == Err::<(BValue, int), DecodeError>(
            DecodeError::MalformedTag,
        ),
{
}

/// Input that opens more nested lists than the decoder has nesting levels
/// left yields `TooDeep` rather than running on.
pub proof fn lemma_depth_limit(s: Seq<u8>, pos: int, depth: nat)
    requires
        0 <= pos,
        pos + depth < s.len(),
        forall|k: int| pos <= k <= pos + depth ==> s[k] == 108,
    ensures
        spec_decode_value(s, pos, depth) == Err::<(BValue, int), DecodeError>(DecodeError::TooDeep),
    decreases depth,
{
    if depth > 0 {
        lemma_depth_limit(s, pos + 1, (depth - 1) as nat);
    }
}

/// An integer with a leading minus sign is rejected: only unsigned digit
/// runs are accepted between `i` and `e`.
pub proof fn lemma_negative_integer_rejected(s: Seq<u8>, depth: nat)
    requires
        s.len() >= 2,
        s[0] == 105,
        s[1] == 45,
    ensures
        spec_decode_value(s, 0, depth) == Err::<(BValue, int), DecodeError>(
            DecodeError::InvalidLength,
        ),
{
}

/// Whether the decoder's return agrees with the grammar's outcome.
pub open spec fn decoded_matches(
    r: Result<(Value, usize), DecodeError>,
    o: Result<(BValue, int), DecodeError>,
) -> bool {
    match o {
        Ok((bv, end)) => r matches Ok((v, rend)) && v.bview() == bv && rend == end,
        Err(e) => r == Err::<(Value, usize), DecodeError>(e),
    }
}

/// As `decoded_matches`, for the byte string production alone.
pub open spec fn raw_bytes_match(
    r: Result<(Vec<u8>, usize), DecodeError>,
    o: Result<(BValue, int), DecodeError>,
) -> bool {
    match o {
        Ok((bv, end)) => r matches Ok((b, rend)) && bv == BValue::Bytes(b@) && rend == end,
        Err(e) => r == Err::<(Vec<u8>, usize), DecodeError>(e),
    }
}

/// As `decoded_matches`, for a run of list elements.
pub open spec fn items_match(
    r: Result<(Vec<Value>, usize), DecodeError>,
    o: Result<(Seq<BValue>, int), DecodeError>,
) -> bool {
    match o {
        Ok((bvs, end)) => r matches Ok((vs, rend)) && elems_view(vs@) == bvs && rend == end,
        Err(e) => r == Err::<(Vec<Value>, usize), DecodeError>(e),
    }
}

/// As `decoded_matches`, for a run of dictionary pairs.
pub open spec fn pairs_match(
    r: Result<(Vec<(Vec<u8>, Value)>, usize), DecodeError>,
    o: Result<(Seq<(Seq<u8>, BValue)>, int), DecodeError>,
) -> bool {
    match o {
        Ok((bps, end)) => r matches Ok((ps, rend)) && pairs_view(ps@) == bps && rend == end,
        Err(e) => r == Err::<(Vec<(Vec<u8>, Value)>, usize), DecodeError>(e),
    }
}

/// What decoding the elements still ahead of `cur` yields for the whole
/// run that began at `pos`, given the models `acc` of the elements already
/// decoded.
pub open spec fn items_continue(
    s: Seq<u8>,
    pos: int,
    cur: int,
    acc: Seq<BValue>,
    depth: nat,
) -> bool {
    match spec_decode_items(s, cur, depth) {
        Ok((rest, end)) => spec_decode_items(s, pos, depth) == Ok::<
            (Seq<BValue>, int),
            DecodeError,
        >((acc + rest, end)),
        Err(e) => spec_decode_items(s, pos, depth) == Err::<(Seq<BValue>, int), DecodeError>(e),
    }
}

/// As `items_continue`, for dictionary pairs.
pub open spec fn pairs_continue(
    s: Seq<u8>,
    pos: int,
    cur: int,
    acc: Seq<(Seq<u8>, BValue)>,
    depth: nat,
) -> bool {
    match spec_decode_pairs(s, cur, depth) {
        Ok((rest, end)) => spec_decode_pairs(s, pos, depth) == Ok::<
            (Seq<(Seq<u8>, BValue)>, int),
            DecodeError,
        >((acc + rest, end)),
        Err(e) => spec_decode_pairs(s, pos, depth) == Err::<
            (Seq<(Seq<u8>, BValue)>, int),
            DecodeError,
        >(e),
    }
}

/// Where the digit run at `pos` ends.
fn scan_digits(s: &[u8], pos: usize) -> (j: usize)
    requires
        pos <= s@.len(),
    ensures
        j as int == pos + count_digits(s@, pos as int),
{
    let mut j = pos;
    while j < s.len() && 48 <= s[j] && s[j] <= 57
        invariant
            pos <= j <= s@.len(),
            count_digits(s@, pos as int) == (j - pos) + count_digits(s@, j as int),
        decreases s@.len() - j,
    {
        j += 1;
    }
    j
}

/// The number the digits `s[pos..end]` write, as a 64-bit value, or that
/// it exceeds `u64::MAX`.
fn parse_digits(s: &[u8], pos: usize, end: usize) -> (r: (bool, u64))
    requires
        pos <= end <= s@.len(),
        forall|k: int| pos <= k < end ==> is_bencode_digit(#[trigger] s@[k]),
    ensures
        !r.0 ==> r.1 == digits_value(s@, pos as int, end as int),
        r.0 ==> digits_value(s@, pos as int, end as int) > u64::MAX,
{
    let mut acc: u64 = 0;
    let mut over = false;
    let mut k = pos;
    while k < end
        invariant
            pos <= k <= end <= s@.len(),
            forall|t: int| pos <= t < end ==> is_bencode_digit(#[trigger] s@[t]),
            !over ==> acc == digits_value(s@, pos as int, k as int),
            over ==> digits_value(s@, pos as int, k as int) > u64::MAX,
        decreases end - k,
    {
        let d = s[k] - 48;
        if over {
        } else if acc > 1844674407370955161u64 || (acc == 1844674407370955161u64 && d > 5) {
            over = true;
        } else {
            acc = acc * 10 + d as u64;
        }
        k += 1;
    }
    (over, acc)
}

/// Decodes the byte string production at `pos`, where a digit stands.
fn decode_bytes_at(s: &[u8], pos: usize) -> (r: Result<(Vec<u8>, usize), DecodeError>)
    requires
        pos < s@.len(),
        is_bencode_digit(s@[pos as int]),
    ensures
        raw_bytes_match(r, spec_decode_bytes(s@, pos as int)),
{
    proof {
        lemma_count_digits_run(s@, pos as int);
    }
    let j = scan_digits(s, pos);
    if j >= s.len() {
        return Err(DecodeError::Truncated(1));
    }
    let (over, acc) = parse_digits(s, pos, j);
    proof {
        lemma_digits_value_nonneg(s@, pos as int, j as int);
    }
    if over || acc > usize::MAX as u64 {
        return Err(DecodeError::InvalidLength);
    }
    let n = acc as usize;
    if s[j] != 58 {
        return Err(DecodeError::InvalidLength);
    }
    let avail = s.len() - (j + 1);
    if avail < n {
        return Err(DecodeError::Truncated(n - avail));
    }
    let payload = vstd::slice::slice_to_vec(vstd::slice::slice_subrange(s, j + 1, j + 1 + n));
    Ok((payload, j + 1 + n))
}

/// Decodes the integer production at `pos`, where `i` stands.
fn decode_int_at(s: &[u8], pos: usize) -> (r: Result<(Value, usize), DecodeError>)
    requires
        pos < s@.len(),
        s@[pos as int] == 105,
    ensures
        decoded_matches(r, spec_decode_int(s@, pos as int)),
{
    proof {
        lemma_count_digits_run(s@, pos as int + 1);
    }
    let slen = s.len();
    assert(pos < slen);
    let j = scan_digits(s, pos + 1);
    if j >= s.len() {
        return Err(DecodeError::Truncated(1));
    }
    if j == pos + 1 {
        return Err(DecodeError::InvalidLength);
    }
    let (over, acc) = parse_digits(s, pos + 1, j);
    proof {
        lemma_digits_value_nonneg(s@, pos as int + 1, j as int);
    }
    if over || acc > i64::MAX as u64 {
        return Err(DecodeError::InvalidLength);
    }
    if s[j] != 101 {
        return Err(DecodeError::InvalidLength);
    }
    Ok((Value::Int(acc as i64), j + 1))
}

/// Decodes one value at `pos` with `depth` nesting levels left, returning
/// exactly what the grammar says.
fn decode_value_at(s: &[u8], pos: usize, depth: usize) -> (r: Result<(Value, usize), DecodeError>)
    requires
        pos <= s@.len(),
    ensures
        decoded_matches(r, spec_decode_value(s@, pos as int, depth as nat)),
    decreases s@.len() - pos, 0int,
{
    if pos >= s.len() {
        return Err(DecodeError::Truncated(1));
    }
    let b = s[pos];
    if 48 <= b && b <= 57 {
        match decode_bytes_at(s, pos) {
            Ok((bytes, end)) => Ok((Value::Bytes(bytes), end)),
            Err(e) => Err(e),
        }
    } else if b == 105 {
        decode_int_at(s, pos)
    } else if b == 108 {
        if depth == 0 {
            return Err(DecodeError::TooDeep);
        }
        match decode_items_at(s, pos + 1, depth - 1) {
            Ok((items, end)) => Ok((Value::List(items), end)),
            Err(e) => Err(e),
        }
    } else if b == 100 {
        if depth == 0 {
            return Err(DecodeError::TooDeep);
        }
        match decode_pairs_at(s, pos + 1, depth - 1) {
            Ok((ps, end)) => Ok((Value::Dict(ps), end)),
            Err(e) => Err(e),
        }
    } else {
        Err(DecodeError::MalformedTag)
    }
}

/// Decodes list elements from `pos` up to the closing `e`. A loop, not a
/// recursion, so that the number of elements does not grow the stack.
fn decode_items_at(s: &[u8], pos: usize, depth: usize) -> (r: Result<
    (Vec<Value>, usize),
    DecodeError,
>)
    requires
        pos <= s@.len(),
    ensures
        items_match(r, spec_decode_items(s@, pos as int, depth as nat)),
    decreases s@.len() - pos, 1int,
{
    let mut items: Vec<Value> = Vec::new();
    let mut cur = pos;
    proof {
        assert(elems_view(items@) =~= Seq::<BValue>::empty());
        match spec_decode_items(s@, pos as int, depth as nat) {
            Ok((rest, end)) => {
                assert(elems_view(items@) + rest =~= rest);
            },
            Err(_) => {},
        }
    }
    loop
        invariant
            pos <= cur <= s@.len(),
            items_continue(s@, pos as int, cur as int, elems_view(items@), depth as nat),
        decreases s@.len() - cur,
    {
        if cur >= s.len() {
            return Err(DecodeError::Truncated(1));
        }
        let b = s[cur];
        if b == 101 {
            proof {
                assert(elems_view(items@) + Seq::<BValue>::empty() =~= elems_view(items@));
            }
            return Ok((items, cur + 1));
        }
        if !(48 <= b && b <= 57 || b == 105 || b == 108 || b == 100) {
            return Err(DecodeError::Unterminated);
        }
        match decode_value_at(s, cur, depth) {
            Err(e) => {
                return Err(e);
            },
            Ok((v, end)) => {
                proof {
                    lemma_decode_value_bounds(s@, cur as int, depth as nat);
                    match spec_decode_items(s@, end as int, depth as nat) {
                        Ok((rest2, _e2)) => {
                            assert(elems_view(items@.push(v)) =~= elems_view(items@).push(
                                v.bview(),
                            ));
                            assert(elems_view(items@) + (seq![v.bview()] + rest2) =~= elems_view(
                                items@,
                            ).push(v.bview()) + rest2);
                        },
                        Err(_) => {},
                    }
                }
                items.push(v);
                cur = end;
            },
        }
    }
}

/// Decodes dictionary pairs from `pos` up to the closing `e`. A loop, as
/// `decode_items_at` is.
fn decode_pairs_at(s: &[u8], pos: usize, depth: usize) -> (r: Result<
    (Vec<(Vec<u8>, Value)>, usize),
    DecodeError,
>)
    requires
        pos <= s@.len(),
    ensures
        pairs_match(r, spec_decode_pairs(s@, pos as int, depth as nat)),
    decreases s@.len() - pos, 1int,
{
    let mut ps: Vec<(Vec<u8>, Value)> = Vec::new();
    let mut cur = pos;
    proof {
        assert(pairs_view(ps@) =~= Seq::<(Seq<u8>, BValue)>::empty());
        match spec_decode_pairs(s@, pos as int, depth as nat) {
            Ok((rest, end)) => {
                assert(pairs_view(ps@) + rest =~= rest);
            },
            Err(_) => {},
        }
    }
    loop
        invariant
            pos <= cur <= s@.len(),
            pairs_continue(s@, pos as int, cur as int, pairs_view(ps@), depth as nat),
        decreases s@.len() - cur,
    {
        if cur >= s.len() {
            return Err(DecodeError::Truncated(1));
        }
        let b = s[cur];
        if b == 101 {
            proof {
                assert(pairs_view(ps@) + Seq::<(Seq<u8>, BValue)>::empty() =~= pairs_view(ps@));
            }
            return Ok((ps, cur + 1));
        }
        if !(48 <= b && b <= 57) {
            return Err(DecodeError::Unterminated);
        }
        let (key, kend) = match decode_bytes_at(s, cur) {
            Err(e) => {
                return Err(e);
            },
            Ok(kr) => kr,
        };
        proof {
            lemma_decode_bytes_bounds(s@, cur as int);
        }
        match decode_value_at(s, kend, depth) {
            Err(e) => {
                return Err(e);
            },
            Ok((v, vend)) => {
                proof {
                    lemma_decode_value_bounds(s@, kend as int, depth as nat);
                    match spec_decode_pairs(s@, vend as int, depth as nat) {
                        Ok((rest2, _e2)) => {
                            assert(pairs_view(ps@.push((key, v))) =~= pairs_view(ps@).push(
                                (key@, v.bview()),
                            ));
                            assert(pairs_view(ps@) + (seq![(key@, v.bview())] + rest2)
                                =~= pairs_view(ps@).push((key@, v.bview())) + rest2);
                        },
                        Err(_) => {},
                    }
                }
                ps.push((key, v));
                cur = vend;
            },
        }
    }
}

/// Decodes one bencode value from the front of `input`: the value and how
/// many bytes it took, or why there is none. The outcome is exactly what
/// the grammar `spec_decode_value` says of the input.
pub fn decode(input: &[u8]) -> (r: Result<(Value, usize), DecodeError>)
    ensures
        decoded_matches(r, spec_decode_value(input@, 0, MAX_DEPTH as nat)),
        r matches Ok((v, consumed)) ==> 0 < consumed <= input@.len(),
{
    proof {
        lemma_decode_value_bounds(input@, 0, MAX_DEPTH as nat);
    }
    decode_value_at(input, 0, MAX_DEPTH)
}

} // verus!
