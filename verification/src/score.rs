//! Score extraction from judge diagnostics.
//!
//! The judge writes a line of the form `Score = <digits>` somewhere in
//! its diagnostic output. Extraction scans the raw bytes for the first
//! position where that pattern starts and reads the maximal digit run
//! that follows it. Later occurrences of the pattern are ignored.

use vstd::prelude::*;

use crate::CaseError;

verus! {

/// A decimal digit byte, `'0'` through `'9'`.
pub open spec fn is_digit_byte(b: u8) -> bool {
    48 <= b <= 57
}

/// The score pattern starts at position `i` of `t`: the eight bytes
/// `Score = ` followed by at least one decimal digit.
pub open spec fn score_match_at(t: Seq<u8>, i: int) -> bool {
    &&& 0 <= i
    &&& i + 9 <= t.len()
    &&& t[i] == 83
    &&& t[i + 1] == 99
    &&& t[i + 2] == 111
    &&& t[i + 3] == 114
    &&& t[i + 4] == 101
    &&& t[i + 5] == 32
    &&& t[i + 6] == 61
    &&& t[i + 7] == 32
    &&& is_digit_byte(t[i + 8])
}

/// The position of the first score pattern at or after `i`, if any.
pub open spec fn find_match_from(t: Seq<u8>, i: int) -> Option<int>
    decreases t.len() - i,
{
    if i + 9 > t.len() {
        None
    } else if score_match_at(t, i) {
        Some(i)
    } else {
        find_match_from(t, i + 1)
    }
}

/// The end of the digit run starting at `j`: the first position at or
/// after `j` that holds no digit (or the end of the text).
pub open spec fn digit_run_end(t: Seq<u8>, j: int) -> int
    decreases t.len() - j,
{
    if 0 <= j < t.len() && is_digit_byte(t[j]) {
        digit_run_end(t, j + 1)
    } else {
        j
    }
}

/// The numeric value of a run of digit bytes, most significant first.
pub open spec fn digits_value(s: Seq<u8>) -> nat
    decreases s.len(),
{
    if s.len() == 0 {
        0
    } else {
        digits_value(s.drop_last()) * 10 + (s.last() - 48) as nat
    }
}

/// The value of the digit run that follows the score pattern at `i`.
pub open spec fn found_score(t: Seq<u8>, i: int) -> nat {
    digits_value(t.subrange(i + 8, digit_run_end(t, i + 8)))
}

/// What extraction returns on text `t`: the value of the first score
/// pattern; `ScoreNotFound` when the pattern occurs nowhere in `t`;
/// `ScoreOverflow` when the value does not fit in 64 bits.
pub open spec fn extracted_score(t: Seq<u8>) -> Result<u64, CaseError> {
    match find_match_from(t, 0) {
        None => Err(CaseError::ScoreNotFound),
        Some(i) => if found_score(t, i) > u64::MAX {
            Err(CaseError::ScoreOverflow)
        } else {
            Ok(found_score(t, i) as u64)
        },
    }
}

/// A digit run is worth at least as much as any of its prefixes.
proof fn lemma_digits_value_prefix(s: Seq<u8>, n: int)
    requires
        0 <= n <= s.len(),
    ensures
        digits_value(s.take(n)) <= digits_value(s),
    decreases s.len(),
{
    if n == s.len() {
        assert(s.take(n) =~= s);
    } else {
        lemma_digits_value_prefix(s.drop_last(), n);
        assert(s.drop_last().take(n) =~= s.take(n));
    }
}

/// The digit run end lies between its start and the end of the text,
/// and everything before it is a digit.
proof fn lemma_digit_run_end_bounds(t: Seq<u8>, j: int)
    requires
        0 <= j <= t.len(),
    ensures
        j <= digit_run_end(t, j) <= t.len(),
        forall|k: int| j <= k < digit_run_end(t, j) ==> is_digit_byte(t[k]),
    decreases t.len() - j,
{
    if j < t.len() && is_digit_byte(t[j]) {
        lemma_digit_run_end_bounds(t, j + 1);
    }
}

/// Reads the digit run that follows the score pattern at `start`.
fn parse_score_digits(text: &[u8], start: usize) -> (r: Result<u64, CaseError>)
    requires
        score_match_at(text@, start as int),
    ensures
        r == (if found_score(text@, start as int) > u64::MAX {
            Err::<u64, CaseError>(CaseError::ScoreOverflow)
        } else {
            Ok::<u64, CaseError>(found_score(text@, start as int) as u64)
        }),
{
    let n = text.len();
    let ghost t = text@;
    let ghost run_start = start + 8int;
    let mut j: usize = start + 8;
    let mut val: u64 = 0;
    while j < n && 48 <= text[j] && text[j] <= 57
        invariant
            n == t.len(),
            t == text@,
            start + 8 <= j <= n,
            score_match_at(t, start as int),
            run_start == start + 8int,
            digit_run_end(t, run_start) == digit_run_end(t, j as int),
            val == digits_value(t.subrange(run_start, j as int)),
        decreases n - j,
    {
        let d: u8 = text[j] - 48;
        proof {
            lemma_digit_run_end_bounds(t, j as int);
            assert(t.subrange(run_start, j + 1).drop_last() =~= t.subrange(run_start, j as int));
            assert(digits_value(t.subrange(run_start, j + 1)) == val * 10 + d);
        }
        if val > 1844674407370955161 || (val == 1844674407370955161 && d > 5) {
            proof {
                let e = digit_run_end(t, run_start);
                assert(digit_run_end(t, j as int) == digit_run_end(t, j + 1));
                lemma_digit_run_end_bounds(t, j + 1);
                assert(j + 1 <= e);
                lemma_digits_value_prefix(t.subrange(run_start, e), j + 1 - run_start);
                assert(t.subrange(run_start, e).take(j + 1 - run_start) =~= t.subrange(
                    run_start,
                    j + 1,
                ));
                assert(found_score(t, start as int) > u64::MAX);
            }
            return Err(CaseError::ScoreOverflow);
        }
        val = val * 10 + (d as u64);
        j = j + 1;
    }
    proof {
        assert(digit_run_end(t, j as int) == j);
        assert(found_score(t, start as int) == val);
    }
    Ok(val)
}

/// Scans `text` for the first `Score = <digits>` pattern and returns
/// the value of its digit run; `ScoreNotFound` when the pattern is
/// absent, `ScoreOverflow` when the digit run exceeds `u64::MAX`.
pub fn extract_score(text: &[u8]) -> (r: Result<u64, CaseError>)
    ensures
        r == extracted_score(text@),
{
    let n = text.len();
    if n < 9 {
        return Err(CaseError::ScoreNotFound);
    }
    let mut i: usize = 0;
    while i <= n - 9
        invariant
            9 <= n == text@.len(),
            i <= n - 8,
            find_match_from(text@, 0) == find_match_from(text@, i as int),
        decreases n - i,
    {
        if text[i] == 83 && text[i + 1] == 99 && text[i + 2] == 111 && text[i + 3] == 114 && text[i
            + 4] == 101 && text[i + 5] == 32 && text[i + 6] == 61 && text[i + 7] == 32 && 48 <= text[i
            + 8] && text[i + 8] <= 57 {
            assert(score_match_at(text@, i as int));
            assert(find_match_from(text@, i as int) == Some(i as int));
            return parse_score_digits(text, i);
        }
        assert(!score_match_at(text@, i as int));
        i = i + 1;
    }
    assert(find_match_from(text@, i as int) is None);
    Err(CaseError::ScoreNotFound)
}

} // verus!
