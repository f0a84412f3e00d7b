//! What the scheduler's owner learns from one call of the annotation service:
//! how an answer is judged, which counters it carries and which tags.

use vstd::prelude::*;
use crate::quota::QuotaState;
use crate::scheduler::AnnotationError;

verus! {

/// How an answer with the HTTP status `code` is judged: `None` for a status
/// of success (200 to 299); a refused call for 429; an unreachable service for
/// every other status.
pub open spec fn status_failure(code: u16) -> Option<AnnotationError> {
    if 200 <= code < 300 {
        None
    } else if code == 429 {
        Some(AnnotationError::RateLimited)
    } else {
        Some(AnnotationError::NetworkError)
    }
}

/// Judges an answer by its HTTP status.
pub fn classify_status(code: u16) -> (r: Option<AnnotationError>)
    ensures
        r == status_failure(code),
{
    if code >= 500 && code < 600 {
        Some(AnnotationError::NetworkError)
    } else if code >= 200 && code < 300 {
        None
    } else if code == 429 {
        Some(AnnotationError::RateLimited)
    } else {
        Some(AnnotationError::NetworkError)
    }
}

/// Whether `c` is one of the digits `0` to `9`.
pub open spec fn is_digit(c: char) -> bool {
    '0' <= c <= '9'
}

/// The number that a string of digits stands for in base ten.
pub open spec fn digits_value(s: Seq<char>) -> int
    decreases s.len(),
{
    if s.len() == 0 {
        0
    } else {
        10 * digits_value(s.drop_last()) + (s.last() as int - '0' as int)
    }
}

/// Every character of `s` is a digit.
pub open spec fn all_digits(s: Seq<char>) -> bool {
    forall|i: int| 0 <= i < s.len() ==> is_digit(#[trigger] s[i])
}

/// The text without the `+` that it may begin with.
pub open spec fn unsigned_part(s: Seq<char>) -> Seq<char> {
    if s.len() > 0 && s[0] == '+' {
        s.drop_first()
    } else {
        s
    }
}

/// The counter that a text stands for: one digit or more, which may follow a
/// `+`, standing for a number that fits in `u32`. Any other text stands for
/// none; so does a text with a `-`, since no counter is negative.
pub open spec fn counter_of(s: Seq<char>) -> Option<u32> {
    let digits = unsigned_part(s);
    if digits.len() > 0 && all_digits(digits) && digits_value(digits) <= u32::MAX {
        Some(digits_value(digits) as u32)
    } else {
        None
    }
}

/// A longer string of digits stands for no smaller number than its beginning.
pub proof fn lemma_digits_value_grows(s: Seq<char>, n: int)
    requires
        0 <= n <= s.len(),
        forall|i: int| 0 <= i < s.len() ==> is_digit(#[trigger] s[i]),
    ensures
        0 <= digits_value(s.take(n)) <= digits_value(s),
    decreases s.len() - n,
{
    if n == s.len() {
        assert(s.take(n) =~= s);
        lemma_digits_value_nonnegative(s);
    } else {
        let longer = s.take(n + 1);
        assert(longer.drop_last() =~= s.take(n));
        assert(longer.last() == s[n]);
        lemma_digits_value_grows(s, n + 1);
        lemma_digits_value_nonnegative(s.take(n));
    }
}

/// A string of digits stands for no negative number.
pub proof fn lemma_digits_value_nonnegative(s: Seq<char>)
    requires
        forall|i: int| 0 <= i < s.len() ==> is_digit(#[trigger] s[i]),
    ensures
        0 <= digits_value(s),
    decreases s.len(),
{
    if s.len() > 0 {
        assert forall|i: int| 0 <= i < s.drop_last().len() implies is_digit(
            #[trigger] s.drop_last()[i],
        ) by {
            assert(s.drop_last()[i] == s[i]);
        }
        lemma_digits_value_nonnegative(s.drop_last());
        assert(is_digit(s[s.len() - 1]));
    }
}

/// Reads a counter from a text.
pub fn parse_counter(text: &str) -> (r: Option<u32>)
    ensures
        r == counter_of(text@),
{
    let mut value: u64 = 0;
    let mut at_start = true;
    let mut any = false;
    let ghost whole = text@;
    let ghost digits = unsigned_part(whole);
    let ghost mut off = 0int;
    for c in it: text.chars()
        invariant
            it.seq() == whole,
            whole == text@,
            digits == unsigned_part(whole),
            at_start == (it.index() == 0),
            0 <= off <= 1,
            off == 1 <==> it.index() > 0 && whole[0] == '+',
            any == (it.index() > off),
            off <= it.index() || it.index() == 0,
            it.index() > 0 ==> it.index() - off <= digits.len(),
            forall|i: int| 0 <= i < it.index() - off ==> is_digit(#[trigger] digits[i]),
            value == digits_value(digits.take(it.index() - off)),
            value <= u32::MAX,
    {
        let ghost i = it.index() as int;
        if at_start && c == '+' {
            at_start = false;
            proof {
                off = 1;
                assert(digits.take(0) =~= Seq::<char>::empty());
            }
        } else {
            let ghost k = i - off;
            assert(whole[i] == c);
            assert(0 <= k < digits.len() && digits[k] == c);
            if !(c >= '0' && c <= '9') {
                assert(!is_digit(digits[k]));
                return None;
            }
            let digit: u64 = (c as u32 - '0' as u32) as u64;
            let next: u64 = value * 10 + digit;
            proof {
                let longer = digits.take(k + 1);
                assert(longer.drop_last() =~= digits.take(k));
                assert(longer.last() == c);
                assert(next == digits_value(longer));
            }
            if next > u32::MAX as u64 {
                proof {
                    if all_digits(digits) {
                        lemma_digits_value_grows(digits, k + 1);
                    }
                }
                return None;
            }
            value = next;
            at_start = false;
            any = true;
        }
    }
    proof {
        if whole.len() > 0 {
            assert(digits.take(whole.len() - off) =~= digits);
        } else {
            assert(digits.take(0) =~= digits);
        }
    }
    if any {
        Some(value as u32)
    } else {
        None
    }
}

/// The counter that a number of the answer stands for: the number itself if
/// it fits in `u32`, none otherwise.
pub open spec fn counter_of_number(n: i64) -> Option<u32> {
    if 0 <= n <= u32::MAX {
        Some(n as u32)
    } else {
        None
    }
}

/// The counters that the header of an answer carries. The service writes the
/// two limits as text and the two remainders as numbers. There are counters
/// only if all four fields are there and each stands for a counter.
pub open spec fn header_quota(
    short_limit: Option<Seq<char>>,
    short_remaining: Option<i64>,
    long_limit: Option<Seq<char>>,
    long_remaining: Option<i64>,
) -> Option<QuotaState> {
    match (short_limit, short_remaining, long_limit, long_remaining) {
        (Some(sl), Some(sr), Some(ll), Some(lr)) => match (
            counter_of(sl),
            counter_of_number(sr),
            counter_of(ll),
            counter_of_number(lr),
        ) {
            (Some(a), Some(b), Some(c), Some(d)) => Some(
                QuotaState { short_limit: a, short_remaining: b, long_limit: c, long_remaining: d },
            ),
            _ => None,
        },
        _ => None,
    }
}

/// The text of an optional string.
pub open spec fn text_of(s: Option<&str>) -> Option<Seq<char>> {
    match s {
        Some(t) => Some(t@),
        None => None,
    }
}

/// Reads a counter from a number of the answer.
pub fn counter_from_number(n: i64) -> (r: Option<u32>)
    ensures
        r == counter_of_number(n),
{
    if n >= 0 && n <= u32::MAX as i64 {
        Some(n as u32)
    } else {
        None
    }
}

/// Reads the counters from the header fields of an answer. An answer whose
/// header lacks a field, or holds one that is no counter, is unreadable.
pub fn quota_from_header(
    short_limit: Option<&str>,
    short_remaining: Option<i64>,
    long_limit: Option<&str>,
    long_remaining: Option<i64>,
) -> (r: Result<QuotaState, AnnotationError>)
    ensures
        match header_quota(
            text_of(short_limit),
            short_remaining,
            text_of(long_limit),
            long_remaining,
        ) {
            Some(q) => r == Ok::<QuotaState, AnnotationError>(q),
            None => r == Err::<QuotaState, AnnotationError>(AnnotationError::InvalidResponse),
        },
{
    let sl = match short_limit {
        Some(t) => parse_counter(t),
        None => None,
    };
    let sr = match short_remaining {
        Some(n) => counter_from_number(n),
        None => None,
    };
    let ll = match long_limit {
        Some(t) => parse_counter(t),
        None => None,
    };
    let lr = match long_remaining {
        Some(n) => counter_from_number(n),
        None => None,
    };
    match (sl, sr, ll, lr) {
        (Some(a), Some(b), Some(c), Some(d)) => Ok(
            QuotaState { short_limit: a, short_remaining: b, long_limit: c, long_remaining: d },
        ),
        _ => Err(AnnotationError::InvalidResponse),
    }
}

/// The modification time to give an image back after its tags were written:
/// the time it had before, advanced by one second, so that watchers of the
/// time see one change and no more.
pub fn restored_mtime(seconds_before: i64) -> (r: i64)
    ensures
        r == (if seconds_before < i64::MAX {
            seconds_before + 1
        } else {
            i64::MAX as int
        }),
{
    if seconds_before < i64::MAX {
        seconds_before + 1
    } else {
        i64::MAX
    }
}

} // verus!
