//! Parsing a token as a non-negative integer, the way the standard
//! library's `usize` parser reads it: an optional leading `+`, then at
//! least one decimal digit, and a value that fits in `usize`.

use vstd::prelude::*;
use vstd::string::StrSliceExecFns;
use vstd::string::StringExecFns;

verus! {

/// Why a token failed to parse as a non-negative integer.
#[derive(Clone, Copy, Debug, PartialEq, Eq, Structural)]
pub enum NumError {
    /// The token was empty.
    Empty,
    /// The token held a character that is not a decimal digit (or was only
    /// a sign).
    InvalidDigit,
    /// The value does not fit in `usize`.
    Overflow,
}

/// The failure named by `k`, in words; the texts are those of the standard
/// library's integer-parse errors.
pub open spec fn num_error_text(k: NumError) -> Seq<char> {
    match k {
        NumError::Empty => "cannot parse integer from empty string"@,
        NumError::InvalidDigit => "invalid digit found in string"@,
        NumError::Overflow => "number too large to fit in target type"@,
    }
}

impl NumError {
    /// The failure, in words.
    pub fn describe(&self) -> (r: String)
        ensures
            r@ == num_error_text(*self),
    {
        match self {
            NumError::Empty => String::from_str("cannot parse integer from empty string"),
            NumError::InvalidDigit => String::from_str("invalid digit found in string"),
            NumError::Overflow => String::from_str("number too large to fit in target type"),
        }
    }
}

/// Whether `c` is a decimal digit.
pub open spec fn is_digit(c: char) -> bool {
    48 <= c as u32 && c as u32 <= 57
}

/// The value of the decimal digit `c`.
pub open spec fn digit_val(c: char) -> int {
    c as u32 - 48
}

/// Whether every character of `t` is a decimal digit.
pub open spec fn all_digits(t: Seq<char>) -> bool {
    forall|i: int| 0 <= i < t.len() ==> is_digit(t[i])
}

/// The value of the digit string `t`, most significant digit first.
pub open spec fn digits_val(t: Seq<char>) -> int
    decreases t.len(),
{
    if t.len() == 0 {
        0
    } else {
        digits_val(t.drop_last()) * 10 + digit_val(t.last())
    }
}

/// The token without its optional leading `+` sign.
pub open spec fn num_body(t: Seq<char>) -> Seq<char> {
    if t.len() > 0 && t[0] == '+' {
        t.skip(1)
    } else {
        t
    }
}

/// What parsing `t` as a non-negative `usize` yields: the value, or the
/// reason it cannot be one. Emptiness is reported first, then a bad
/// character, then a value out of range.
pub open spec fn parse_usize_spec(t: Seq<char>) -> Result<int, NumError> {
    if t.len() == 0 {
        Err(NumError::Empty)
    } else if num_body(t).len() == 0 {
        Err(NumError::InvalidDigit)
    } else if !all_digits(num_body(t)) {
        Err(NumError::InvalidDigit)
    } else if digits_val(num_body(t)) > usize::MAX {
        Err(NumError::Overflow)
    } else {
        Ok(digits_val(num_body(t)))
    }
}

/// The value of a digit string is never negative.
pub proof fn lemma_digits_val_nonneg(t: Seq<char>)
    requires
        all_digits(t),
    ensures
        digits_val(t) >= 0,
    decreases t.len(),
{
    if t.len() > 0 {
        assert forall|i: int| 0 <= i < t.drop_last().len() implies is_digit(t.drop_last()[i]) by {
            assert(t.drop_last()[i] == t[i]);
        }
        lemma_digits_val_nonneg(t.drop_last());
    }
}

/// Extending a digit string on the right can only grow its value.
pub proof fn lemma_digits_val_prefix(t: Seq<char>, k: int)
    requires
        all_digits(t),
        0 <= k <= t.len(),
    ensures
        digits_val(t.take(k)) <= digits_val(t),
    decreases t.len() - k,
{
    if k == t.len() {
        assert(t.take(k) =~= t);
    } else {
        lemma_digits_val_prefix(t, k + 1);
        let u = t.take(k + 1);
        assert(u.drop_last() =~= t.take(k));
        assert(u.last() == t[k]);
        assert forall|i: int| 0 <= i < t.take(k).len() implies is_digit(t.take(k)[i]) by {
            assert(t.take(k)[i] == t[i]);
        }
        lemma_digits_val_nonneg(t.take(k));
        assert(digits_val(t.take(k)) <= digits_val(t.take(k)) * 10 + digit_val(t[k]));
    }
}

/// Parse `s` as a non-negative `usize`, exactly as `parse_usize_spec`
/// describes the token.
pub fn parse_usize_tok(s: &str) -> (r: Result<usize, NumError>)
    ensures
        match r {
            Ok(v) => parse_usize_spec(s@) == Ok::<int, NumError>(v as int),
            Err(e) => parse_usize_spec(s@) == Err::<int, NumError>(e),
        },
{
    let n = s.unicode_len();
    if n == 0 {
        return Err(NumError::Empty);
    }
    let start: usize = if s.get_char(0) == '+' {
        1
    } else {
        0
    };
    proof {
        assert(num_body(s@) =~= s@.skip(start as int));
    }
    if start == n {
        return Err(NumError::InvalidDigit);
    }
    let mut i = start;
    while i < n
        invariant
            start <= i <= n,
            n == s@.len(),
            num_body(s@) == s@.skip(start as int),
            forall|j: int| start <= j < i ==> is_digit(s@[j]),
        decreases n - i,
    {
        let u = s.get_char(i) as u32;
        if u < 48 || u > 57 {
            proof {
                assert(num_body(s@) =~= s@.skip(start as int));
                assert(num_body(s@)[i - start] == s@[i as int]);
                assert(!is_digit(s@[i as int]));
            }
            return Err(NumError::InvalidDigit);
        }
        i += 1;
    }
    let ghost body = s@.skip(start as int);
    proof {
        assert(num_body(s@) =~= body);
        assert forall|j: int| 0 <= j < body.len() implies is_digit(body[j]) by {
            assert(body[j] == s@[j + start]);
        }
        assert(all_digits(body));
    }
    let mut acc: usize = 0;
    let mut i = start;
    while i < n
        invariant
            start <= i <= n,
            n == s@.len(),
            start < n,
            body == s@.skip(start as int),
            num_body(s@) == body,
            all_digits(body),
            forall|j: int| start <= j < n ==> is_digit(s@[j]),
            acc == digits_val(body.take(i - start)),
        decreases n - i,
    {
        let d = (s.get_char(i) as u32 - 48) as usize;
        proof {
            let u = body.take(i - start + 1);
            assert(u.drop_last() =~= body.take(i - start));
            assert(u.last() == body[i - start]);
            assert(body[i - start] == s@[i as int]);
            assert(digits_val(u) == acc * 10 + d);
        }
        if acc > usize::MAX / 10 || (acc == usize::MAX / 10 && d > usize::MAX % 10) {
            proof {
                assert(acc * 10 + d > usize::MAX) by {
                    assert(usize::MAX == (usize::MAX / 10) * 10 + usize::MAX % 10);
                }
                lemma_digits_val_prefix(body, i - start + 1);
                assert(digits_val(body) > usize::MAX);
            }
            return Err(NumError::Overflow);
        }
        proof {
            assert(acc * 10 + d <= usize::MAX) by {
                assert(usize::MAX == (usize::MAX / 10) * 10 + usize::MAX % 10);
            }
        }
        acc = acc * 10 + d;
        i += 1;
    }
    proof {
        assert(body.take(n - start) =~= body);
    }
    Ok(acc)
}

} // verus!
