//! Scores as they are written, and the fractions they stand for.
//!
//! A score is written as a percentage (`87`, `87%`, `87.5`) or as a decimal
//! fraction (`0.875`). It stands for a fraction between nothing and one, which
//! is counted in millionths. A number without a percent sign is a fraction
//! where it is at most one, and a percentage above that. Digits beyond the
//! eighth after the point are not read.

use vstd::prelude::*;
use crate::course::UNIT;
use crate::text::{
    all_digits, all_digits_from, chars_of, digit_value, digits_value, is_digit, read_digits, trim,
    trimmed,
};

verus! {

/// Why a text is no score.
#[derive(Clone, Copy, Debug, PartialEq, Eq, Structural)]
pub enum ScoreError {
    /// The text is not a number, with or without a percent sign.
    Malformed,
    /// The number is more than the whole.
    OutOfRange,
}

/// A written score without its percent sign.
pub open spec fn number_part(t: Seq<char>) -> Seq<char> {
    if t.len() > 0 && t.last() == '%' {
        t.drop_last()
    } else {
        t
    }
}

/// The place of the first point in `b`, or the length of `b`.
pub open spec fn point_index(b: Seq<char>) -> int
    decreases b.len(),
{
    if b.len() == 0 || b[0] == '.' {
        0
    } else {
        1 + point_index(b.drop_first())
    }
}

/// The digits in front of the point.
pub open spec fn whole_digits(b: Seq<char>) -> Seq<char> {
    b.take(point_index(b))
}

/// The digits behind the point.
pub open spec fn fraction_digits(b: Seq<char>) -> Seq<char> {
    if point_index(b) < b.len() {
        b.skip(point_index(b) + 1)
    } else {
        Seq::empty()
    }
}

/// `b` is a decimal number: digits, at most one point among them, and at
/// least one digit.
pub open spec fn is_decimal(b: Seq<char>) -> bool {
    &&& all_digits(whole_digits(b))
    &&& all_digits(fraction_digits(b))
    &&& whole_digits(b).len() + fraction_digits(b).len() > 0
}

/// The first eight digits of `f`, with zeros where `f` is shorter.
pub open spec fn eight_digits(f: Seq<char>) -> Seq<char> {
    Seq::new(
        8,
        |i: int|
            if i < f.len() {
                f[i]
            } else {
                '0'
            },
    )
}

/// The decimal number `b`, counted in hundred-millionths, without what
/// follows its eighth digit after the point.
pub open spec fn hundred_millionths(b: Seq<char>) -> int {
    digits_value(whole_digits(b)) * 100_000_000 + digits_value(eight_digits(fraction_digits(b)))
}

/// The fraction, in millionths, that the trimmed text `t` stands for.
pub open spec fn score_of_trimmed(t: Seq<char>) -> Result<int, ScoreError> {
    let b = number_part(t);
    if !is_decimal(b) {
        Err(ScoreError::Malformed)
    } else {
        let n = hundred_millionths(b);
        let percent = b.len() < t.len() || n > 100_000_000;
        let millionths = if percent {
            n / 10_000
        } else {
            n / 100
        };
        if millionths > UNIT as int {
            Err(ScoreError::OutOfRange)
        } else {
            Ok(millionths)
        }
    }
}

/// The fraction, in millionths, that `s` stands for; a blank text stands for
/// no score.
pub open spec fn score_of(s: Seq<char>) -> Result<Option<int>, ScoreError> {
    let t = trimmed(s);
    if t.len() == 0 {
        Ok(None)
    } else {
        match score_of_trimmed(t) {
            Ok(n) => Ok(Some(n)),
            Err(e) => Err(e),
        }
    }
}

/// The score that an optional text stands for.
pub open spec fn maybe_score_of(s: Option<Seq<char>>) -> Result<Option<int>, ScoreError> {
    match s {
        Some(t) => score_of(t),
        None => Ok(None),
    }
}

proof fn lemma_point_index(b: Seq<char>, k: int)
    requires
        0 <= k <= b.len(),
        forall|i: int| 0 <= i < k ==> b[i] != '.',
        k == b.len() || b[k] == '.',
    ensures
        point_index(b) == k,
    decreases b.len(),
{
    if k > 0 {
        let t = b.drop_first();
        assert(b[0] != '.');
        assert forall|i: int| 0 <= i < k - 1 implies t[i] != '.' by {
            assert(t[i] == b[i + 1]);
        }
        lemma_point_index(t, k - 1);
    }
}

/// Ten to the power `k`, for the first few `k`.
pub open spec fn pow10(k: int) -> int
    decreases k,
{
    if k <= 0 {
        1
    } else {
        10 * pow10(k - 1)
    }
}

/// Reads the fraction that a written score stands for.
pub fn parse_score_str(s: &str) -> (r: Result<Option<u32>, ScoreError>)
    ensures
        match r {
            Ok(Some(n)) => score_of(s@) == Ok::<Option<int>, ScoreError>(Some(n as int)) && n <= UNIT,
            Ok(None) => score_of(s@) == Ok::<Option<int>, ScoreError>(None),
            Err(e) => score_of(s@) == Err::<Option<int>, ScoreError>(e),
        },
{
    let t = chars_of(trim(s));
    let n = t.len();
    if n == 0 {
        return Ok(None);
    }
    let has_sign = t[n - 1] == '%';
    let end: usize = if has_sign {
        n - 1
    } else {
        n
    };
    let ghost b = number_part(t@);
    assert(b =~= t@.take(end as int));
    // The place of the point.
    let mut k: usize = 0;
    while k < end && t[k] != '.'
        invariant
            k <= end <= n == t@.len(),
            b == t@.take(end as int),
            forall|i: int| 0 <= i < k ==> b[i] != '.',
        decreases end - k,
    {
        k += 1;
    }
    proof {
        lemma_point_index(b, k as int);
    }
    // The digits before and after it, each as a list of its own.
    let mut whole: Vec<char> = Vec::new();
    let mut i: usize = 0;
    while i < k
        invariant
            i <= k <= end <= n == t@.len(),
            b == t@.take(end as int),
            whole@ == b.take(i as int),
        decreases k - i,
    {
        whole.push(t[i]);
        assert(whole@ =~= b.take(i + 1));
        i += 1;
    }
    let mut frac: Vec<char> = Vec::new();
    let from: usize = if k < end {
        k + 1
    } else {
        end
    };
    i = from;
    while i < end
        invariant
            from <= i <= end <= n == t@.len(),
            b == t@.take(end as int),
            frac@ == b.subrange(from as int, i as int),
        decreases end - i,
    {
        frac.push(t[i]);
        assert(frac@ =~= b.subrange(from as int, i + 1));
        i += 1;
    }
    assert(whole@ == whole_digits(b));
    assert(frac@ =~= fraction_digits(b));
    assert(whole@.skip(0) =~= whole@);
    assert(frac@.skip(0) =~= frac@);
    if !all_digits_from(&frac, 0) || whole.len() + frac.len() == 0 {
        return Err(ScoreError::Malformed);
    }
    let units = match read_digits(&whole, 0) {
        None => {
            return Err(ScoreError::Malformed);
        },
        Some(u) => u,
    };
    // The first eight digits after the point.
    let ghost padded = eight_digits(frac@);
    let mut part: u32 = 0;
    let mut j: usize = 0;
    assert(padded.take(0) =~= Seq::<char>::empty());
    while j < 8
        invariant
            j <= 8,
            padded == eight_digits(frac@),
            all_digits(frac@),
            part == digits_value(padded.take(j as int)),
            part < pow10(j as int),
        decreases 8 - j,
    {
        let d: u32 = if j < frac.len() {
            assert(is_digit(frac@[j as int]));
            frac[j] as u32 - '0' as u32
        } else {
            0
        };
        proof {
            assert(padded.take(j + 1).drop_last() =~= padded.take(j as int));
            assert(padded.take(j + 1).last() == padded[j as int]);
            assert(digit_value(padded[j as int]) == d);
            assert(pow10(8) == 100_000_000) by {
                reveal_with_fuel(pow10, 10);
            }
            assert(pow10(j as int) <= 10_000_000) by {
                reveal_with_fuel(pow10, 10);
            }
        }
        part = part * 10 + d;
        j += 1;
    }
    assert(padded.take(8) =~= padded);
    assert(pow10(8) == 100_000_000) by {
        reveal_with_fuel(pow10, 10);
    }
    if units > 100 {
        // More than a hundred, which is more than the whole either way.
        return Err(ScoreError::OutOfRange);
    }
    let total: u64 = (units as u64) * 100_000_000 + part as u64;
    let percent = has_sign || total > 100_000_000;
    let millionths: u64 = if percent {
        total / 10_000
    } else {
        total / 100
    };
    if millionths > UNIT as u64 {
        Err(ScoreError::OutOfRange)
    } else {
        Ok(Some(millionths as u32))
    }
}

/// Reads an optional score; no text and a blank text both stand for no score.
pub fn maybe_parse_score_str(s: Option<&str>) -> (r: Result<Option<u32>, ScoreError>)
    ensures
        match r {
            Ok(Some(n)) => maybe_score_of(crate::text::opt_str_view(s)) == Ok::<Option<int>, ScoreError>(Some(n as int)) && n <= UNIT,
            Ok(None) => maybe_score_of(crate::text::opt_str_view(s)) == Ok::<Option<int>, ScoreError>(None),
            Err(e) => maybe_score_of(crate::text::opt_str_view(s)) == Err::<Option<int>, ScoreError>(e),
        },
{
    match s {
        Some(t) => parse_score_str(t),
        None => Ok(None),
    }
}

} // verus!
