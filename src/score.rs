//! Decimal scores written with a '.' or ',' separator, held as integers in
//! ten-thousandths.
use vstd::prelude::*;
use vstd::string::*;

verus! {

/// Number of score units in one whole point.
pub const SCORE_SCALE: u64 = 10000;

/// An ASCII decimal digit.
pub open spec fn is_digit_char(c: char) -> bool {
    '0' <= c && c <= '9'
}

/// A decimal separator: a point or a comma.
pub open spec fn is_sep_char(c: char) -> bool {
    c == '.' || c == ','
}

/// The value of a decimal digit.
pub open spec fn digit_of(c: char) -> nat {
    (c as int - '0' as int) as nat
}

/// Whether every character is a decimal digit.
pub open spec fn all_digits(s: Seq<char>) -> bool {
    forall|i: int| 0 <= i < s.len() ==> is_digit_char(#[trigger] s[i])
}

/// The number that a run of decimal digits denotes.
pub open spec fn digits_value(s: Seq<char>) -> nat
    decreases s.len(),
{
    if s.len() == 0 {
        0
    } else {
        digits_value(s.drop_last()) * 10 + digit_of(s.last())
    }
}

/// Length of the run of digits at the start of `s`.
pub open spec fn lead_digits(s: Seq<char>) -> nat
    decreases s.len(),
{
    if s.len() > 0 && is_digit_char(s[0]) {
        1 + lead_digits(s.drop_first())
    } else {
        0
    }
}

/// Score units of a fractional part: its first four digits, padded with zeros.
pub open spec fn frac_units(f: Seq<char>) -> nat {
    if f.len() >= 4 {
        digits_value(f.take(4))
    } else if f.len() == 3 {
        digits_value(f) * 10
    } else if f.len() == 2 {
        digits_value(f) * 100
    } else if f.len() == 1 {
        digits_value(f) * 1000
    } else {
        0
    }
}

/// The score that a text denotes, in units of `1 / SCORE_SCALE`: digits,
/// optionally followed by one separator and more digits, with at least one
/// digit in all. Digits past the fourth after the separator are dropped.
/// Anything else, or a value beyond `u64`, denotes no score.
pub open spec fn score_of(s: Seq<char>) -> Option<u64> {
    let k = lead_digits(s) as int;
    let frac = if k < s.len() {
        s.subrange(k + 1, s.len() as int)
    } else {
        Seq::empty()
    };
    let value = digits_value(s.take(k)) * SCORE_SCALE + frac_units(frac);
    if (k == s.len() || is_sep_char(s[k])) && all_digits(frac) && k + frac.len() > 0 && value
        <= u64::MAX {
        Some(value as u64)
    } else {
        None
    }
}

proof fn lemma_lead_digits(s: Seq<char>, i: int)
    requires
        0 <= i <= s.len(),
        all_digits(s.take(i)),
        i == s.len() || !is_digit_char(s[i]),
    ensures
        lead_digits(s) == i,
    decreases s.len(),
{
    if i > 0 {
        assert(is_digit_char(s.take(i)[0]));
        let t = s.drop_first();
        assert forall|j: int| 0 <= j < i - 1 implies is_digit_char(#[trigger] t.take(i - 1)[j]) by {
            assert(t.take(i - 1)[j] == s.take(i)[j + 1]);
        }
        if i < s.len() {
            assert(t[i - 1] == s[i]);
        }
        lemma_lead_digits(t, i - 1);
    }
}

fn digit_at(text: &str, i: usize) -> (r: Option<u64>)
    requires
        i < text@.len(),
    ensures
        r.is_some() == is_digit_char(text@[i as int]),
        r.is_some() ==> r.unwrap() == digit_of(text@[i as int]),
{
    let c = text.get_char(i);
    if '0' <= c && c <= '9' {
        Some((c as u32 - '0' as u32) as u64)
    } else {
        None
    }
}

/// Reads a score from its text; `None` where the text denotes none.
pub fn parse_score(text: &str) -> (r: Option<u64>)
    ensures
        r == score_of(text@),
{
    let n = text.unicode_len();
    let ghost s = text@;
    let mut whole: u128 = 0;
    let mut too_big = false;
    let mut i: usize = 0;
    while i < n
        invariant
            n == s.len(),
            s == text@,
            i <= n,
            all_digits(s.take(i as int)),
            !too_big ==> whole == digits_value(s.take(i as int)) && whole <= u64::MAX,
            too_big ==> digits_value(s.take(i as int)) > u64::MAX,
        ensures
            i == n || !is_digit_char(s[i as int]),
        decreases n - i,
    {
        let d = digit_at(text, i);
        if d.is_none() {
            break;
        }
        let d = d.unwrap();
        assert(s.take(i + 1).drop_last() == s.take(i as int));
        assert(all_digits(s.take(i + 1))) by {
            assert forall|j: int| 0 <= j < i + 1 implies is_digit_char(#[trigger] s.take(i + 1)[j]) by {
                if j < i {
                    assert(s.take(i + 1)[j] == s.take(i as int)[j]);
                }
            }
        }
        if !too_big {
            let next = whole * 10 + d as u128;
            if next > u64::MAX as u128 {
                too_big = true;
            } else {
                whole = next;
            }
        }
        i = i + 1;
    }
    let k = i;
    proof {
        lemma_lead_digits(s, k as int);
    }
    let mut frac: u64 = 0;
    let mut taken: usize = 0;
    if k < n {
        let c = text.get_char(k);
        if c != '.' && c != ',' {
            return None;
        }
        let ghost f = s.subrange(k + 1, n as int);
        let mut j: usize = k + 1;
        while j < n
            invariant
                n == s.len(),
                s == text@,
                k < j <= n,
                lead_digits(s) == k,
                f == s.subrange(k + 1, n as int),
                all_digits(s.subrange(k + 1, j as int)),
                taken == if j - (k + 1) < 4 { j - (k + 1) } else { 4 },
                frac == digits_value(f.take(taken as int)),
                taken == 0 ==> frac < 1,
                taken == 1 ==> frac < 10,
                taken == 2 ==> frac < 100,
                taken == 3 ==> frac < 1000,
                frac < 10000,
            decreases n - j,
        {
            let d = digit_at(text, j);
            if d.is_none() {
                assert(!all_digits(f)) by {
                    assert(f[j - (k + 1)] == s[j as int]);
                }
                return None;
            }
            let d = d.unwrap();
            assert(all_digits(s.subrange(k + 1, j + 1))) by {
                assert forall|t: int| 0 <= t < j + 1 - (k + 1) implies is_digit_char(
                    #[trigger] s.subrange(k + 1, j + 1)[t],
                ) by {
                    if t < j - (k + 1) {
                        assert(s.subrange(k + 1, j + 1)[t] == s.subrange(k + 1, j as int)[t]);
                    }
                }
            }
            if taken < 4 {
                assert(f.take(taken + 1).drop_last() == f.take(taken as int));
                assert(f[taken as int] == s[j as int]);
                frac = frac * 10 + d;
                taken = taken + 1;
            }
            j = j + 1;
        }
        assert(s.subrange(k + 1, n as int) == f);
        if taken < 4 {
            assert(f.take(taken as int) == f);
        }
    } else {
        assert(s.take(k as int) == s);
    }
    if too_big {
        return None;
    }
    if k == 0 && (k == n || n == k + 1) {
        return None;
    }
    let pad: u64 = if taken == 4 {
        1
    } else if taken == 3 {
        10
    } else if taken == 2 {
        100
    } else if taken == 1 {
        1000
    } else {
        10000
    };
    let value: u128 = whole * 10000 + (frac * pad) as u128;
    if value > u64::MAX as u128 {
        None
    } else {
        Some(value as u64)
    }
}

} // verus!
