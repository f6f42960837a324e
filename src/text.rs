//! Character-level helpers: applicant-identifier canonicalisation and
//! substring search over `char` sequences.
use vstd::prelude::*;
use vstd::string::*;

verus! {

/// Whether std classifies a character as alphanumeric (Unicode letter or number).
pub uninterp spec fn alnum_of(c: char) -> bool;

/// What std's upper-casing of a string yields (Unicode case mapping).
pub uninterp spec fn upper_of(s: Seq<char>) -> Seq<char>;

/// What std's lower-casing of a string yields (Unicode case mapping).
pub uninterp spec fn lower_of(s: Seq<char>) -> Seq<char>;

/// Relies on `char::is_alphanumeric`: the answer depends on the character alone.
#[verifier::external_body]
pub(crate) fn is_alnum(c: char) -> (r: bool)
    ensures
        r == alnum_of(c),
{
    c.is_alphanumeric()
}

/// Relies on `String::push`: appends one character at the end.
#[verifier::external_body]
fn push_char(s: &mut String, c: char)
    ensures
        final(s)@ == old(s)@.push(c),
{
    s.push(c)
}

/// Relies on `str::to_uppercase`: the result depends on the characters alone.
#[verifier::external_body]
fn to_upper(s: &str) -> (r: String)
    ensures
        r@ == upper_of(s@),
{
    s.to_uppercase()
}

/// Relies on `str::to_lowercase`: the result depends on the characters alone.
#[verifier::external_body]
pub(crate) fn to_lower(s: &str) -> (r: String)
    ensures
        r@ == lower_of(s@),
{
    s.to_lowercase()
}

/// The characters of `s` that are alphanumeric, in order.
pub open spec fn keep_alnum(s: Seq<char>) -> Seq<char>
    decreases s.len(),
{
    if s.len() == 0 {
        Seq::empty()
    } else {
        let rest = keep_alnum(s.drop_last());
        if alnum_of(s.last()) {
            rest.push(s.last())
        } else {
            rest
        }
    }
}

/// The canonical form of an applicant identifier: its alphanumeric
/// characters, upper-cased.
pub open spec fn canon(s: Seq<char>) -> Seq<char> {
    upper_of(keep_alnum(s))
}

/// Whether `needle` occurs as a contiguous run inside `hay`.
pub open spec fn occurs_in(needle: Seq<char>, hay: Seq<char>) -> bool {
    exists|i: int|
        0 <= i && i + needle.len() <= hay.len() && #[trigger] hay.subrange(i, i + needle.len())
            == needle
}

/// The alphanumeric characters of `text`, in order.
pub fn alphanumeric_part(text: &str) -> (r: String)
    ensures
        r@ == keep_alnum(text@),
{
    let n = text.unicode_len();
    let mut kept = String::new();
    let mut i: usize = 0;
    while i < n
        invariant
            n == text@.len(),
            i <= n,
            kept@ == keep_alnum(text@.subrange(0, i as int)),
        decreases n - i,
    {
        let c = text.get_char(i);
        assert(text@.subrange(0, i + 1).drop_last() == text@.subrange(0, i as int));
        if is_alnum(c) {
            push_char(&mut kept, c);
        }
        i = i + 1;
    }
    assert(text@.subrange(0, n as int) == text@);
    kept
}

/// Canonicalises an applicant identifier: drops every character that is
/// not a letter or digit and upper-cases the rest.
pub fn normalize_snils(snils: &str) -> (r: String)
    ensures
        r@ == canon(snils@),
{
    let kept = alphanumeric_part(snils);
    to_upper(kept.as_str())
}

/// Whether `needle` occurs in `hay`.
pub fn contains_text(hay: &str, needle: &str) -> (r: bool)
    ensures
        r == occurs_in(needle@, hay@),
{
    let h = hay.unicode_len();
    let m = needle.unicode_len();
    if m > h {
        return false;
    }
    let mut i: usize = 0;
    while i <= h - m
        invariant
            h == hay@.len(),
            m == needle@.len(),
            m <= h,
            i <= h - m + 1,
            forall|k: int| 0 <= k < i ==> #[trigger] hay@.subrange(k, k + m) != needle@,
        decreases h - m + 1 - i,
    {
        let mut j: usize = 0;
        let mut same = true;
        while j < m
            invariant
                h == hay@.len(),
                m == needle@.len(),
                i + m <= h,
                j <= m,
                same == (forall|t: int| 0 <= t < j ==> #[trigger] needle@[t] == hay@[i + t]),
            decreases m - j,
        {
            if hay.get_char(i + j) != needle.get_char(j) {
                same = false;
            }
            j = j + 1;
        }
        if same {
            assert(hay@.subrange(i as int, i + m) == needle@);
            return true;
        }
        assert(hay@.subrange(i as int, i + m) != needle@) by {
            let t = choose|t: int| 0 <= t < m && hay@[i + t] != needle@[t];
            assert(hay@.subrange(i as int, i + m)[t] == hay@[i + t]);
        }
        i = i + 1;
    }
    assert forall|k: int| 0 <= k && k + needle@.len() <= hay@.len() implies #[trigger] hay@.subrange(k, k + needle@.len()) != needle@ by {
        assert(k < i);
    }
    false
}

/// Keeping the alphanumeric characters twice keeps the same characters.
pub proof fn lemma_keep_alnum_idempotent(s: Seq<char>)
    ensures
        keep_alnum(keep_alnum(s)) == keep_alnum(s),
        forall|i: int| 0 <= i < keep_alnum(s).len() ==> alnum_of(#[trigger] keep_alnum(s)[i]),
    decreases s.len(),
{
    if s.len() > 0 {
        let rest = keep_alnum(s.drop_last());
        lemma_keep_alnum_idempotent(s.drop_last());
        if alnum_of(s.last()) {
            let k = rest.push(s.last());
            assert(k.drop_last() == rest);
            assert forall|i: int| 0 <= i < k.len() implies alnum_of(#[trigger] k[i]) by {
                if i < rest.len() {
                    assert(k[i] == rest[i]);
                }
            }
        }
    }
}

/// Canonicalising a canonical form again changes nothing, wherever std's
/// upper-casing of the kept characters yields alphanumeric characters only
/// and is left as it is by a second upper-casing.
pub proof fn lemma_normalize_idempotent(s: Seq<char>)
    requires
        keep_alnum(upper_of(keep_alnum(s))) == upper_of(keep_alnum(s)),
        upper_of(upper_of(keep_alnum(s))) == upper_of(keep_alnum(s)),
    ensures
        canon(canon(s)) == canon(s),
{
    lemma_keep_alnum_idempotent(s);
}

} // verus!
