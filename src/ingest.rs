//! Reading the heading of a published list and the numbers in its cells.
use vstd::prelude::*;
use vstd::string::*;
use crate::models::ProgramInfo;
use crate::score::{all_digits, digit_of, digits_value, is_digit_char};
use crate::text::{alnum_of, is_alnum};

verus! {

/// What capture group 1 of the regular expression `pattern` matches in
/// `text`, at the leftmost match; none where the pattern does not match
/// or does not compile.
pub uninterp spec fn first_group_of(pattern: Seq<char>, text: Seq<char>) -> Option<Seq<char>>;

/// What std's trimming leaves of a text: the text without its leading and
/// trailing white space.
pub uninterp spec fn trimmed_of(text: Seq<char>) -> Seq<char>;

/// Relies on `regex::Regex::new` and `Regex::captures`: the text of capture
/// group 1 of the leftmost match, a function of the pattern and the text.
#[verifier::external_body]
fn first_group(pattern: &str, text: &str) -> (r: Option<String>)
    ensures
        r.is_some() == first_group_of(pattern@, text@).is_some(),
        r.is_some() ==> r->0@ == first_group_of(pattern@, text@)->0,
{
    let re = match regex::Regex::new(pattern) {
        Ok(re) => re,
        Err(_) => return None,
    };
    match re.captures(text) {
        Some(caps) => match caps.get(1) {
            Some(m) => Some(m.as_str().to_string()),
            None => None,
        },
        None => None,
    }
}

/// Relies on `str::trim`: the text without leading and trailing white space.
#[verifier::external_body]
fn trim_text<'a>(text: &'a str) -> (r: &'a str)
    ensures
        r@ == trimmed_of(text@),
{
    text.trim()
}

/// Where a list's heading names its funding source.
pub const FUNDING_PATTERN: &'static str = "Источник финансирования:\\s*<i>([^<]+)</i>";

/// Where a list's heading names its form of study.
pub const FORM_PATTERN: &'static str = "Форма обучения:\\s*<i>([^<]+)</i>";

/// Where a list's heading gives its number of seats.
pub const PLACES_PATTERN: &'static str = "Количество мест:\\s*<i>(\\d+)</i>";

/// The number that a text denotes as a `u32`: an optional '+' and then
/// decimal digits only, no larger than `u32::MAX`.
pub open spec fn u32_of(s: Seq<char>) -> Option<u32> {
    let d = if s.len() > 0 && s[0] == '+' {
        s.drop_first()
    } else {
        s
    };
    if d.len() > 0 && all_digits(d) && digits_value(d) <= u32::MAX {
        Some(digits_value(d) as u32)
    } else {
        None
    }
}

/// A captured text, or "Unknown" where nothing was captured.
pub open spec fn or_unknown(g: Option<Seq<char>>) -> Seq<char> {
    match g {
        Some(s) => s,
        None => "Unknown"@,
    }
}

/// The seats that a captured text gives, zero where it gives none.
pub open spec fn places_of(g: Option<Seq<char>>) -> u32 {
    match g {
        Some(s) => match u32_of(s) {
            Some(v) => v,
            None => 0,
        },
        None => 0,
    }
}

/// Reads a `u32` as std's parsing of `u32` does.
pub fn parse_u32(text: &str) -> (r: Option<u32>)
    ensures
        r == u32_of(text@),
{
    let n = text.unicode_len();
    let ghost s = text@;
    let start: usize = if n > 0 && text.get_char(0) == '+' {
        1
    } else {
        0
    };
    let ghost d = s.subrange(start as int, n as int);
    proof {
        if start == 1 {
            assert(d == s.drop_first());
        } else {
            assert(d == s);
        }
    }
    if start == n {
        return None;
    }
    let mut value: u64 = 0;
    let mut too_big = false;
    let mut i: usize = start;
    while i < n
        invariant
            n == s.len(),
            s == text@,
            start <= i <= n,
            d == s.subrange(start as int, n as int),
            d == (if s.len() > 0 && s[0] == '+' {
                s.drop_first()
            } else {
                s
            }),
            all_digits(d.take(i - start)),
            !too_big ==> value == digits_value(d.take(i - start)) && value <= u32::MAX,
            too_big ==> digits_value(d.take(i - start)) > u32::MAX,
        decreases n - i,
    {
        let c = text.get_char(i);
        assert(d[i - start] == c);
        if c < '0' || c > '9' {
            assert(!all_digits(d));
            return None;
        }
        let digit = (c as u32 - '0' as u32) as u64;
        assert(digit == digit_of(c));
        let ghost next = d.take(i - start + 1);
        assert(next.drop_last() == d.take(i - start));
        assert(all_digits(next)) by {
            assert forall|j: int| 0 <= j < next.len() implies is_digit_char(#[trigger] next[j]) by {
                if j < next.len() - 1 {
                    assert(next[j] == d.take(i - start)[j]);
                }
            }
        }
        if !too_big {
            let grown = value * 10 + digit;
            if grown > u32::MAX as u64 {
                too_big = true;
            } else {
                value = grown;
            }
        }
        i = i + 1;
    }
    assert(d.take(n - start) == d);
    if too_big {
        None
    } else {
        Some(value as u32)
    }
}

/// The number in a cell: its trimmed text read as a `u32`, zero where that
/// is no number.
pub fn number_or_zero(text: &str) -> (r: u32)
    ensures
        r == match u32_of(trimmed_of(text@)) {
            Some(v) => v,
            None => 0,
        },
{
    match parse_u32(trim_text(text)) {
        Some(v) => v,
        None => 0,
    }
}

fn text_or_unknown(g: Option<String>) -> (r: String)
    ensures
        r@ == or_unknown(
            match g {
                Some(s) => Some(s@),
                None => None,
            },
        ),
{
    match g {
        Some(s) => s,
        None => String::from_str("Unknown"),
    }
}

/// The heading of a published list read from the HTML of its block: the
/// funding source, the form of study and the number of seats, each where
/// its label stands, "Unknown" (or zero seats) where it does not.
pub fn program_info_from_html(program_name: &str, block_html: &str) -> (r: ProgramInfo)
    ensures
        r.name@ == program_name@,
        r.funding_source@ == or_unknown(first_group_of(FUNDING_PATTERN@, block_html@)),
        r.study_form@ == or_unknown(first_group_of(FORM_PATTERN@, block_html@)),
        r.available_places == places_of(first_group_of(PLACES_PATTERN@, block_html@)),
{
    let funding = first_group(FUNDING_PATTERN, block_html);
    let form = first_group(FORM_PATTERN, block_html);
    let places = match first_group(PLACES_PATTERN, block_html) {
        Some(g) => match parse_u32(g.as_str()) {
            Some(v) => v,
            None => 0,
        },
        None => 0,
    };
    ProgramInfo {
        name: String::from_str(program_name),
        funding_source: text_or_unknown(funding),
        study_form: text_or_unknown(form),
        available_places: places,
    }
}

/// What std's splitting of a text into lines yields: split at "\n" or
/// "\r\n", without the line endings.
pub uninterp spec fn lines_of(text: Seq<char>) -> Seq<Seq<char>>;

/// What std's replacing of every match of `from` by `to` in `text` yields.
pub uninterp spec fn replaced_of(text: Seq<char>, from: Seq<char>, to: Seq<char>) -> Seq<char>;

/// Relies on `str::lines`: the lines of the text, in order.
#[verifier::external_body]
fn split_lines(text: &str) -> (r: Vec<String>)
    ensures
        r.deep_view() == lines_of(text@),
{
    text.lines().map(|l| l.to_string()).collect()
}

/// Relies on `str::replace`: every match of `from` replaced by `to`.
#[verifier::external_body]
fn replace_all(text: &str, from: &str, to: &str) -> (r: String)
    ensures
        r@ == replaced_of(text@, from@, to@),
{
    text.replace(from, to)
}

/// The label before an identifier in a cell.
pub open spec fn id_label() -> Seq<char> {
    seq!['С', 'Н', 'И', 'Л', 'С', ':', ' ']
}

/// Bytes that a character takes in UTF-8.
pub open spec fn utf8_width(c: char) -> nat {
    if (c as u32) < 0x80 {
        1
    } else if (c as u32) < 0x800 {
        2
    } else if (c as u32) < 0x10000 {
        3
    } else {
        4
    }
}

/// Bytes that a text takes in UTF-8.
pub open spec fn utf8_size(s: Seq<char>) -> nat
    decreases s.len(),
{
    if s.len() == 0 {
        0
    } else {
        utf8_size(s.drop_last()) + utf8_width(s.last())
    }
}

/// The first place of a space in `s`, if any.
pub open spec fn first_space(s: Seq<char>) -> Option<int> {
    if exists|p: int| 0 <= p < s.len() && s[p] == ' ' {
        Some(choose|p: int| 0 <= p < s.len() && s[p] == ' ' && forall|u: int| 0 <= u < p ==> s[u] != ' ')
    } else {
        None
    }
}

/// What one trimmed line of a cell gives as the identifier, if anything: the
/// rest of a labelled line, or the first word (or the whole line) of a line
/// that looks like an identifier and is long enough.
pub open spec fn line_choice(t: Seq<char>) -> Option<Seq<char>> {
    if t.len() >= id_label().len() && t.take(id_label().len() as int) == id_label() {
        Some(trimmed_of(replaced_of(t, id_label(), Seq::empty())))
    } else if utf8_size(t) > 3 && (t.contains('-') || exists|i: int| 0 <= i < t.len() && alnum_of(#[trigger] t[i])) {
        match first_space(t) {
            Some(p) => if utf8_size(t.take(p)) > 5 {
                Some(t.take(p))
            } else {
                None
            },
            None => if utf8_size(t) > 5 {
                Some(t)
            } else {
                None
            },
        }
    } else {
        None
    }
}

/// The first choice among the lines from `j` on.
pub open spec fn first_choice(lines: Seq<Seq<char>>, j: int) -> Option<Seq<char>>
    decreases lines.len() - j,
{
    if j < 0 || j >= lines.len() {
        None
    } else {
        match line_choice(trimmed_of(lines[j])) {
            Some(x) => Some(x),
            None => first_choice(lines, j + 1),
        }
    }
}

/// The first line from `j` on that is not blank, trimmed.
pub open spec fn first_nonblank(lines: Seq<Seq<char>>, j: int) -> Option<Seq<char>>
    decreases lines.len() - j,
{
    if j < 0 || j >= lines.len() {
        None
    } else if trimmed_of(lines[j]).len() > 0 {
        Some(trimmed_of(lines[j]))
    } else {
        first_nonblank(lines, j + 1)
    }
}

/// The identifier that the text of a cell gives: the first line's choice,
/// else its first non-blank line, else "Unknown".
pub open spec fn snils_of_cell(text: Seq<char>) -> Seq<char> {
    match first_choice(lines_of(text), 0) {
        Some(x) => x,
        None => match first_nonblank(lines_of(text), 0) {
            Some(x) => x,
            None => "Unknown"@,
        },
    }
}

fn char_width(c: char) -> (r: u64)
    ensures
        r == utf8_width(c),
{
    if (c as u32) < 0x80 {
        1
    } else if (c as u32) < 0x800 {
        2
    } else if (c as u32) < 0x10000 {
        3
    } else {
        4
    }
}

/// The UTF-8 size of a text, counted up to 6.
fn size_up_to_six(text: &str) -> (r: u64)
    ensures
        r == if utf8_size(text@) < 6 { utf8_size(text@) } else { 6 },
{
    let n = text.unicode_len();
    let mut size: u64 = 0;
    let mut i: usize = 0;
    while i < n
        invariant
            n == text@.len(),
            i <= n,
            size == if utf8_size(text@.take(i as int)) < 6 { utf8_size(text@.take(i as int)) } else { 6 },
        decreases n - i,
    {
        assert(text@.take(i + 1).drop_last() == text@.take(i as int));
        let w = char_width(text.get_char(i));
        size = if size + w < 6 { size + w } else { 6 };
        i = i + 1;
    }
    assert(text@.take(n as int) == text@);
    size
}

fn starts_with_label(t: &str) -> (r: bool)
    ensures
        r == (t@.len() >= id_label().len() && t@.take(id_label().len() as int) == id_label()),
{
    let n = t.unicode_len();
    let label = "СНИЛС: ";
    proof {
        reveal_strlit("СНИЛС: ");
        assert(label@ =~= id_label());
    }
    let m = label.unicode_len();
    if n < m {
        return false;
    }
    let mut i: usize = 0;
    while i < m
        invariant
            n == t@.len(),
            m == label@.len(),
            label@ == id_label(),
            m <= n,
            i <= m,
            forall|u: int| 0 <= u < i ==> t@[u] == label@[u],
        decreases m - i,
    {
        if t.get_char(i) != label.get_char(i) {
            assert(t@.take(m as int)[i as int] != id_label()[i as int]);
            return false;
        }
        i = i + 1;
    }
    assert(t@.take(m as int) =~= id_label());
    true
}

fn looks_like_id(t: &str) -> (r: bool)
    ensures
        r == (t@.contains('-') || exists|i: int| 0 <= i < t@.len() && alnum_of(#[trigger] t@[i])),
{
    let n = t.unicode_len();
    let mut i: usize = 0;
    while i < n
        invariant
            n == t@.len(),
            i <= n,
            forall|u: int| 0 <= u < i ==> t@[u] != '-' && !alnum_of(#[trigger] t@[u]),
        decreases n - i,
    {
        let c = t.get_char(i);
        if c == '-' || is_alnum(c) {
            assert(t@[i as int] == c);
            return true;
        }
        i = i + 1;
    }
    false
}

fn find_space(t: &str) -> (r: Option<usize>)
    ensures
        r is Some ==> first_space(t@) == Some(r->0 as int) && r->0 < t@.len(),
        r is None ==> first_space(t@) is None,
{
    let n = t.unicode_len();
    let mut i: usize = 0;
    while i < n
        invariant
            n == t@.len(),
            i <= n,
            forall|u: int| 0 <= u < i ==> t@[u] != ' ',
        decreases n - i,
    {
        if t.get_char(i) == ' ' {
            let ghost c = choose|p: int| 0 <= p < t@.len() && t@[p] == ' ' && forall|u: int| 0 <= u < p ==> t@[u] != ' ';
            assert(0 <= i < t@.len() && t@[i as int] == ' ');
            proof {
                if c < i {
                    assert(t@[c] != ' ');
                } else if c > i {
                    assert(t@[i as int] != ' ');
                }
            }
            return Some(i);
        }
        i = i + 1;
    }
    None
}

/// What one trimmed line of a cell gives as the identifier, if anything.
pub fn choose_from_line(t: &str) -> (r: Option<String>)
    ensures
        r is Some == line_choice(t@) is Some,
        r is Some ==> r->0@ == line_choice(t@)->0,
{
    if starts_with_label(t) {
        let rest = replace_all(t, "СНИЛС: ", "");
        proof {
            reveal_strlit("СНИЛС: ");
            reveal_strlit("");
            assert("СНИЛС: "@ =~= id_label());
            assert(""@ =~= Seq::<char>::empty());
        }
        return Some(String::from_str(trim_text(rest.as_str())));
    }
    let size = size_up_to_six(t);
    if !(size > 3 && looks_like_id(t)) {
        return None;
    }
    match find_space(t) {
        Some(p) => {
            let word = t.substring_char(0, p);
            assert(word@ == t@.take(p as int));
            if size_up_to_six(word) > 5 {
                Some(String::from_str(word))
            } else {
                None
            }
        },
        None => {
            if size > 5 {
                Some(String::from_str(t))
            } else {
                None
            }
        },
    }
}

/// The identifier that the text of a cell gives: the first line that gives
/// one, else the first non-blank line trimmed, else "Unknown".
pub fn snils_from_cell(text: &str) -> (r: String)
    ensures
        r@ == snils_of_cell(text@),
{
    let lines = split_lines(text);
    let mut j: usize = 0;
    while j < lines.len()
        invariant
            lines.deep_view() == lines_of(text@),
            j <= lines.len(),
            first_choice(lines_of(text@), 0) == first_choice(lines_of(text@), j as int),
        decreases lines.len() - j,
    {
        assert(lines.deep_view()[j as int] == lines@[j as int]@);
        let t = trim_text(lines[j].as_str());
        match choose_from_line(t) {
            Some(x) => {
                return x;
            },
            None => {},
        }
        j = j + 1;
    }
    let mut k: usize = 0;
    while k < lines.len()
        invariant
            lines.deep_view() == lines_of(text@),
            k <= lines.len(),
            first_choice(lines_of(text@), 0) is None,
            first_nonblank(lines_of(text@), 0) == first_nonblank(lines_of(text@), k as int),
        decreases lines.len() - k,
    {
        assert(lines.deep_view()[k as int] == lines@[k as int]@);
        let t = trim_text(lines[k].as_str());
        if t.unicode_len() > 0 {
            return String::from_str(t);
        }
        k = k + 1;
    }
    String::from_str("Unknown")
}

} // verus!
