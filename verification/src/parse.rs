//! The reader of `data.md`: the grammar of its lines and the parser of the
//! whole document.
use vstd::prelude::*;
use crate::text::{is_ws, is_whitespace, trim, sub_chars, trim_chars, string_of, chars_of};
use crate::model::{
    PdfPageEntry, EntryModel, ReferenceSourceInfo, SourceModel, Reference, ReferenceModel,
    entry_views, reference_views, entry_le, reference_le,
};
use crate::sort::{sort_by_rank, views_of};
use crate::text::{document_lines, doc_lines, views};

verus! {

/// A character of an id: a digit, a lower-case ASCII letter or `_`.
pub open spec fn is_id_char(c: char) -> bool {
    ('0' <= c <= '9') || ('a' <= c <= 'z') || c == '_'
}

pub open spec fn is_digit(c: char) -> bool {
    '0' <= c <= '9'
}

/// The end of the run of whitespace in `s` that starts at `i`.
pub open spec fn ws_run_end(s: Seq<char>, i: int) -> int
    decreases s.len() - i,
{
    if 0 <= i < s.len() && is_ws(s[i]) {
        ws_run_end(s, i + 1)
    } else {
        i
    }
}

/// The end of the run of id characters in `s` that starts at `i`.
pub open spec fn id_run_end(s: Seq<char>, i: int) -> int
    decreases s.len() - i,
{
    if 0 <= i < s.len() && is_id_char(s[i]) {
        id_run_end(s, i + 1)
    } else {
        i
    }
}

/// The end of the run of ASCII digits in `s` that starts at `i`.
pub open spec fn digit_run_end(s: Seq<char>, i: int) -> int
    decreases s.len() - i,
{
    if 0 <= i < s.len() && is_digit(s[i]) {
        digit_run_end(s, i + 1)
    } else {
        i
    }
}

/// The id of an id line whose `#` stands at `p`: `#`, any whitespace, and an
/// id between backticks.
pub open spec fn id_match_at(s: Seq<char>, p: int) -> Option<Seq<char>> {
    if 0 <= p < s.len() && s[p] == '#' {
        let q = ws_run_end(s, p + 1);
        if q < s.len() && s[q] == '`' {
            let r = id_run_end(s, q + 1);
            if r > q + 1 && r < s.len() && s[r] == '`' {
                Some(s.subrange(q + 1, r))
            } else {
                None
            }
        } else {
            None
        }
    } else {
        None
    }
}

/// The id of the leftmost id match at or after `p`.
pub open spec fn first_id_match(s: Seq<char>, p: int) -> Option<Seq<char>>
    decreases s.len() - p,
{
    if p < 0 || p >= s.len() {
        None
    } else {
        match id_match_at(s, p) {
            Some(id) => Some(id),
            None => first_id_match(s, p + 1),
        }
    }
}

/// The id that a line names, if it names one: the leftmost match of
/// `#\s*` followed by backtick, `[0-9a-z_]+` and backtick.
pub open spec fn id_of_line(s: Seq<char>) -> Option<Seq<char>> {
    first_id_match(s, 0)
}

pub proof fn lemma_run_ends(s: Seq<char>, i: int)
    requires
        0 <= i <= s.len(),
    ensures
        i <= ws_run_end(s, i) <= s.len(),
        i <= id_run_end(s, i) <= s.len(),
        i <= digit_run_end(s, i) <= s.len(),
        forall|j: int| i <= j < ws_run_end(s, i) ==> is_ws(#[trigger] s[j]),
        ws_run_end(s, i) == s.len() || !is_ws(s[ws_run_end(s, i)]),
        forall|j: int| i <= j < id_run_end(s, i) ==> is_id_char(#[trigger] s[j]),
        id_run_end(s, i) == s.len() || !is_id_char(s[id_run_end(s, i)]),
        forall|j: int| i <= j < digit_run_end(s, i) ==> is_digit(#[trigger] s[j]),
        digit_run_end(s, i) == s.len() || !is_digit(s[digit_run_end(s, i)]),
    decreases s.len() - i,
{
    if i < s.len() {
        lemma_run_ends(s, i + 1);
    }
}

fn skip_ws(s: &[char], i: usize) -> (r: usize)
    requires
        i <= s@.len(),
    ensures
        r == ws_run_end(s@, i as int),
{
    let mut j = i;
    while j < s.len() && is_whitespace(s[j])
        invariant
            i <= j <= s@.len(),
            ws_run_end(s@, i as int) == ws_run_end(s@, j as int),
        decreases s@.len() - j,
    {
        j = j + 1;
    }
    j
}

fn is_id_character(c: char) -> (r: bool)
    ensures
        r == is_id_char(c),
{
    ('0' <= c && c <= '9') || ('a' <= c && c <= 'z') || c == '_'
}

fn skip_id_chars(s: &[char], i: usize) -> (r: usize)
    requires
        i <= s@.len(),
    ensures
        r == id_run_end(s@, i as int),
{
    let mut j = i;
    while j < s.len() && is_id_character(s[j])
        invariant
            i <= j <= s@.len(),
            id_run_end(s@, i as int) == id_run_end(s@, j as int),
        decreases s@.len() - j,
    {
        j = j + 1;
    }
    j
}

fn skip_digits(s: &[char], i: usize) -> (r: usize)
    requires
        i <= s@.len(),
    ensures
        r == digit_run_end(s@, i as int),
{
    let mut j = i;
    while j < s.len() && '0' <= s[j] && s[j] <= '9'
        invariant
            i <= j <= s@.len(),
            digit_run_end(s@, i as int) == digit_run_end(s@, j as int),
        decreases s@.len() - j,
    {
        j = j + 1;
    }
    j
}

/// The id between backticks when `s[p]` opens an id line, as `id_match_at`.
fn id_at(s: &[char], p: usize) -> (r: Option<(usize, usize)>)
    requires
        p < s@.len(),
    ensures
        match id_match_at(s@, p as int) {
            Some(id) => r matches Some((a, b)) && a <= b <= s@.len() && id == s@.subrange(
                a as int,
                b as int,
            ),
            None => r is None,
        },
{
    if s[p] != '#' {
        return None;
    }
    proof {
        lemma_run_ends(s@, p + 1);
    }
    let q = skip_ws(s, p + 1);
    if q >= s.len() || s[q] != '`' {
        return None;
    }
    proof {
        lemma_run_ends(s@, q + 1);
    }
    let r = skip_id_chars(s, q + 1);
    if r > q + 1 && r < s.len() && s[r] == '`' {
        Some((q + 1, r))
    } else {
        None
    }
}

/// The id that a line names, as `id_of_line` states.
pub fn find_id(s: &[char]) -> (r: Option<Vec<char>>)
    ensures
        match id_of_line(s@) {
            Some(id) => r matches Some(v) && v@ == id,
            None => r is None,
        },
{
    let mut p: usize = 0;
    while p < s.len()
        invariant
            p <= s@.len(),
            id_of_line(s@) == first_id_match(s@, p as int),
        decreases s@.len() - p,
    {
        if let Some((a, b)) = id_at(s, p) {
            return Some(sub_chars(s, a, b));
        }
        p = p + 1;
    }
    None
}

/// The value of a run of ASCII digits.
pub open spec fn digits_value(d: Seq<char>) -> nat
    decreases d.len(),
{
    if d.len() == 0 {
        0
    } else {
        digits_value(d.drop_last()) * 10 + (d.last() as int - '0' as int) as nat
    }
}

/// What the grammar of a page line, `^-\s*p\.([0-9]+):(.*)$`, makes of a
/// line: no match, a page number beyond `u64`, or an entry.
pub enum PageLine {
    NoMatch,
    Overflow,
    Entry(EntryModel),
}

pub open spec fn page_line(s: Seq<char>) -> PageLine {
    if s.len() > 0 && s[0] == '-' {
        let q = ws_run_end(s, 1);
        if q + 1 < s.len() && s[q] == 'p' && s[q + 1] == '.' {
            let r = digit_run_end(s, q + 2);
            if r > q + 2 && r < s.len() && s[r] == ':' && !s.subrange(r + 1, s.len() as int).contains(
                '\n',
            ) {
                let v = digits_value(s.subrange(q + 2, r));
                if v > u64::MAX {
                    PageLine::Overflow
                } else {
                    PageLine::Entry(
                        EntryModel {
                            page: v as u64,
                            description: trim(s.subrange(r + 1, s.len() as int)),
                        },
                    )
                }
            } else {
                PageLine::NoMatch
            }
        } else {
            PageLine::NoMatch
        }
    } else {
        PageLine::NoMatch
    }
}

proof fn lemma_digits_mono(d: Seq<char>, k: int)
    requires
        0 <= k <= d.len(),
        forall|j: int| 0 <= j < d.len() ==> is_digit(#[trigger] d[j]),
    ensures
        digits_value(d.take(k)) <= digits_value(d),
    decreases d.len(),
{
    if k < d.len() {
        let e = d.drop_last();
        assert(e.take(k) =~= d.take(k));
        lemma_digits_mono(e, k);
    } else {
        assert(d.take(k) =~= d);
    }
}

/// The value of the digits `s[a..b]`, or `None` beyond `u64`.
fn digits_to_u64(s: &[char], a: usize, b: usize) -> (r: Option<u64>)
    requires
        a <= b <= s@.len(),
        forall|j: int| a <= j < b ==> is_digit(#[trigger] s@[j]),
    ensures
        match r {
            Some(v) => v as nat == digits_value(s@.subrange(a as int, b as int)),
            None => digits_value(s@.subrange(a as int, b as int)) > u64::MAX,
        },
{
    let ghost d = s@.subrange(a as int, b as int);
    let mut v: u64 = 0;
    let mut i = a;
    proof {
        assert(d.take(0) =~= Seq::<char>::empty());
    }
    while i < b
        invariant
            a <= i <= b <= s@.len(),
            d == s@.subrange(a as int, b as int),
            forall|j: int| a <= j < b ==> is_digit(#[trigger] s@[j]),
            v as nat == digits_value(d.take(i - a)),
        decreases b - i,
    {
        let c = s[i];
        assert(is_digit(s@[i as int]));
        let dig = (c as u32 - '0' as u32) as u64;
        proof {
            assert(d.take(i + 1 - a).drop_last() =~= d.take(i - a));
            assert(d.take(i + 1 - a).last() == c);
            assert forall|j: int| 0 <= j < d.len() implies is_digit(#[trigger] d[j]) by {
                assert(d[j] == s@[a + j]);
            }
            lemma_digits_mono(d, i + 1 - a);
        }
        match v.checked_mul(10) {
            Some(t) => match t.checked_add(dig) {
                Some(n) => {
                    v = n;
                },
                None => {
                    return None;
                },
            },
            None => {
                return None;
            },
        }
        i = i + 1;
    }
    proof {
        assert(d.take(b - a) =~= d);
    }
    Some(v)
}

/// What a page line is, as `page_line` states.
pub enum PageLineParse {
    NoMatch,
    Overflow,
    Entry(PdfPageEntry),
}

#[verifier::loop_isolation(false)]
pub fn scan_page_line(s: &[char]) -> (r: PageLineParse)
    ensures
        match page_line(s@) {
            PageLine::NoMatch => r is NoMatch,
            PageLine::Overflow => r is Overflow,
            PageLine::Entry(e) => r matches PageLineParse::Entry(x) && x@ == e,
        },
{
    if s.len() == 0 || s[0] != '-' {
        return PageLineParse::NoMatch;
    }
    proof {
        lemma_run_ends(s@, 1);
    }
    let q = skip_ws(s, 1);
    if !(q < s.len() && s[q] == 'p' && q + 1 < s.len() && s[q + 1] == '.') {
        return PageLineParse::NoMatch;
    }
    proof {
        lemma_run_ends(s@, q + 2);
    }
    let r = skip_digits(s, q + 2);
    if !(r > q + 2 && r < s.len() && s[r] == ':') {
        return PageLineParse::NoMatch;
    }
    let rest = sub_chars(s, r + 1, s.len());
    let mut k: usize = 0;
    while k < rest.len()
        invariant
            k <= rest@.len(),
            r < s@.len(),
            rest@ == s@.subrange(r + 1, s@.len() as int),
            forall|j: int| 0 <= j < k ==> rest@[j] != '\n',
        decreases rest@.len() - k,
    {
        if rest[k] == '\n' {
            assert(s@.subrange(r + 1, s@.len() as int).contains('\n')) by {
                assert(s@.subrange(r + 1, s@.len() as int)[k as int] == '\n');
            }
            return PageLineParse::NoMatch;
        }
        k = k + 1;
    }
    match digits_to_u64(s, q + 2, r) {
        None => PageLineParse::Overflow,
        Some(page) => {
            let description = string_of(trim_chars(rest.as_slice()).as_slice());
            PageLineParse::Entry(PdfPageEntry { page, description })
        },
    }
}

/// Why a document could not be read.
#[derive(Debug, Clone, PartialEq, Eq)]
pub enum ParseError {
    /// A line that should name an id does not.
    InvalidIdLine(String),
    /// A line that starts with `-` is not a page entry.
    InvalidPageEntry(String),
    /// The id line is not followed by a fence.
    MissingOpeningFence,
    MissingTitle,
    MissingType,
    /// The url of a source, or the path inside its archive, is missing.
    MissingUrl,
    /// The source type is neither `pdf` nor `zip`.
    UnexpectedType(String),
    /// The source is not closed by a fence.
    MissingClosingFence,
}

pub enum ErrorModel {
    InvalidIdLine(Seq<char>),
    InvalidPageEntry(Seq<char>),
    MissingOpeningFence,
    MissingTitle,
    MissingType,
    MissingUrl,
    UnexpectedType(Seq<char>),
    MissingClosingFence,
}

impl View for ParseError {
    type V = ErrorModel;

    open spec fn view(&self) -> ErrorModel {
        match self {
            ParseError::InvalidIdLine(l) => ErrorModel::InvalidIdLine(l@),
            ParseError::InvalidPageEntry(l) => ErrorModel::InvalidPageEntry(l@),
            ParseError::MissingOpeningFence => ErrorModel::MissingOpeningFence,
            ParseError::MissingTitle => ErrorModel::MissingTitle,
            ParseError::MissingType => ErrorModel::MissingType,
            ParseError::MissingUrl => ErrorModel::MissingUrl,
            ParseError::UnexpectedType(t) => ErrorModel::UnexpectedType(t@),
            ParseError::MissingClosingFence => ErrorModel::MissingClosingFence,
        }
    }
}

/// The text that reports an error.
pub open spec fn error_message(e: ErrorModel) -> Seq<char> {
    match e {
        ErrorModel::InvalidIdLine(l) => "failed to parse id line. line: "@ + l,
        ErrorModel::InvalidPageEntry(l) => "failed to parse page entry. line: "@ + l,
        ErrorModel::MissingOpeningFence => "Expected ``` after id"@,
        ErrorModel::MissingTitle => "title is needed in ref_info"@,
        ErrorModel::MissingType => "type is needed in ref_info"@,
        ErrorModel::MissingUrl => "url is needed in ref_info"@,
        ErrorModel::UnexpectedType(t) => "Unexpected ref_info type: "@ + t,
        ErrorModel::MissingClosingFence => "Expected ``` after ref_info"@,
    }
}

impl ParseError {
    /// The text that reports this error, as `error_message` states.
    pub fn message(&self) -> (r: String)
        ensures
            r@ == error_message(self@),
    {
        let mut r = String::new();
        match self {
            ParseError::InvalidIdLine(l) => {
                r.append("failed to parse id line. line: ");
                r.append(l.as_str());
            },
            ParseError::InvalidPageEntry(l) => {
                r.append("failed to parse page entry. line: ");
                r.append(l.as_str());
            },
            ParseError::MissingOpeningFence => r.append("Expected ``` after id"),
            ParseError::MissingTitle => r.append("title is needed in ref_info"),
            ParseError::MissingType => r.append("type is needed in ref_info"),
            ParseError::MissingUrl => r.append("url is needed in ref_info"),
            ParseError::UnexpectedType(t) => {
                r.append("Unexpected ref_info type: ");
                r.append(t.as_str());
            },
            ParseError::MissingClosingFence => r.append("Expected ``` after ref_info"),
        }
        r
    }
}

/// The id that an id line names; an error when the line names none.
pub fn parse_id_line(line: &str) -> (r: Result<String, ParseError>)
    ensures
        match id_of_line(line@) {
            Some(id) => r matches Ok(x) && x@ == id,
            None => r matches Err(e) && e@ == ErrorModel::InvalidIdLine(line@),
        },
{
    let chars = chars_of(line);
    match find_id(chars.as_slice()) {
        Some(id) => Ok(string_of(id.as_slice())),
        None => Err(ParseError::InvalidIdLine(String::from_str(line))),
    }
}

/// The page entry that a page line gives; an error when the line is not
/// one. A page number beyond `u64` is left out.
pub fn parse_page_entry(line: &str) -> (r: Result<PdfPageEntry, ParseError>)
    requires
        !(page_line(line@) is Overflow),
    ensures
        match page_line(line@) {
            PageLine::Entry(e) => r matches Ok(x) && x@ == e,
            _ => r matches Err(e) && e@ == ErrorModel::InvalidPageEntry(line@),
        },
{
    let chars = chars_of(line);
    match scan_page_line(chars.as_slice()) {
        PageLineParse::Entry(e) => Ok(e),
        _ => Err(ParseError::InvalidPageEntry(String::from_str(line))),
    }
}

/// Whether two character sequences are equal.
pub fn chars_equal(a: &[char], b: &[char]) -> (r: bool)
    ensures
        r == (a@ == b@),
{
    if a.len() != b.len() {
        return false;
    }
    let mut i: usize = 0;
    while i < a.len()
        invariant
            i <= a@.len() == b@.len(),
            forall|j: int| 0 <= j < i ==> a@[j] == b@[j],
        decreases a@.len() - i,
    {
        if a[i] != b[i] {
            return false;
        }
        i = i + 1;
    }
    assert(a@ =~= b@);
    true
}

/// Whether two strings are equal.
pub fn str_equal(a: &str, b: &str) -> (r: bool)
    ensures
        r == (a@ == b@),
{
    let x = chars_of(a);
    let y = chars_of(b);
    chars_equal(x.as_slice(), y.as_slice())
}

pub open spec fn string_views(s: Seq<String>) -> Seq<Seq<char>> {
    s.map_values(|l: String| l@)
}

/// The line at `p`, as an iterator over the lines at `p` yields it.
pub open spec fn line_at(lines: Seq<Seq<char>>, p: int) -> Option<Seq<char>> {
    if 0 <= p < lines.len() {
        Some(lines[p])
    } else {
        None
    }
}

/// Where such an iterator stands after one more step.
pub open spec fn step(lines: Seq<Seq<char>>, p: int) -> int {
    if 0 <= p < lines.len() {
        p + 1
    } else {
        p
    }
}

pub open spec fn fence() -> Seq<char> {
    "```"@
}

/// The closing fence of a source at `p`.
pub open spec fn close_source(lines: Seq<Seq<char>>, p: int, source: SourceModel) -> (
    Result<SourceModel, ErrorModel>,
    int,
) {
    if line_at(lines, p) == Some(fence()) {
        (Ok(source), step(lines, p))
    } else {
        (Err(ErrorModel::MissingClosingFence), step(lines, p))
    }
}

/// The source block that follows an id line, read from `pos`: a fence, the
/// title, the type (`pdf` with a url, or `zip` with a url and a path in the
/// archive), and a fence; with where the reading stopped.
pub open spec fn reference_source(lines: Seq<Seq<char>>, pos: int) -> (
    Result<SourceModel, ErrorModel>,
    int,
) {
    let p1 = step(lines, pos);
    if line_at(lines, pos) != Some(fence()) {
        (Err(ErrorModel::MissingOpeningFence), p1)
    } else if line_at(lines, p1) is None {
        (Err(ErrorModel::MissingTitle), p1)
    } else {
        let title = trim(lines[p1]);
        let p2 = p1 + 1;
        if line_at(lines, p2) is None {
            (Err(ErrorModel::MissingType), p2)
        } else {
            let ty = trim(lines[p2]);
            let p3 = p2 + 1;
            if ty == "pdf"@ {
                if line_at(lines, p3) is None {
                    (Err(ErrorModel::MissingUrl), p3)
                } else {
                    close_source(
                        lines,
                        p3 + 1,
                        SourceModel::Pdf { title: title, url: trim(lines[p3]) },
                    )
                }
            } else if ty == "zip"@ {
                if line_at(lines, p3) is None {
                    (Err(ErrorModel::MissingUrl), p3)
                } else if line_at(lines, p3 + 1) is None {
                    (Err(ErrorModel::MissingUrl), p3 + 1)
                } else {
                    close_source(
                        lines,
                        p3 + 2,
                        SourceModel::Zip {
                            title: title,
                            url: trim(lines[p3]),
                            rel_path: trim(lines[p3 + 1]),
                        },
                    )
                }
            } else {
                (Err(ErrorModel::UnexpectedType(ty)), p3)
            }
        }
    }
}

/// The next line, moving the position past it.
fn next_line<'a>(lines: &'a [String], pos: &mut usize) -> (r: Option<&'a String>)
    requires
        *old(pos) <= lines@.len(),
    ensures
        *final(pos) <= lines@.len(),
        *final(pos) == step(string_views(lines@), *old(pos) as int),
        match line_at(string_views(lines@), *old(pos) as int) {
            Some(l) => r matches Some(x) && x@ == l,
            None => r is None,
        },
{
    if *pos < lines.len() {
        let l = &lines[*pos];
        *pos = *pos + 1;
        Some(l)
    } else {
        None
    }
}

/// Whether a line is a fence.
fn is_fence(line: Option<&String>) -> (r: bool)
    ensures
        r == (line matches Some(l) && l@ == fence()),
{
    match line {
        Some(l) => str_equal(l.as_str(), "```"),
        None => false,
    }
}

fn trimmed(line: &String) -> (r: String)
    ensures
        r@ == trim(line@),
{
    let c = chars_of(line.as_str());
    string_of(trim_chars(c.as_slice()).as_slice())
}

/// Reads the source block that follows an id line, as `reference_source`
/// states, leaving `pos` where the reading stopped.
pub fn parse_reference(lines: &[String], pos: &mut usize) -> (r: Result<ReferenceSourceInfo, ParseError>)
    requires
        *old(pos) <= lines@.len(),
    ensures
        ({
            let (res, p) = reference_source(string_views(lines@), *old(pos) as int);
            &&& *final(pos) == p
            &&& match res {
                Ok(src) => r matches Ok(x) && x@ == src,
                Err(e) => r matches Err(x) && x@ == e,
            }
        }),
{
    if !is_fence(next_line(lines, pos)) {
        return Err(ParseError::MissingOpeningFence);
    }
    let title = match next_line(lines, pos) {
        Some(l) => trimmed(l),
        None => {
            return Err(ParseError::MissingTitle);
        },
    };
    let ty = match next_line(lines, pos) {
        Some(l) => trimmed(l),
        None => {
            return Err(ParseError::MissingType);
        },
    };
    let info = if str_equal(ty.as_str(), "pdf") {
        let url = match next_line(lines, pos) {
            Some(l) => trimmed(l),
            None => {
                return Err(ParseError::MissingUrl);
            },
        };
        ReferenceSourceInfo::Pdf { title, url }
    } else if str_equal(ty.as_str(), "zip") {
        let url = match next_line(lines, pos) {
            Some(l) => trimmed(l),
            None => {
                return Err(ParseError::MissingUrl);
            },
        };
        let rel_path = match next_line(lines, pos) {
            Some(l) => trimmed(l),
            None => {
                return Err(ParseError::MissingUrl);
            },
        };
        ReferenceSourceInfo::Zip { title, url, rel_path }
    } else {
        return Err(ParseError::UnexpectedType(ty));
    };
    if !is_fence(next_line(lines, pos)) {
        return Err(ParseError::MissingClosingFence);
    }
    Ok(info)
}

/// The end of the run of page lines, those that start with `-`, from `p`.
pub open spec fn dash_run_end(lines: Seq<Seq<char>>, p: int) -> int
    decreases lines.len() - p,
{
    if 0 <= p < lines.len() && lines[p].len() > 0 && lines[p][0] == '-' {
        dash_run_end(lines, p + 1)
    } else {
        p
    }
}

/// What the page lines `lines[p..q]` give, read in order.
pub enum PagesOutcome {
    Pages(Seq<EntryModel>),
    Failed(ErrorModel),
    Overflow,
}

pub open spec fn pages_between(lines: Seq<Seq<char>>, p: int, q: int) -> PagesOutcome
    decreases q - p,
{
    if p >= q {
        PagesOutcome::Pages(Seq::empty())
    } else {
        match page_line(lines[p]) {
            PageLine::NoMatch => PagesOutcome::Failed(ErrorModel::InvalidPageEntry(lines[p])),
            PageLine::Overflow => PagesOutcome::Overflow,
            PageLine::Entry(e) => match pages_between(lines, p + 1, q) {
                PagesOutcome::Pages(rest) => PagesOutcome::Pages(seq![e] + rest),
                other => other,
            },
        }
    }
}

/// What a document gives: its references, the first error, or a page
/// number beyond `u64` met before any error.
pub enum DocOutcome {
    Parsed(Seq<ReferenceModel>),
    Failed(ErrorModel),
    Overflow,
}

pub proof fn lemma_dash_run_end(lines: Seq<Seq<char>>, p: int)
    requires
        0 <= p <= lines.len(),
    ensures
        p <= dash_run_end(lines, p) <= lines.len(),
    decreases lines.len() - p,
{
    if p < lines.len() {
        lemma_dash_run_end(lines, p + 1);
    }
}

pub proof fn lemma_reference_source_advances(lines: Seq<Seq<char>>, pos: int)
    requires
        0 <= pos <= lines.len(),
    ensures
        pos <= reference_source(lines, pos).1 <= lines.len(),
        reference_source(lines, pos).0 is Ok ==> pos < reference_source(lines, pos).1,
{
}

/// The references of a document from line `pos` on: an id line, its
/// source block and its page lines, again and again, in the order of the
/// document.
pub open spec fn references_from(lines: Seq<Seq<char>>, pos: int) -> DocOutcome
    decreases lines.len() - pos,
{
    if pos < 0 || pos >= lines.len() {
        DocOutcome::Parsed(Seq::empty())
    } else {
        match id_of_line(lines[pos]) {
            None => DocOutcome::Failed(ErrorModel::InvalidIdLine(lines[pos])),
            Some(id) => {
                let (src, p) = reference_source(lines, pos + 1);
                match src {
                    Err(e) => DocOutcome::Failed(e),
                    Ok(source) => {
                        proof {
                            lemma_reference_source_advances(lines, pos + 1);
                            lemma_dash_run_end(lines, p);
                        }
                        let q = dash_run_end(lines, p);
                        match pages_between(lines, p, q) {
                            PagesOutcome::Failed(e) => DocOutcome::Failed(e),
                            PagesOutcome::Overflow => DocOutcome::Overflow,
                            PagesOutcome::Pages(entries) => match references_from(lines, q) {
                                DocOutcome::Parsed(rest) => DocOutcome::Parsed(
                                    seq![ReferenceModel { id: id, source: source, entries: entries }]
                                        + rest,
                                ),
                                other => other,
                            },
                        }
                    },
                }
            },
        }
    }
}

/// A reference whose page entries are sorted.
pub open spec fn with_sorted_entries(r: ReferenceModel) -> ReferenceModel {
    ReferenceModel { id: r.id, source: r.source, entries: r.entries.sort_by(entry_le()) }
}

/// The references sorted, and the page entries of each sorted.
pub open spec fn sorted_references(refs: Seq<ReferenceModel>) -> Seq<ReferenceModel> {
    refs.sort_by(reference_le()).map_values(|r: ReferenceModel| with_sorted_entries(r))
}

/// What the reader of `data.md` makes of a document: its references,
/// sorted, each with its page entries sorted; or the first error; or a page
/// number beyond `u64`.
pub open spec fn document(text: Seq<char>) -> DocOutcome {
    match references_from(doc_lines(text), 0) {
        DocOutcome::Parsed(refs) => DocOutcome::Parsed(sorted_references(refs)),
        other => other,
    }
}

pub open spec fn prepend_refs(xs: Seq<ReferenceModel>, o: DocOutcome) -> DocOutcome {
    match o {
        DocOutcome::Parsed(r) => DocOutcome::Parsed(xs + r),
        other => other,
    }
}

pub open spec fn prepend_pages(xs: Seq<EntryModel>, o: PagesOutcome) -> PagesOutcome {
    match o {
        PagesOutcome::Pages(r) => PagesOutcome::Pages(xs + r),
        other => other,
    }
}

/// What `parse_document` returns.
pub enum DocumentParse {
    Parsed(Vec<Reference>),
    Failed(ParseError),
    PageNumberOverflow,
}

fn strings_of(lines: Vec<Vec<char>>) -> (r: Vec<String>)
    ensures
        string_views(r@) == views(lines@),
{
    let mut r: Vec<String> = Vec::new();
    let mut i: usize = 0;
    while i < lines.len()
        invariant
            i <= lines@.len(),
            string_views(r@) == views(lines@).take(i as int),
        decreases lines@.len() - i,
    {
        let s = string_of(lines[i].as_slice());
        let ghost before = r@;
        r.push(s);
        proof {
            assert(views(lines@).take(i + 1) =~= views(lines@).take(i as int).push(lines@[i as int]@));
            assert(string_views(r@) =~= string_views(before).push(s@));
        }
        i = i + 1;
    }
    proof {
        assert(views(lines@).take(lines@.len() as int) =~= views(lines@));
    }
    r
}

fn starts_with_dash(line: &String) -> (r: bool)
    ensures
        r == (line@.len() > 0 && line@[0] == '-'),
{
    let c = chars_of(line.as_str());
    c.len() > 0 && c[0] == '-'
}

/// Reads the page lines of one reference, those that start with `-` from
/// `pos` on.
fn parse_pages(lines: &Vec<String>, pos: &mut usize) -> (r: Result<Vec<PdfPageEntry>, DocumentParse>)
    requires
        *old(pos) <= lines@.len(),
    ensures
        r is Ok ==> *final(pos) == dash_run_end(string_views(lines@), *old(pos) as int),
        match pages_between(
            string_views(lines@),
            *old(pos) as int,
            dash_run_end(string_views(lines@), *old(pos) as int),
        ) {
            PagesOutcome::Pages(es) => r matches Ok(v) && entry_views(v@) == es,
            PagesOutcome::Failed(e) => r matches Err(DocumentParse::Failed(x)) && x@ == e,
            PagesOutcome::Overflow => r matches Err(DocumentParse::PageNumberOverflow),
        },
{
    let ghost ls = string_views(lines@);
    let ghost p0 = *pos as int;
    let ghost q = dash_run_end(ls, p0);
    proof {
        lemma_dash_run_end(ls, p0);
    }
    let mut entries: Vec<PdfPageEntry> = Vec::new();
    proof {
        assert(entry_views(entries@) =~= Seq::<EntryModel>::empty());
        assert(prepend_pages(Seq::<EntryModel>::empty(), pages_between(ls, p0, q)) == pages_between(ls, p0, q)) by {
            match pages_between(ls, p0, q) {
                PagesOutcome::Pages(r) => { assert(Seq::<EntryModel>::empty() + r =~= r); },
                _ => {},
            }
        }
    }
    while *pos < lines.len() && starts_with_dash(&lines[*pos])
        invariant
            ls == string_views(lines@),
            p0 == *old(pos),
            q == dash_run_end(ls, p0),
            p0 <= *pos <= q <= lines@.len(),
            dash_run_end(ls, *pos as int) == q,
            pages_between(ls, p0, q) == prepend_pages(entry_views(entries@), pages_between(ls, *pos as int, q)),
        decreases lines@.len() - *pos,
    {
        let i = *pos;
        assert(ls[i as int] == lines@[i as int]@);
        proof {
            lemma_dash_run_end(ls, i + 1);
        }
        let c = chars_of(lines[i].as_str());
        match scan_page_line(c.as_slice()) {
            PageLineParse::NoMatch => {
                return Err(DocumentParse::Failed(ParseError::InvalidPageEntry(lines[i].clone())));
            },
            PageLineParse::Overflow => {
                return Err(DocumentParse::PageNumberOverflow);
            },
            PageLineParse::Entry(e) => {
                let ghost before = entry_views(entries@);
                let ghost ev = e@;
                entries.push(e);
                proof {
                    assert(entry_views(entries@) =~= before.push(ev));
                    match pages_between(ls, i + 1, q) {
                        PagesOutcome::Pages(r) => {
                            assert(before + (seq![ev] + r) =~= before.push(ev) + r);
                        },
                        _ => {},
                    }
                }
            },
        }
        *pos = i + 1;
    }
    proof {
        assert(entry_views(entries@) + Seq::<EntryModel>::empty() =~= entry_views(entries@));
    }
    Ok(entries)
}

/// Sorts the page entries of each reference.
fn sort_each_entries(refs: Vec<Reference>) -> (r: Vec<Reference>)
    ensures
        reference_views(r@) == reference_views(refs@).map_values(
            |x: ReferenceModel| with_sorted_entries(x),
        ),
{
    let ghost all = reference_views(refs@);
    let ghost f = |x: ReferenceModel| with_sorted_entries(x);
    let mut rest = refs;
    let mut out: Vec<Reference> = Vec::new();
    proof {
        assert(reference_views(out@) =~= all.take(0).map_values(f));
        assert(reference_views(rest@) =~= all.skip(0));
    }
    while rest.len() > 0
        invariant
            out@.len() + rest@.len() == all.len(),
            reference_views(out@) == all.take(out@.len() as int).map_values(f),
            reference_views(rest@) == all.skip(out@.len() as int),
            f == (|x: ReferenceModel| with_sorted_entries(x)),
        decreases rest@.len(),
    {
        let ghost k = out@.len() as int;
        let ghost before_rest = rest@;
        let x = rest.remove(0);
        assert(x@ == all[k]) by {
            assert(reference_views(before_rest)[0] == all.skip(k)[0]);
        }
        let Reference { id, source, entries } = x;
        let ghost ev = entry_views(entries@);
        let sorted = sort_by_rank(entries);
        proof {
            assert(views_of(entries@) =~= ev);
            assert(views_of(sorted@) =~= entry_views(sorted@));
        }
        let y = Reference { id, source, entries: sorted };
        let ghost before_out = reference_views(out@);
        out.push(y);
        proof {
            assert(y@ == f(all[k]));
            assert(reference_views(out@) =~= before_out.push(y@));
            assert(all.take(k + 1).map_values(f) =~= all.take(k).map_values(f).push(f(all[k])));
            assert(reference_views(rest@) =~= all.skip(k + 1)) by {
                assert(rest@ =~= before_rest.subrange(1, before_rest.len() as int));
                assert(reference_views(rest@) =~= reference_views(before_rest).subrange(
                    1,
                    before_rest.len() as int,
                ));
                assert(all.skip(k).subrange(1, all.skip(k).len() as int) =~= all.skip(k + 1));
            }
        }
    }
    proof {
        assert(all.take(all.len() as int) =~= all);
    }
    out
}

/// Reads a document, as `document` states.
pub fn parse_document(input: &str) -> (r: DocumentParse)
    ensures
        match document(input@) {
            DocOutcome::Parsed(refs) => r matches DocumentParse::Parsed(v) && reference_views(v@)
                == refs,
            DocOutcome::Failed(e) => r matches DocumentParse::Failed(x) && x@ == e,
            DocOutcome::Overflow => r is PageNumberOverflow,
        },
{
    let text = chars_of(input);
    let lines = strings_of(document_lines(text.as_slice()));
    let ghost ls = string_views(lines@);
    let mut refs: Vec<Reference> = Vec::new();
    let mut pos: usize = 0;
    proof {
        assert(reference_views(refs@) =~= Seq::<ReferenceModel>::empty());
        match references_from(ls, 0) {
            DocOutcome::Parsed(r) => {
                assert(Seq::<ReferenceModel>::empty() + r =~= r);
            },
            _ => {},
        }
    }
    while pos < lines.len()
        invariant
            ls == string_views(lines@),
            ls == doc_lines(input@),
            pos <= lines@.len(),
            references_from(ls, 0) == prepend_refs(reference_views(refs@), references_from(ls, pos as int)),
        decreases lines@.len() - pos,
    {
        let start = pos;
        assert(ls[start as int] == lines@[start as int]@);
        let c = chars_of(lines[start].as_str());
        let id = match find_id(c.as_slice()) {
            Some(v) => string_of(v.as_slice()),
            None => {
                return DocumentParse::Failed(ParseError::InvalidIdLine(lines[start].clone()));
            },
        };
        pos = start + 1;
        let source = match parse_reference(lines.as_slice(), &mut pos) {
            Ok(s) => s,
            Err(e) => {
                return DocumentParse::Failed(e);
            },
        };
        proof {
            lemma_reference_source_advances(ls, start + 1);
            lemma_dash_run_end(ls, pos as int);
        }
        let entries = match parse_pages(&lines, &mut pos) {
            Ok(v) => v,
            Err(d) => {
                return d;
            },
        };
        let r = Reference { id, source, entries };
        let ghost before = reference_views(refs@);
        refs.push(r);
        proof {
            assert(reference_views(refs@) =~= before.push(r@));
            match references_from(ls, pos as int) {
                DocOutcome::Parsed(rest) => {
                    assert(before + (seq![r@] + rest) =~= before.push(r@) + rest);
                },
                _ => {},
            }
        }
    }
    proof {
        assert(reference_views(refs@) + Seq::<ReferenceModel>::empty() =~= reference_views(refs@));
    }
    let ghost unsorted = reference_views(refs@);
    let sorted = sort_by_rank(refs);
    proof {
        assert(views_of(refs@) =~= unsorted);
        assert(views_of(sorted@) =~= reference_views(sorted@));
    }
    let out = sort_each_entries(sorted);
    DocumentParse::Parsed(out)
}

/// The references of a document, as `document` states; an error for the
/// first line that does not fit. A page number beyond `u64` is left out.
pub fn parse_references(input: &str) -> (r: Result<Vec<Reference>, ParseError>)
    requires
        !(document(input@) is Overflow),
    ensures
        match document(input@) {
            DocOutcome::Parsed(refs) => r matches Ok(v) && reference_views(v@) == refs,
            DocOutcome::Failed(e) => r matches Err(x) && x@ == e,
            DocOutcome::Overflow => false,
        },
{
    match parse_document(input) {
        DocumentParse::Parsed(v) => Ok(v),
        DocumentParse::Failed(e) => Err(e),
        DocumentParse::PageNumberOverflow => {
            assert(false);
            Err(ParseError::MissingTitle)
        },
    }
}

/// The ids of the id lines that the reader meets from line `pos` on, in
/// the order of the document, up to where it stops: the id of a reference
/// whose source block or page lines fail is the last.
pub open spec fn ids_from(lines: Seq<Seq<char>>, pos: int) -> Seq<Seq<char>>
    decreases lines.len() - pos,
{
    if pos < 0 || pos >= lines.len() {
        Seq::empty()
    } else {
        match id_of_line(lines[pos]) {
            None => Seq::empty(),
            Some(id) => {
                let (src, p) = reference_source(lines, pos + 1);
                match src {
                    Err(_) => seq![id],
                    Ok(_) => {
                        proof {
                            lemma_reference_source_advances(lines, pos + 1);
                            lemma_dash_run_end(lines, p);
                        }
                        let q = dash_run_end(lines, p);
                        match pages_between(lines, p, q) {
                            PagesOutcome::Pages(_) => seq![id] + ids_from(lines, q),
                            _ => seq![id],
                        }
                    },
                }
            },
        }
    }
}

/// The ids that the reader of `data.md` meets in a document, in its order.
pub open spec fn document_ids(text: Seq<char>) -> Seq<Seq<char>> {
    ids_from(doc_lines(text), 0)
}

/// The ids of a document in the order the reader meets them, as
/// `document_ids` states.
pub fn read_ids(input: &str) -> (r: Vec<String>)
    ensures
        string_views(r@) == document_ids(input@),
{
    let text = chars_of(input);
    let lines = strings_of(document_lines(text.as_slice()));
    let ghost ls = string_views(lines@);
    let mut ids: Vec<String> = Vec::new();
    let mut pos: usize = 0;
    proof {
        assert(string_views(ids@) + ids_from(ls, 0) =~= ids_from(ls, 0));
    }
    while pos < lines.len()
        invariant
            ls == string_views(lines@),
            ls == doc_lines(input@),
            pos <= lines@.len(),
            ids_from(ls, 0) == string_views(ids@) + ids_from(ls, pos as int),
        decreases lines@.len() - pos,
    {
        let start = pos;
        assert(ls[start as int] == lines@[start as int]@);
        let c = chars_of(lines[start].as_str());
        let id = match find_id(c.as_slice()) {
            Some(v) => string_of(v.as_slice()),
            None => {
                proof {
                    assert(string_views(ids@) + Seq::<Seq<char>>::empty() =~= string_views(ids@));
                }
                return ids;
            },
        };
        let ghost before = string_views(ids@);
        let ghost idv = id@;
        ids.push(id);
        proof {
            assert(string_views(ids@) =~= before.push(idv));
        }
        pos = start + 1;
        match parse_reference(lines.as_slice(), &mut pos) {
            Ok(_) => {},
            Err(_) => {
                proof {
                    assert(before + seq![idv] =~= before.push(idv));
                }
                return ids;
            },
        }
        proof {
            lemma_reference_source_advances(ls, start + 1);
            lemma_dash_run_end(ls, pos as int);
        }
        match parse_pages(&lines, &mut pos) {
            Ok(_) => {
                proof {
                    assert(before + (seq![idv] + ids_from(ls, pos as int)) =~= before.push(idv)
                        + ids_from(ls, pos as int));
                }
            },
            Err(_) => {
                proof {
                    assert(before + seq![idv] =~= before.push(idv));
                }
                return ids;
            },
        }
    }
    proof {
        assert(string_views(ids@) + Seq::<Seq<char>>::empty() =~= string_views(ids@));
    }
    ids
}

} // verus!
