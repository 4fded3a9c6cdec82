//! Checking downloaded files, and the lines that report on them.
use vstd::prelude::*;
use crate::model::VerificationResult;
use crate::index::{first_word, first_word_of, DiffEntry, opt_view};
use crate::text::{chars_of, push_char};
use crate::parse::str_equal;

verus! {

/// `t` occurs in `s`.
pub open spec fn contains_text(s: Seq<char>, t: Seq<char>) -> bool {
    exists|i: int| 0 <= i && i + t.len() <= s.len() && #[trigger] s.subrange(i, i + t.len()) == t
}

/// Whether `t` occurs in `s`.
pub fn find_text(s: &[char], t: &[char]) -> (r: bool)
    ensures
        r == contains_text(s@, t@),
{
    if t.len() > s.len() {
        return false;
    }
    if t.len() == 0 {
        assert(s@.subrange(0, 0int + t@.len()) =~= t@);
        return true;
    }
    let n = s.len();
    let last = n - t.len();
    let mut i: usize = 0;
    while i <= last
        invariant
            last == s@.len() - t@.len(),
            n == s@.len(),
            0 < t@.len() <= s@.len(),
            i <= last + 1,
            forall|j: int| 0 <= j < i ==> #[trigger] s@.subrange(j, j + t@.len()) != t@,
        decreases last + 1 - i,
    {
        let mut k: usize = 0;
        let mut same = true;
        while k < t.len()
            invariant
                i <= last,
                n == s@.len(),
                last == s@.len() - t@.len(),
                t@.len() <= s@.len(),
                k <= t@.len(),
                same == forall|m: int| 0 <= m < k ==> s@[i + m] == t@[m],
            decreases t@.len() - k,
        {
            if s[i + k] != t[k] {
                same = false;
            }
            k = k + 1;
        }
        if same {
            assert(s@.subrange(i as int, i + t@.len()) =~= t@);
            return true;
        }
        proof {
            let m = choose|m: int| 0 <= m < t@.len() && s@[i + m] != t@[m];
            assert(s@.subrange(i as int, i + t@.len())[m] != t@[m]);
        }
        i = i + 1;
    }
    proof {
        assert forall|j: int| 0 <= j && j + t@.len() <= s@.len() implies #[trigger] s@.subrange(
            j,
            j + t@.len(),
        ) != t@ by {
            assert(j <= last);
        }
    }
    false
}

/// What checking a file finds: whether it is there, whether `file` calls it
/// a PDF document, and whether the first word of what `sha1sum` prints is
/// the expected hash. A file that is not there is neither.
pub fn verification_result(filename: String, outputs: Option<(&str, &str)>, expected_hash: &str) -> (r:
    VerificationResult)
    ensures
        r.filename@ == filename@,
        r.found == outputs is Some,
        match outputs {
            Some((file_type, sha1)) => {
                &&& r.is_pdf == contains_text(file_type@, "PDF document"@)
                &&& r.hash_matched == (first_word(sha1@) == expected_hash@)
            },
            None => !r.is_pdf && !r.hash_matched,
        },
{
    match outputs {
        Some((file_type, sha1)) => {
            let f = chars_of(file_type);
            let marker = chars_of("PDF document");
            let is_pdf = find_text(f.as_slice(), marker.as_slice());
            let calculated = first_word_of(sha1);
            let hash_matched = str_equal(calculated.as_str(), expected_hash);
            VerificationResult { filename, found: true, is_pdf, hash_matched }
        },
        None => VerificationResult { filename, found: false, is_pdf: false, hash_matched: false },
    }
}

/// `s` padded with spaces to `width` characters, as `{:width}` writes a
/// string.
pub open spec fn padded(s: Seq<char>, width: nat) -> Seq<char> {
    if s.len() >= width {
        s
    } else {
        s + Seq::new((width - s.len()) as nat, |i: int| ' ')
    }
}

pub open spec fn bool_text(b: bool) -> Seq<char> {
    if b {
        "true"@
    } else {
        "false"@
    }
}

fn push_bool(s: &mut String, b: bool)
    ensures
        final(s)@ == old(s)@ + bool_text(b),
{
    if b {
        s.append("true");
    } else {
        s.append("false");
    }
}

fn push_padded(s: &mut String, t: &str, width: usize)
    ensures
        final(s)@ == old(s)@ + padded(t@, width as nat),
{
    let c = chars_of(t);
    s.append(t);
    if c.len() < width {
        let ghost base = s@;
        let mut k: usize = c.len();
        while k < width
            invariant
                c@.len() <= k <= width,
                s@ == base + Seq::new((k - c@.len()) as nat, |i: int| ' '),
            decreases width - k,
        {
            push_char(s, ' ');
            proof {
                assert(base + Seq::new((k + 1 - c@.len()) as nat, |i: int| ' ') =~= (base + Seq::new(
                    (k - c@.len()) as nat,
                    |i: int| ' ',
                )).push(' '));
            }
            k = k + 1;
        }
        proof {
            assert(s@ =~= old(s)@ + padded(t@, width as nat));
        }
    }
}

/// The report of one checked file.
pub open spec fn status_text(name: Seq<char>, found: bool, is_pdf: bool, hash_matched: bool) -> Seq<char> {
    padded(name, 32) + " found: "@ + bool_text(found) + " is_pdf: "@ + bool_text(is_pdf)
        + " hash_matched: "@ + bool_text(hash_matched)
}

/// The report of one checked file, as `status_text` states.
pub fn status_line(name: &str, found: bool, is_pdf: bool, hash_matched: bool) -> (r: String)
    ensures
        r@ == status_text(name@, found, is_pdf, hash_matched),
{
    let mut r = String::new();
    push_padded(&mut r, name, 32);
    r.append(" found: ");
    push_bool(&mut r, found);
    r.append(" is_pdf: ");
    push_bool(&mut r, is_pdf);
    r.append(" hash_matched: ");
    push_bool(&mut r, hash_matched);
    r
}

/// How a name differs between the stored and the new index.
#[derive(Clone, Copy, Debug, PartialEq, Eq, Structural)]
pub enum DiffAction {
    /// The same hash in both: nothing to report.
    Unchanged,
    /// Another hash in the new index: the file is checked.
    Changed,
    /// Only in the new index, downloaded: the file is checked.
    Added,
    /// Only in the new index, not downloaded.
    NotDownloaded,
    /// Only in the stored index.
    Removed,
}

pub open spec fn diff_action_of(old: Option<Seq<char>>, new: Option<Seq<char>>) -> DiffAction {
    match (old, new) {
        (Some(o), Some(n)) => if o != n {
            DiffAction::Changed
        } else {
            DiffAction::Unchanged
        },
        (None, Some(n)) => if n == "?"@ {
            DiffAction::NotDownloaded
        } else {
            DiffAction::Added
        },
        (Some(_), None) => DiffAction::Removed,
        (None, None) => DiffAction::Unchanged,
    }
}

/// How a name differs between the two indexes, as `diff_action_of` states.
pub fn diff_action(entry: &DiffEntry) -> (r: DiffAction)
    ensures
        r == diff_action_of(opt_view(entry.old_hash), opt_view(entry.new_hash)),
{
    match (&entry.old_hash, &entry.new_hash) {
        (Some(o), Some(n)) => if str_equal(o.as_str(), n.as_str()) {
            DiffAction::Unchanged
        } else {
            DiffAction::Changed
        },
        (None, Some(n)) => if str_equal(n.as_str(), "?") {
            DiffAction::NotDownloaded
        } else {
            DiffAction::Added
        },
        (Some(_), None) => DiffAction::Removed,
        (None, None) => DiffAction::Unchanged,
    }
}

/// The report of one name that differs between the indexes; for a checked
/// file, with what the check found.
pub open spec fn diff_text(action: DiffAction, name: Seq<char>, is_pdf: bool, hash_matched: bool) -> Option<
    Seq<char>,
> {
    match action {
        DiffAction::Unchanged => None,
        DiffAction::Changed => Some("~ "@ + padded(name, 32) + " <downloaded> is_pdf: "@ + bool_text(
            is_pdf,
        ) + " hash_matched: "@ + bool_text(hash_matched)),
        DiffAction::Added => Some("+ "@ + padded(name, 32) + " <downloaded> is_pdf: "@ + bool_text(
            is_pdf,
        ) + " hash_matched: "@ + bool_text(hash_matched)),
        DiffAction::NotDownloaded => Some("+ "@ + status_text(name, false, false, false)),
        DiffAction::Removed => Some("- "@ + status_text(name, true, true, true)),
    }
}

/// The report of one name that differs between the indexes, as `diff_text`
/// states; `check` is what checking the file found, where it was checked.
pub fn diff_line(action: DiffAction, name: &str, check: Option<&VerificationResult>) -> (r: Option<
    String,
>)
    requires
        (action is Changed || action is Added) ==> check is Some,
    ensures
        match check {
            Some(c) => opt_view(r) == diff_text(action, name@, c.is_pdf, c.hash_matched),
            None => opt_view(r) == diff_text(action, name@, false, false),
        },
{
    let (is_pdf, hash_matched) = match check {
        Some(c) => (c.is_pdf, c.hash_matched),
        None => (false, false),
    };
    match action {
        DiffAction::Unchanged => None,
        DiffAction::Changed | DiffAction::Added => {
            let mut r = String::new();
            if action == DiffAction::Changed {
                r.append("~ ");
            } else {
                r.append("+ ");
            }
            push_padded(&mut r, name, 32);
            r.append(" <downloaded> is_pdf: ");
            push_bool(&mut r, is_pdf);
            r.append(" hash_matched: ");
            push_bool(&mut r, hash_matched);
            Some(r)
        },
        DiffAction::NotDownloaded => {
            let mut r = String::new();
            r.append("+ ");
            let s = status_line(name, false, false, false);
            r.append(s.as_str());
            Some(r)
        },
        DiffAction::Removed => {
            let mut r = String::new();
            r.append("- ");
            let s = status_line(name, true, true, true);
            r.append(s.as_str());
            Some(r)
        },
    }
}

} // verus!
