//! Character-level text handling: whitespace, trimming, splitting and
//! conversion between `str`/`String` and character vectors.
use vstd::prelude::*;

verus! {

broadcast use vstd::string::group_string_axioms;

/// The Unicode `White_Space` property, which both `char::is_whitespace`
/// and the `\s` class of the line grammar of `data.md` follow.
pub open spec fn is_ws(c: char) -> bool {
    let n = c as u32;
    ||| 0x9 <= n <= 0xD
    ||| n == 0x20
    ||| n == 0x85
    ||| n == 0xA0
    ||| n == 0x1680
    ||| 0x2000 <= n <= 0x200A
    ||| n == 0x2028
    ||| n == 0x2029
    ||| n == 0x202F
    ||| n == 0x205F
    ||| n == 0x3000
}

pub fn is_whitespace(c: char) -> (r: bool)
    ensures
        r == is_ws(c),
{
    let n = c as u32;
    (0x9 <= n && n <= 0xD) || n == 0x20 || n == 0x85 || n == 0xA0 || n == 0x1680 || (0x2000
        <= n && n <= 0x200A) || n == 0x2028 || n == 0x2029 || n == 0x202F || n == 0x205F || n
        == 0x3000
}

/// The characters of a string, in order.
pub fn chars_of(s: &str) -> (v: Vec<char>)
    ensures
        v@ == s@,
{
    let mut v: Vec<char> = Vec::new();
    for c in it: s.chars()
        invariant
            v@ == it.seq().take(it.index()),
            it.seq() == s@,
    {
        v.push(c);
    }
    v
}

/// Appends one character; `String::push` from std.
#[verifier::external_body]
pub(crate) fn push_char(s: &mut String, c: char)
    ensures
        final(s)@ == old(s)@.push(c),
{
    s.push(c);
}

/// A string holding the given characters.
pub fn string_of(v: &[char]) -> (s: String)
    ensures
        s@ == v@,
{
    let mut s = String::new();
    let mut i: usize = 0;
    while i < v.len()
        invariant
            i <= v@.len(),
            s@ == v@.take(i as int),
        decreases v@.len() - i,
    {
        push_char(&mut s, v[i]);
        assert(v@.take(i + 1) == v@.take(i as int).push(v@[i as int]));
        i = i + 1;
    }
    assert(v@.take(v@.len() as int) == v@);
    s
}

/// `s` without its leading whitespace.
pub open spec fn trim_start(s: Seq<char>) -> Seq<char>
    decreases s.len(),
{
    if s.len() > 0 && is_ws(s[0]) {
        trim_start(s.drop_first())
    } else {
        s
    }
}

/// `s` without its trailing whitespace.
pub open spec fn trim_end(s: Seq<char>) -> Seq<char>
    decreases s.len(),
{
    if s.len() > 0 && is_ws(s.last()) {
        trim_end(s.drop_last())
    } else {
        s
    }
}

/// `s` without leading and trailing whitespace, as `str::trim` gives it.
pub open spec fn trim(s: Seq<char>) -> Seq<char> {
    trim_end(trim_start(s))
}

proof fn lemma_trim_start_skip(s: Seq<char>, k: int)
    requires
        0 <= k <= s.len(),
        forall|j: int| 0 <= j < k ==> is_ws(#[trigger] s[j]),
        k == s.len() || !is_ws(s[k]),
    ensures
        trim_start(s) == s.skip(k),
    decreases k,
{
    if k > 0 {
        let t = s.drop_first();
        assert forall|j: int| 0 <= j < k - 1 implies is_ws(#[trigger] t[j]) by {
            assert(t[j] == s[j + 1]);
        }
        if k - 1 < t.len() {
            assert(t[k - 1] == s[k]);
        }
        lemma_trim_start_skip(t, k - 1);
        assert(t.skip(k - 1) =~= s.skip(k));
    } else {
        assert(s.skip(0) =~= s);
    }
}

proof fn lemma_trim_end_take(s: Seq<char>, e: int)
    requires
        0 <= e <= s.len(),
        forall|j: int| e <= j < s.len() ==> is_ws(#[trigger] s[j]),
        e == 0 || !is_ws(s[e - 1]),
    ensures
        trim_end(s) == s.take(e),
    decreases s.len() - e,
{
    if e < s.len() {
        let t = s.drop_last();
        assert forall|j: int| e <= j < t.len() implies is_ws(#[trigger] t[j]) by {
            assert(t[j] == s[j]);
        }
        if e > 0 {
            assert(t[e - 1] == s[e - 1]);
        }
        lemma_trim_end_take(t, e);
        assert(t.take(e) =~= s.take(e));
    } else {
        assert(s.take(e) =~= s);
    }
}

/// The characters `s[from..to]`.
pub fn sub_chars(s: &[char], from: usize, to: usize) -> (r: Vec<char>)
    requires
        from <= to <= s@.len(),
    ensures
        r@ == s@.subrange(from as int, to as int),
{
    let mut r: Vec<char> = Vec::new();
    let mut i = from;
    while i < to
        invariant
            from <= i <= to <= s@.len(),
            r@ == s@.subrange(from as int, i as int),
        decreases to - i,
    {
        r.push(s[i]);
        assert(s@.subrange(from as int, i + 1) =~= s@.subrange(from as int, i as int).push(
            s@[i as int],
        ));
        i = i + 1;
    }
    r
}

/// The bounds `(a, b)` of the trimmed part of `s`.
pub fn trim_bounds(s: &[char]) -> (r: (usize, usize))
    ensures
        r.0 <= r.1 <= s@.len(),
        trim(s@) == s@.subrange(r.0 as int, r.1 as int),
{
    let n = s.len();
    let mut a: usize = 0;
    while a < n && is_whitespace(s[a])
        invariant
            a <= n == s@.len(),
            forall|j: int| 0 <= j < a ==> is_ws(#[trigger] s@[j]),
        decreases n - a,
    {
        a = a + 1;
    }
    proof {
        lemma_trim_start_skip(s@, a as int);
    }
    let mut b: usize = n;
    while b > a && is_whitespace(s[b - 1])
        invariant
            a <= b <= n == s@.len(),
            forall|j: int| b <= j < n ==> is_ws(#[trigger] s@[j]),
        decreases b - a,
    {
        b = b - 1;
    }
    proof {
        let t = s@.skip(a as int);
        let e = b - a;
        assert forall|j: int| e <= j < t.len() implies is_ws(#[trigger] t[j]) by {
            assert(t[j] == s@[j + a]);
        }
        if e > 0 {
            assert(t[e - 1] == s@[b - 1]);
        }
        lemma_trim_end_take(t, e as int);
        assert(t.take(e as int) =~= s@.subrange(a as int, b as int));
    }
    (a, b)
}

/// The trimmed characters of `s`.
pub fn trim_chars(s: &[char]) -> (r: Vec<char>)
    ensures
        r@ == trim(s@),
{
    let (a, b) = trim_bounds(s);
    sub_chars(s, a, b)
}

/// The pieces of `s` between occurrences of `sep`, as `str::split` gives
/// them: one more piece than there are separators.
pub open spec fn split_on(s: Seq<char>, sep: char) -> Seq<Seq<char>>
    decreases s.len(),
{
    if s.len() == 0 {
        seq![Seq::<char>::empty()]
    } else {
        let r = split_on(s.drop_last(), sep);
        if s.last() == sep {
            r.push(Seq::<char>::empty())
        } else {
            r.update(r.len() - 1, r.last().push(s.last()))
        }
    }
}

pub proof fn lemma_split_on_nonempty(s: Seq<char>, sep: char)
    ensures
        split_on(s, sep).len() >= 1,
    decreases s.len(),
{
    if s.len() > 0 {
        lemma_split_on_nonempty(s.drop_last(), sep);
    }
}

/// The non-empty members of `s`, in order.
pub open spec fn keep_nonempty(s: Seq<Seq<char>>) -> Seq<Seq<char>>
    decreases s.len(),
{
    if s.len() == 0 {
        Seq::empty()
    } else {
        let r = keep_nonempty(s.drop_last());
        if s.last().len() > 0 {
            r.push(s.last())
        } else {
            r
        }
    }
}

/// Each member of `s` trimmed.
pub open spec fn trim_all(s: Seq<Seq<char>>) -> Seq<Seq<char>> {
    s.map_values(|l: Seq<char>| trim(l))
}

/// The lines of a document as the reader of `data.md` sees them: the text
/// trimmed, split at `'\n'`, each line trimmed, and the empty ones dropped.
pub open spec fn doc_lines(text: Seq<char>) -> Seq<Seq<char>> {
    keep_nonempty(trim_all(split_on(trim(text), '\n')))
}

/// The character sequences held by a sequence of character vectors.
pub open spec fn views(v: Seq<Vec<char>>) -> Seq<Seq<char>> {
    v.map_values(|x: Vec<char>| x@)
}

/// The lines of a document, as `doc_lines` states.
pub fn document_lines(text: &[char]) -> (lines: Vec<Vec<char>>)
    ensures
        views(lines@) == doc_lines(text@),
{
    let (a, b) = trim_bounds(text);
    let ghost t = trim(text@);
    let mut lines: Vec<Vec<char>> = Vec::new();
    let mut cur: Vec<char> = Vec::new();
    let mut i = a;
    proof {
        assert(t.take(0) =~= Seq::<char>::empty());
        assert(split_on(t.take(0), '\n') =~= seq![Seq::<char>::empty()]);
        assert(split_on(t.take(0), '\n').drop_last() =~= Seq::<Seq<char>>::empty());
        assert(trim_all(Seq::<Seq<char>>::empty()) =~= Seq::<Seq<char>>::empty());
    }
    while i < b
        invariant
            a <= i <= b <= text@.len(),
            t == text@.subrange(a as int, b as int),
            ({
                let p = split_on(t.take(i - a), '\n');
                &&& p.len() >= 1
                &&& cur@ == p.last()
                &&& views(lines@) == keep_nonempty(trim_all(p.drop_last()))
            }),
        decreases b - i,
    {
        let ghost p = split_on(t.take(i - a), '\n');
        let ghost q = t.take(i + 1 - a);
        proof {
            assert(q.drop_last() =~= t.take(i - a));
            assert(q.last() == text@[i as int]);
        }
        let c = text[i];
        if c == '\n' {
            let tl = trim_chars(cur.as_slice());
            proof {
                assert(split_on(q, '\n') == p.push(Seq::<char>::empty()));
                assert(p.push(Seq::<char>::empty()).drop_last() =~= p);
                assert(p =~= p.drop_last().push(p.last()));
                assert(trim_all(p) =~= trim_all(p.drop_last()).push(trim(p.last())));
                assert(trim_all(p).drop_last() =~= trim_all(p.drop_last()));
            }
            if tl.len() > 0 {
                let ghost before = views(lines@);
                lines.push(tl);
                proof {
                    assert(views(lines@) =~= before.push(tl@));
                }
            }
            cur = Vec::new();
        } else {
            cur.push(c);
            proof {
                assert(split_on(q, '\n') == p.update(p.len() - 1, p.last().push(c)));
                assert(p.update(p.len() - 1, p.last().push(c)).drop_last() =~= p.drop_last());
            }
        }
        proof {
            lemma_split_on_nonempty(q, '\n');
        }
        i = i + 1;
    }
    let tl = trim_chars(cur.as_slice());
    let ghost p = split_on(t, '\n');
    proof {
        assert(t.take(b - a) =~= t);
        assert(p =~= p.drop_last().push(p.last()));
        assert(trim_all(p) =~= trim_all(p.drop_last()).push(trim(p.last())));
        assert(trim_all(p).drop_last() =~= trim_all(p.drop_last()));
    }
    if tl.len() > 0 {
        let ghost before = views(lines@);
        lines.push(tl);
        proof {
            assert(views(lines@) =~= before.push(tl@));
        }
    }
    lines
}

/// The end of the run of whitespace in `s` from `i`.
pub open spec fn blank_end(s: Seq<char>, i: int) -> int
    decreases s.len() - i,
{
    if 0 <= i < s.len() && is_ws(s[i]) {
        blank_end(s, i + 1)
    } else {
        i
    }
}

/// The end of the run of non-whitespace in `s` from `i`.
pub open spec fn word_end(s: Seq<char>, i: int) -> int
    decreases s.len() - i,
{
    if 0 <= i < s.len() && !is_ws(s[i]) {
        word_end(s, i + 1)
    } else {
        i
    }
}

pub proof fn lemma_blank_word_end(s: Seq<char>, i: int)
    requires
        0 <= i <= s.len(),
    ensures
        i <= blank_end(s, i) <= s.len(),
        i <= word_end(s, i) <= s.len(),
        i < s.len() && !is_ws(s[i]) ==> i < word_end(s, i),
        blank_end(s, i) < s.len() ==> !is_ws(s[blank_end(s, i)]),
    decreases s.len() - i,
{
    if i < s.len() {
        lemma_blank_word_end(s, i + 1);
    }
}

/// The words of `s` from `i` on: its maximal runs of non-whitespace.
pub open spec fn words_from(s: Seq<char>, i: int) -> Seq<Seq<char>>
    decreases s.len() - i,
{
    if i < 0 || i > s.len() {
        Seq::empty()
    } else {
        let a = blank_end(s, i);
        if a >= s.len() {
            Seq::empty()
        } else {
            proof {
                lemma_blank_word_end(s, i);
                lemma_blank_word_end(s, a);
            }
            let b = word_end(s, a);
            seq![s.subrange(a, b)] + words_from(s, b)
        }
    }
}

/// The words of `s`, as `str::split_whitespace` gives them.
pub open spec fn words(s: Seq<char>) -> Seq<Seq<char>> {
    words_from(s, 0)
}

/// The words of a string, as `words` states.
pub fn split_words(s: &str) -> (r: Vec<String>)
    ensures
        r@.map_values(|w: String| w@) == words(s@),
{
    let c = chars_of(s);
    let n = c.len();
    let mut r: Vec<String> = Vec::new();
    let mut i: usize = 0;
    proof {
        assert(r@.map_values(|w: String| w@) + words_from(c@, 0) =~= words(s@));
    }
    while i < n
        invariant
            i <= n == c@.len(),
            c@ == s@,
            r@.map_values(|w: String| w@) + words_from(c@, i as int) == words(s@),
        decreases n - i,
    {
        proof {
            lemma_blank_word_end(c@, i as int);
        }
        let mut a = i;
        while a < n && is_whitespace(c[a])
            invariant
                i <= a <= n == c@.len(),
                blank_end(c@, i as int) == blank_end(c@, a as int),
            decreases n - a,
        {
            a = a + 1;
        }
        if a >= n {
            proof {
                assert(words_from(c@, i as int) =~= Seq::<Seq<char>>::empty());
            }
            i = n;
        } else {
            proof {
                lemma_blank_word_end(c@, a as int);
            }
            let mut b = a;
            while b < n && !is_whitespace(c[b])
                invariant
                    a <= b <= n == c@.len(),
                    word_end(c@, a as int) == word_end(c@, b as int),
                decreases n - b,
            {
                b = b + 1;
            }
            let w = string_of(sub_chars(c.as_slice(), a, b).as_slice());
            let ghost before = r@.map_values(|w: String| w@);
            r.push(w);
            proof {
                assert(r@.map_values(|w: String| w@) =~= before.push(w@));
                assert(before.push(w@) + words_from(c@, b as int) =~= before + (seq![w@]
                    + words_from(c@, b as int)));
            }
            i = b;
        }
    }
    proof {
        assert(words_from(c@, n as int) =~= Seq::<Seq<char>>::empty());
        assert(r@.map_values(|w: String| w@) + Seq::<Seq<char>>::empty() =~= r@.map_values(
            |w: String| w@,
        ));
    }
    r
}

/// The pieces of a text between its `'\n'` characters, as `split_on` states.
pub fn split_newlines(s: &str) -> (r: Vec<String>)
    ensures
        r@.map_values(|l: String| l@) == split_on(s@, '\n'),
{
    let text = chars_of(s);
    let n = text.len();
    let mut done: Vec<String> = Vec::new();
    let mut cur: Vec<char> = Vec::new();
    let mut i: usize = 0;
    proof {
        assert(text@.take(0) =~= Seq::<char>::empty());
        assert(split_on(text@.take(0), '\n') =~= seq![Seq::<char>::empty()]);
        assert(done@.map_values(|l: String| l@) =~= Seq::<Seq<char>>::empty());
    }
    while i < n
        invariant
            i <= n == text@.len(),
            ({
                let p = split_on(text@.take(i as int), '\n');
                &&& p.len() >= 1
                &&& cur@ == p.last()
                &&& done@.map_values(|l: String| l@) == p.drop_last()
            }),
        decreases n - i,
    {
        let ghost p = split_on(text@.take(i as int), '\n');
        let ghost q = text@.take(i + 1);
        proof {
            assert(q.drop_last() =~= text@.take(i as int));
            assert(q.last() == text@[i as int]);
        }
        let c = text[i];
        if c == '\n' {
            let piece = string_of(cur.as_slice());
            let ghost before = done@.map_values(|l: String| l@);
            done.push(piece);
            proof {
                assert(split_on(q, '\n') == p.push(Seq::<char>::empty()));
                assert(p.push(Seq::<char>::empty()).drop_last() =~= p);
                assert(p =~= p.drop_last().push(p.last()));
                assert(done@.map_values(|l: String| l@) =~= before.push(piece@));
            }
            cur = Vec::new();
        } else {
            cur.push(c);
            proof {
                assert(split_on(q, '\n') == p.update(p.len() - 1, p.last().push(c)));
                assert(p.update(p.len() - 1, p.last().push(c)).drop_last() =~= p.drop_last());
            }
        }
        proof {
            lemma_split_on_nonempty(q, '\n');
        }
        i = i + 1;
    }
    let piece = string_of(cur.as_slice());
    let ghost before = done@.map_values(|l: String| l@);
    let ghost p = split_on(text@, '\n');
    done.push(piece);
    proof {
        assert(text@.take(n as int) =~= text@);
        assert(p =~= p.drop_last().push(p.last()));
        assert(done@.map_values(|l: String| l@) =~= before.push(piece@));
    }
    done
}

} // verus!
