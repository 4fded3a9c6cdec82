//! What holds of the library as a whole: what reading gives back of what was
//! written, and the order of what is read.
use vstd::prelude::*;
use crate::text::{
    split_on, lemma_split_on_nonempty, is_ws, words, words_from, blank_end, word_end,
    trim, trim_start, trim_end, keep_nonempty, trim_all, doc_lines,
};
use crate::render::{join, decimal, digit_char, data_md, data_md_entry, data_md_item, header_text};
use crate::model::{
    SourceModel, ReferenceModel, EntryModel, reference_le, entry_le, reference_order_fn,
    entry_order_fn, text_order_fn, lemma_reference_well_ordered, lemma_entry_well_ordered,
    lemma_orders_unfold,
};
use crate::order::{lemma_le_total, lex, Order};
use vstd::relations::sorted_by;
use vstd::seq_lib::lemma_sorted_unique;
use vstd::multiset::Multiset;
use crate::parse::fence;
use crate::parse::{
    digits_value, is_digit, is_id_char, ws_run_end, id_run_end, digit_run_end, id_match_at,
    first_id_match, id_of_line, page_line, PageLine, reference_source, line_at, dash_run_end,
    pages_between, PagesOutcome, references_from, DocOutcome, document, sorted_references,
    with_sorted_entries, prepend_refs,
};
use crate::index::{index_text, stored_index, stored_pairs, listed_pairs, map_of};

verus! {

/// Splitting at a separator splits the two sides apart.
pub proof fn lemma_split_on_concat(a: Seq<char>, b: Seq<char>, sep: char)
    ensures
        split_on(a + seq![sep] + b, sep) == split_on(a, sep) + split_on(b, sep),
    decreases b.len(),
{
    if b.len() == 0 {
        let t = a + seq![sep];
        assert(t.drop_last() =~= a);
        assert(split_on(b, sep) =~= seq![Seq::<char>::empty()]);
        assert(split_on(t, sep) =~= split_on(a, sep) + split_on(b, sep));
    } else {
        let t = a + seq![sep] + b;
        assert(t.drop_last() =~= a + seq![sep] + b.drop_last());
        lemma_split_on_concat(a, b.drop_last(), sep);
        lemma_split_on_nonempty(b.drop_last(), sep);
        lemma_split_on_nonempty(a, sep);
        let x = split_on(a, sep);
        let y = split_on(b.drop_last(), sep);
        if b.last() == sep {
            assert(split_on(t, sep) =~= x + y.push(Seq::<char>::empty()));
        } else {
            assert((x + y).update((x + y).len() - 1, (x + y).last().push(b.last())) =~= x + y.update(
                y.len() - 1,
                y.last().push(b.last()),
            ));
        }
    }
}

/// A text without the separator is one piece.
pub proof fn lemma_split_on_single(a: Seq<char>, sep: char)
    requires
        !a.contains(sep),
    ensures
        split_on(a, sep) == seq![a],
    decreases a.len(),
{
    if a.len() > 0 {
        let q = a.drop_last();
        assert(!q.contains(sep)) by {
            if q.contains(sep) {
                let i = choose|i: int| 0 <= i < q.len() && q[i] == sep;
                assert(a[i] == sep);
            }
        }
        lemma_split_on_single(q, sep);
        assert(a.last() != sep) by {
            assert(a[a.len() - 1] == a.last());
        }
        assert(q.push(a.last()) =~= a);
        assert(seq![q].update(0, q.push(a.last())) =~= seq![a]);
    } else {
        assert(a =~= Seq::<char>::empty());
    }
}

/// Joining pieces without the separator and splitting again gives the
/// pieces back.
pub proof fn lemma_split_join(items: Seq<Seq<char>>, sep: char)
    requires
        items.len() > 0,
        forall|i: int| 0 <= i < items.len() ==> !(#[trigger] items[i]).contains(sep),
    ensures
        split_on(join(items, seq![sep]), sep) == items,
    decreases items.len(),
{
    if items.len() == 1 {
        lemma_split_on_single(items[0], sep);
        assert(seq![items[0]] =~= items);
    } else {
        let q = items.drop_last();
        lemma_split_join(q, sep);
        lemma_split_on_concat(join(q, seq![sep]), items.last(), sep);
        lemma_split_on_single(items.last(), sep);
        assert(q + seq![items.last()] =~= items);
    }
}

/// A word: not empty, without whitespace.
pub open spec fn is_word(w: Seq<char>) -> bool {
    w.len() > 0 && forall|j: int| 0 <= j < w.len() ==> !is_ws(#[trigger] w[j])
}

proof fn lemma_word_end_at(s: Seq<char>, i: int, j: int)
    requires
        0 <= i <= j <= s.len(),
        forall|k: int| i <= k < j ==> !is_ws(#[trigger] s[k]),
        j == s.len() || is_ws(s[j]),
    ensures
        word_end(s, i) == j,
    decreases j - i,
{
    if i < j {
        lemma_word_end_at(s, i + 1, j);
    }
}

proof fn lemma_blank_end_at(s: Seq<char>, i: int, j: int)
    requires
        0 <= i <= j <= s.len(),
        forall|k: int| i <= k < j ==> is_ws(#[trigger] s[k]),
        j == s.len() || !is_ws(s[j]),
    ensures
        blank_end(s, i) == j,
    decreases j - i,
{
    if i < j {
        lemma_blank_end_at(s, i + 1, j);
    }
}

/// The words of a hash, two spaces and a name are the hash and the name.
pub proof fn lemma_index_line_words(h: Seq<char>, f: Seq<char>)
    requires
        is_word(h),
        is_word(f),
    ensures
        words(h + "  "@ + f) == seq![h, f],
{
    reveal_strlit("  ");
    let s = h + "  "@ + f;
    let n = s.len() as int;
    let a = h.len() as int;
    assert(s[a] == ' ' && s[a + 1] == ' ');
    assert forall|k: int| 0 <= k < a implies !is_ws(#[trigger] s[k]) by {
        assert(s[k] == h[k]);
    }
    assert forall|k: int| a + 2 <= k < n implies !is_ws(#[trigger] s[k]) by {
        assert(s[k] == f[k - a - 2]);
    }
    lemma_blank_end_at(s, 0, 0);
    lemma_word_end_at(s, 0, a);
    lemma_blank_end_at(s, a, a + 2);
    lemma_word_end_at(s, a + 2, n);
    lemma_blank_end_at(s, n, n);
    assert(s.subrange(0, a) =~= h);
    assert(s.subrange(a + 2, n) =~= f);
    assert(words_from(s, n) =~= Seq::<Seq<char>>::empty());
    assert(words_from(s, a) == seq![f] + words_from(s, n));
    assert(words_from(s, 0) == seq![h] + words_from(s, a));
    assert(words(s) =~= seq![h, f]);
}

pub open spec fn index_lines(pairs: Seq<(Seq<char>, Seq<char>)>) -> Seq<Seq<char>> {
    pairs.map_values(|p: (Seq<char>, Seq<char>)| p.1 + "  "@ + p.0)
}

proof fn lemma_index_lines_read(pairs: Seq<(Seq<char>, Seq<char>)>)
    requires
        forall|i: int| 0 <= i < pairs.len() ==> is_word((#[trigger] pairs[i]).0) && is_word(
            pairs[i].1,
        ),
    ensures
        stored_pairs(index_lines(pairs)) == pairs,
        listed_pairs(index_lines(pairs)) == pairs,
    decreases pairs.len(),
{
    if pairs.len() > 0 {
        let q = pairs.drop_last();
        lemma_index_lines_read(q);
        assert(index_lines(pairs).drop_last() =~= index_lines(q));
        let p = pairs.last();
        assert(is_word(pairs[pairs.len() - 1].0));
        lemma_index_line_words(p.1, p.0);
        assert(index_lines(pairs).last() == p.1 + "  "@ + p.0);
        assert(q.push(p) =~= pairs);
    } else {
        assert(index_lines(pairs) =~= Seq::<Seq<char>>::empty());
    }
}

/// Reading back a written index gives it back, by either reader: the
/// stored index of a download and the list of a check; for an index whose
/// names and hashes are words.
pub proof fn lemma_index_round_trip(pairs: Seq<(Seq<char>, Seq<char>)>)
    requires
        forall|i: int| 0 <= i < pairs.len() ==> is_word((#[trigger] pairs[i]).0) && is_word(
            pairs[i].1,
        ),
    ensures
        stored_index(index_text(pairs)) == map_of(pairs),
        listed_pairs(split_on(index_text(pairs), '\n')) == pairs,
{
    reveal_strlit("\n");
    reveal_strlit("  ");
    assert("\n"@ =~= seq!['\n']);
    let ls = index_lines(pairs);
    lemma_index_lines_read(pairs);
    if pairs.len() > 0 {
        assert forall|i: int| 0 <= i < ls.len() implies !(#[trigger] ls[i]).contains('\n') by {
            let p = pairs[i];
            let l = p.1 + "  "@ + p.0;
            assert(ls[i] == l);
            if l.contains('\n') {
                let k = choose|k: int| 0 <= k < l.len() && l[k] == '\n';
                if k < p.1.len() {
                    assert(l[k] == p.1[k]);
                } else if k >= p.1.len() + 2 {
                    assert(l[k] == p.0[k - p.1.len() - 2]);
                }
            }
        }
        lemma_split_join(ls, '\n');
    } else {
        assert(ls =~= Seq::<Seq<char>>::empty());
        assert(split_on(index_text(pairs), '\n') =~= seq![Seq::<char>::empty()]);
        assert(words(Seq::<char>::empty()) =~= Seq::<Seq<char>>::empty());
        assert(seq![Seq::<char>::empty()].drop_last() =~= Seq::<Seq<char>>::empty());
        assert(pairs =~= Seq::<(Seq<char>, Seq<char>)>::empty());
    }
}

proof fn lemma_digit_char(d: nat)
    requires
        d < 10,
    ensures
        digit_char(d) as int - '0' as int == d,
        is_digit(digit_char(d)),
{
    assert('0' as int == 48 && '1' as int == 49 && '2' as int == 50 && '3' as int == 51 && '4' as int
        == 52 && '5' as int == 53 && '6' as int == 54 && '7' as int == 55 && '8' as int == 56
        && '9' as int == 57);
}

/// The decimal representation of a number is digits, and their value is
/// the number.
pub proof fn lemma_decimal_digits(n: nat)
    ensures
        decimal(n).len() > 0,
        forall|j: int| 0 <= j < decimal(n).len() ==> is_digit(#[trigger] decimal(n)[j]),
        digits_value(decimal(n)) == n,
    decreases n,
{
    lemma_digit_char(n % 10);
    if n < 10 {
        assert(n % 10 == n);
        assert(decimal(n) == seq![digit_char(n)]);
        assert(decimal(n).drop_last() =~= Seq::<char>::empty());
        assert(digits_value(Seq::<char>::empty()) == 0);
        assert(decimal(n).last() == digit_char(n));
        assert(digits_value(decimal(n)) == 0 * 10 + (digit_char(n) as int - '0' as int) as nat);
    } else {
        lemma_decimal_digits(n / 10);
        let d = decimal(n / 10);
        assert(decimal(n).drop_last() =~= d);
        assert forall|j: int| 0 <= j < decimal(n).len() implies is_digit(#[trigger] decimal(n)[j]) by {
            if j < d.len() {
                assert(decimal(n)[j] == d[j]);
            }
        }
        assert(decimal(n).last() == digit_char(n % 10));
        assert(digits_value(decimal(n)) == (n / 10) * 10 + n % 10);
    }
}

proof fn lemma_keep_concat(x: Seq<Seq<char>>, y: Seq<Seq<char>>)
    ensures
        keep_nonempty(x + y) == keep_nonempty(x) + keep_nonempty(y),
    decreases y.len(),
{
    if y.len() == 0 {
        assert(x + y =~= x);
        assert(keep_nonempty(x) + keep_nonempty(y) =~= keep_nonempty(x));
    } else {
        assert((x + y).drop_last() =~= x + y.drop_last());
        lemma_keep_concat(x, y.drop_last());
        if y.last().len() > 0 {
            assert(keep_nonempty(x) + keep_nonempty(y.drop_last()).push(y.last()) =~= (keep_nonempty(x)
                + keep_nonempty(y.drop_last())).push(y.last()));
        }
    }
}

proof fn lemma_trim_all_concat(x: Seq<Seq<char>>, y: Seq<Seq<char>>)
    ensures
        trim_all(x + y) == trim_all(x) + trim_all(y),
{
    assert(trim_all(x + y) =~= trim_all(x) + trim_all(y));
}

/// Leading whitespace does not change a trimmed text.
proof fn lemma_trim_prepend(c: char, p: Seq<char>)
    requires
        is_ws(c),
    ensures
        trim(seq![c] + p) == trim(p),
{
    assert((seq![c] + p).drop_first() =~= p);
}

/// Trailing whitespace does not change a trimmed text.
proof fn lemma_trim_push(p: Seq<char>, c: char)
    requires
        is_ws(c),
    ensures
        trim(p.push(c)) == trim(p),
    decreases p.len(),
{
    if p.len() == 0 {
        assert(p.push(c) =~= seq![c]);
        assert(seq![c].drop_first() =~= Seq::<char>::empty());
        assert(seq![c][0] == c);
        assert(trim_start(seq![c]) == trim_start(Seq::<char>::empty()));
    } else if is_ws(p[0]) {
        assert(p.push(c).drop_first() =~= p.drop_first().push(c));
        lemma_trim_push(p.drop_first(), c);
    } else {
        assert(p.push(c)[0] == p[0]);
        assert(p.push(c).drop_last() =~= p);
    }
}

/// A character other than the separator joins the first piece.
proof fn lemma_split_prepend(c: char, u: Seq<char>, sep: char)
    requires
        c != sep,
    ensures
        split_on(seq![c] + u, sep).len() == split_on(u, sep).len(),
        split_on(u, sep).len() >= 1,
        split_on(seq![c] + u, sep) == split_on(u, sep).update(0, seq![c] + split_on(u, sep)[0]),
    decreases u.len(),
{
    lemma_split_on_nonempty(u, sep);
    if u.len() == 0 {
        assert(seq![c] + u =~= seq![c]);
        assert(seq![c].drop_last() =~= Seq::<char>::empty());
        assert(split_on(Seq::<char>::empty(), sep) == seq![Seq::<char>::empty()]);
        assert(Seq::<char>::empty().push(c) =~= seq![c]);
        assert(seq![c].last() == c);
        assert(split_on(seq![c], sep) =~= seq![seq![c]]);
        assert(split_on(u, sep).update(0, seq![c] + split_on(u, sep)[0]) =~= seq![seq![c]]);
    } else {
        let v = u.drop_last();
        lemma_split_prepend(c, v, sep);
        lemma_split_on_nonempty(v, sep);
        assert((seq![c] + u).drop_last() =~= seq![c] + v);
        assert((seq![c] + u).last() == u.last());
        let a = split_on(v, sep);
        let b = a.update(0, seq![c] + a[0]);
        if u.last() == sep {
            assert(b.push(Seq::<char>::empty()) =~= a.push(Seq::<char>::empty()).update(
                0,
                seq![c] + a.push(Seq::<char>::empty())[0],
            ));
        } else {
            let x = u.last();
            if a.len() == 1 {
                assert(b.update(b.len() - 1, b.last().push(x)) =~= a.update(
                    a.len() - 1,
                    a.last().push(x),
                ).update(0, seq![c] + a.update(a.len() - 1, a.last().push(x))[0]));
            } else {
                assert(b.update(b.len() - 1, b.last().push(x)) =~= a.update(
                    a.len() - 1,
                    a.last().push(x),
                ).update(0, seq![c] + a.update(a.len() - 1, a.last().push(x))[0]));
            }
        }
    }
}

pub open spec fn doc_pieces(t: Seq<char>) -> Seq<Seq<char>> {
    keep_nonempty(trim_all(split_on(t, '\n')))
}

proof fn lemma_pieces_drop_first(c: char, u: Seq<char>)
    requires
        is_ws(c),
    ensures
        doc_pieces(seq![c] + u) == doc_pieces(u),
{
    if c == '\n' {
        lemma_split_on_concat(Seq::<char>::empty(), u, '\n');
        assert(Seq::<char>::empty() + seq!['\n'] + u =~= seq![c] + u);
        assert(split_on(Seq::<char>::empty(), '\n') =~= seq![Seq::<char>::empty()]);
        lemma_trim_all_concat(seq![Seq::<char>::empty()], split_on(u, '\n'));
        lemma_keep_concat(trim_all(seq![Seq::<char>::empty()]), trim_all(split_on(u, '\n')));
        assert(trim_all(seq![Seq::<char>::empty()]) =~= seq![Seq::<char>::empty()]);
        assert(seq![Seq::<char>::empty()].drop_last() =~= Seq::<Seq<char>>::empty());
        assert(seq![Seq::<char>::empty()].last().len() == 0);
        assert(keep_nonempty(Seq::<Seq<char>>::empty()) == Seq::<Seq<char>>::empty());
        assert(keep_nonempty(seq![Seq::<char>::empty()]) =~= Seq::<Seq<char>>::empty());
        assert(Seq::<Seq<char>>::empty() + keep_nonempty(trim_all(split_on(u, '\n')))
            =~= keep_nonempty(trim_all(split_on(u, '\n'))));
    } else {
        lemma_split_prepend(c, u, '\n');
        let a = split_on(u, '\n');
        lemma_trim_prepend(c, a[0]);
        assert(trim_all(split_on(seq![c] + u, '\n')) =~= trim_all(a));
    }
}

proof fn lemma_pieces_drop_last(u: Seq<char>, c: char)
    requires
        is_ws(c),
    ensures
        doc_pieces(u.push(c)) == doc_pieces(u),
{
    lemma_split_on_nonempty(u, '\n');
    assert(u.push(c).drop_last() =~= u);
    let a = split_on(u, '\n');
    if c == '\n' {
        assert(trim_all(a.push(Seq::<char>::empty())) =~= trim_all(a).push(Seq::<char>::empty()));
        assert(trim_all(a).push(Seq::<char>::empty()).drop_last() =~= trim_all(a));
    } else {
        lemma_trim_push(a.last(), c);
        assert(trim_all(a.update(a.len() - 1, a.last().push(c))) =~= trim_all(a));
    }
}

proof fn lemma_pieces_trim_start(t: Seq<char>)
    ensures
        doc_pieces(trim_start(t)) == doc_pieces(t),
    decreases t.len(),
{
    if t.len() > 0 && is_ws(t[0]) {
        lemma_pieces_trim_start(t.drop_first());
        assert(seq![t[0]] + t.drop_first() =~= t);
        lemma_pieces_drop_first(t[0], t.drop_first());
    }
}

proof fn lemma_pieces_trim_end(t: Seq<char>)
    ensures
        doc_pieces(trim_end(t)) == doc_pieces(t),
    decreases t.len(),
{
    if t.len() > 0 && is_ws(t.last()) {
        lemma_pieces_trim_end(t.drop_last());
        assert(t.drop_last().push(t.last()) =~= t);
        lemma_pieces_drop_last(t.drop_last(), t.last());
    }
}

/// Trimming a document first changes none of its lines.
pub proof fn lemma_doc_lines_untrimmed(t: Seq<char>)
    ensures
        doc_lines(t) == doc_pieces(t),
{
    lemma_pieces_trim_start(t);
    lemma_pieces_trim_end(trim_start(t));
}

/// The pieces of each text, one text after the other.
pub open spec fn split_all(texts: Seq<Seq<char>>, sep: char) -> Seq<Seq<char>>
    decreases texts.len(),
{
    if texts.len() == 0 {
        Seq::empty()
    } else {
        split_all(texts.drop_last(), sep) + split_on(texts.last(), sep)
    }
}

proof fn lemma_split_join_all(texts: Seq<Seq<char>>, sep: char)
    requires
        texts.len() > 0,
    ensures
        split_on(join(texts, seq![sep]), sep) == split_all(texts, sep),
    decreases texts.len(),
{
    if texts.len() == 1 {
        assert(texts.drop_last() =~= Seq::<Seq<char>>::empty());
        assert(split_all(Seq::<Seq<char>>::empty(), sep) == Seq::<Seq<char>>::empty());
        assert(texts.last() == texts[0]);
        assert(Seq::<Seq<char>>::empty() + split_on(texts[0], sep) =~= split_on(texts[0], sep));
    } else {
        lemma_split_join_all(texts.drop_last(), sep);
        lemma_split_on_concat(join(texts.drop_last(), seq![sep]), texts.last(), sep);
    }
}

proof fn lemma_split_all_single(texts: Seq<Seq<char>>, sep: char)
    requires
        forall|i: int| 0 <= i < texts.len() ==> !(#[trigger] texts[i]).contains(sep),
    ensures
        split_all(texts, sep) == texts,
    decreases texts.len(),
{
    if texts.len() > 0 {
        let q = texts.drop_last();
        assert forall|i: int| 0 <= i < q.len() implies !(#[trigger] q[i]).contains(sep) by {
            assert(q[i] == texts[i]);
        }
        lemma_split_all_single(q, sep);
        assert(!texts[texts.len() - 1].contains(sep));
        lemma_split_on_single(texts.last(), sep);
        assert(q + seq![texts.last()] =~= texts);
    }
}

proof fn lemma_trim_whole(s: Seq<char>)
    requires
        s.len() > 0,
        !is_ws(s[0]),
        !is_ws(s.last()),
    ensures
        trim(s) == s,
{
}

proof fn lemma_keep_all(x: Seq<Seq<char>>)
    requires
        forall|i: int| 0 <= i < x.len() ==> (#[trigger] x[i]).len() > 0,
    ensures
        keep_nonempty(x) == x,
    decreases x.len(),
{
    if x.len() > 0 {
        let q = x.drop_last();
        assert forall|i: int| 0 <= i < q.len() implies (#[trigger] q[i]).len() > 0 by {
            assert(q[i] == x[i]);
        }
        lemma_keep_all(q);
        assert(x[x.len() - 1].len() > 0);
        assert(q.push(x.last()) =~= x);
    }
}

/// A line of `data.md` holds a field of a reference: the field is not
/// changed by trimming and has no line break.
pub open spec fn line_field(s: Seq<char>) -> bool {
    trim(s) == s && !s.contains('\n')
}

/// The id line of a reference.
pub open spec fn id_line(id: Seq<char>) -> Seq<char> {
    "# `"@ + id + "`"@
}

/// The lines of a source block.
pub open spec fn source_lines(s: SourceModel) -> Seq<Seq<char>> {
    match s {
        SourceModel::Pdf { title, url } => seq![fence(), title, "pdf"@, url, fence()],
        SourceModel::Zip { title, url, rel_path } => seq![fence(), title, "zip"@, url, rel_path, fence()],
    }
}

/// The line of a page entry, as the reader sees it.
pub open spec fn item_line(e: EntryModel) -> Seq<char> {
    trim(data_md_item(e))
}

/// The lines of the entry of a reference in `data.md`, as the reader sees
/// them.
pub open spec fn reference_lines(r: ReferenceModel) -> Seq<Seq<char>> {
    seq![id_line(r.id)] + source_lines(r.source) + r.entries.map_values(|e: EntryModel| item_line(e))
}

pub open spec fn all_lines(refs: Seq<ReferenceModel>) -> Seq<Seq<char>>
    decreases refs.len(),
{
    if refs.len() == 0 {
        Seq::empty()
    } else {
        all_lines(refs.drop_last()) + reference_lines(refs.last())
    }
}

/// Whether a source survives `data.md`: its fields are nonempty lines.
pub open spec fn source_fits(s: SourceModel) -> bool {
    match s {
        SourceModel::Pdf { title, url } => title.len() > 0 && line_field(title) && url.len() > 0
            && line_field(url),
        SourceModel::Zip { title, url, rel_path } => title.len() > 0 && line_field(title) && url.len()
            > 0 && line_field(url) && rel_path.len() > 0 && line_field(rel_path),
    }
}

/// Whether a reference survives `data.md`: an id of id characters, a
/// source that fits, and page descriptions that are lines.
pub open spec fn reference_fits(r: ReferenceModel) -> bool {
    &&& r.id.len() > 0
    &&& forall|j: int| 0 <= j < r.id.len() ==> crate::parse::is_id_char(#[trigger] r.id[j])
    &&& source_fits(r.source)
    &&& forall|j: int| 0 <= j < r.entries.len() ==> line_field((#[trigger] r.entries[j]).description)
}

proof fn lemma_join_concat(a: Seq<Seq<char>>, b: Seq<Seq<char>>, sep: Seq<char>)
    requires
        a.len() > 0,
        b.len() > 0,
    ensures
        join(a + b, sep) == join(a, sep) + sep + join(b, sep),
    decreases b.len(),
{
    if b.len() == 1 {
        assert((a + b).drop_last() =~= a);
        assert((a + b).last() == b[0]);
    } else {
        assert((a + b).drop_last() =~= a + b.drop_last());
        lemma_join_concat(a, b.drop_last(), sep);
        assert(join(a, sep) + sep + join(b.drop_last(), sep) + sep + b.last() =~= join(a, sep) + sep
            + (join(b.drop_last(), sep) + sep + b.last()));
    }
}

proof fn lemma_split_all_concat(a: Seq<Seq<char>>, b: Seq<Seq<char>>, sep: char)
    ensures
        split_all(a + b, sep) == split_all(a, sep) + split_all(b, sep),
    decreases b.len(),
{
    if b.len() == 0 {
        assert(a + b =~= a);
        assert(split_all(a, sep) + split_all(b, sep) =~= split_all(a, sep));
    } else {
        assert((a + b).drop_last() =~= a + b.drop_last());
        lemma_split_all_concat(a, b.drop_last(), sep);
        assert(split_all(a, sep) + split_all(b.drop_last(), sep) + split_on(b.last(), sep) =~= split_all(
            a,
            sep,
        ) + (split_all(b.drop_last(), sep) + split_on(b.last(), sep)));
    }
}

proof fn lemma_keep_one(x: Seq<char>)
    ensures
        keep_nonempty(seq![x]) == if x.len() > 0 {
            seq![x]
        } else {
            Seq::<Seq<char>>::empty()
        },
{
    assert(seq![x].drop_last() =~= Seq::<Seq<char>>::empty());
    assert(seq![x].last() == x);
    assert(keep_nonempty(Seq::<Seq<char>>::empty()) == Seq::<Seq<char>>::empty());
    assert(Seq::<Seq<char>>::empty().push(x) =~= seq![x]);
    assert(keep_nonempty(seq![x]) == if x.len() > 0 {
        keep_nonempty(Seq::<Seq<char>>::empty()).push(x)
    } else {
        keep_nonempty(Seq::<Seq<char>>::empty())
    });
}

/// The block of a source in `data.md` is its lines joined.
proof fn lemma_header_lines(src: SourceModel)
    ensures
        header_text(src) == join(
            seq![Seq::<char>::empty()] + source_lines(src) + seq![Seq::<char>::empty()],
            "\n"@,
        ),
{
    reveal_strlit("\n```\n");
    reveal_strlit("\npdf\n");
    reveal_strlit("\nzip\n");
    reveal_strlit("```");
    reveal_strlit("pdf");
    reveal_strlit("zip");
    reveal_strlit("\n");
    let e = Seq::<char>::empty();
    reveal_with_fuel(join, 9);
    match src {
        SourceModel::Pdf { title: t, url: u } => {
            let s = seq![e] + source_lines(src) + seq![e];
            assert(s =~= seq![e, "```"@, t, "pdf"@, u, "```"@, e]);
            assert(s.drop_last() =~= seq![e, "```"@, t, "pdf"@, u, "```"@]);
            assert(s.drop_last().drop_last() =~= seq![e, "```"@, t, "pdf"@, u]);
            assert(s.drop_last().drop_last().drop_last() =~= seq![e, "```"@, t, "pdf"@]);
            assert(seq![e, "```"@, t, "pdf"@].drop_last() =~= seq![e, "```"@, t]);
            assert(seq![e, "```"@, t].drop_last() =~= seq![e, "```"@]);
            assert(seq![e, "```"@].drop_last() =~= seq![e]);
            assert(header_text(src) =~= join(s, "\n"@));
        },
        SourceModel::Zip { title: t, url: u, rel_path: p } => {
            let s = seq![e] + source_lines(src) + seq![e];
            assert(s =~= seq![e, "```"@, t, "zip"@, u, p, "```"@, e]);
            assert(s.drop_last() =~= seq![e, "```"@, t, "zip"@, u, p, "```"@]);
            assert(s.drop_last().drop_last() =~= seq![e, "```"@, t, "zip"@, u, p]);
            assert(s.drop_last().drop_last().drop_last() =~= seq![e, "```"@, t, "zip"@, u]);
            assert(seq![e, "```"@, t, "zip"@, u].drop_last() =~= seq![e, "```"@, t, "zip"@]);
            assert(seq![e, "```"@, t, "zip"@].drop_last() =~= seq![e, "```"@, t]);
            assert(seq![e, "```"@, t].drop_last() =~= seq![e, "```"@]);
            assert(seq![e, "```"@].drop_last() =~= seq![e]);
            assert(header_text(src) =~= join(s, "\n"@));
        },
    }
}

/// The lines of the entry of a reference in `data.md`, before the reader
/// trims them and drops the empty ones.
pub open spec fn entry_segments(id: Seq<char>, src: SourceModel, entries: Seq<EntryModel>) -> Seq<Seq<char>> {
    seq![Seq::<char>::empty(), id_line(id)] + (seq![Seq::<char>::empty()] + source_lines(src) + seq![
        Seq::<char>::empty(),
    ]) + seq![
        join(entries.map_values(|e: EntryModel| data_md_item(e)), "\n"@),
        Seq::<char>::empty(),
    ]
}

proof fn lemma_entry_segments(id: Seq<char>, src: SourceModel, entries: Seq<EntryModel>)
    ensures
        data_md_entry(id, src, entries) == join(entry_segments(id, src, entries), "\n"@),
{
    reveal_strlit("\n# `");
    reveal_strlit("`\n");
    reveal_strlit("\n");
    reveal_strlit("# `");
    reveal_strlit("`");
    let e = Seq::<char>::empty();
    let n = "\n"@;
    let a = seq![e, id_line(id)];
    let b = seq![e] + source_lines(src) + seq![e];
    let j = join(entries.map_values(|x: EntryModel| data_md_item(x)), "\n"@);
    let c = seq![j, e];
    lemma_join_concat(a + b, c, n);
    lemma_join_concat(a, b, n);
    lemma_header_lines(src);
    assert(a.drop_last() =~= seq![e]);
    assert(join(seq![e], n) == e);
    assert(a.last() == id_line(id));
    assert(join(a, n) == join(a.drop_last(), n) + n + a.last());
    assert(join(a, n) == e + n + id_line(id));
    assert(c.drop_last() =~= seq![j]);
    assert(join(seq![j], n) == j);
    assert(c.last() == e);
    assert(join(c, n) == join(c.drop_last(), n) + n + c.last());
    assert(join(c, n) == j + n + e);
    assert(data_md_entry(id, src, entries) =~= join(a, n) + n + join(b, n) + n + join(c, n));
}

proof fn lemma_trim_keeps_first(s: Seq<char>)
    requires
        s.len() > 0,
        !is_ws(s[0]),
    ensures
        trim(s).len() > 0,
        trim(s)[0] == s[0],
        trim(s) == trim_end(s),
    decreases s.len(),
{
    lemma_trim_end_keeps_first(s);
}

proof fn lemma_trim_end_keeps_first(s: Seq<char>)
    requires
        s.len() > 0,
        !is_ws(s[0]),
    ensures
        trim_end(s).len() > 0,
        trim_end(s)[0] == s[0],
    decreases s.len(),
{
    if is_ws(s.last()) {
        assert(s.len() > 1);
        assert(s.drop_last()[0] == s[0]);
        lemma_trim_end_keeps_first(s.drop_last());
    }
}

proof fn lemma_no_newline_concat(a: Seq<char>, b: Seq<char>)
    requires
        !a.contains('\n'),
        !b.contains('\n'),
    ensures
        !(a + b).contains('\n'),
{
    if (a + b).contains('\n') {
        let k = choose|k: int| 0 <= k < (a + b).len() && (a + b)[k] == '\n';
        if k < a.len() {
            assert(a[k] == '\n');
        } else {
            assert(b[k - a.len()] == '\n');
        }
    }
}

proof fn lemma_literals()
    ensures
        !"# `"@.contains('\n'),
        !"`"@.contains('\n'),
        !"```"@.contains('\n'),
        !"pdf"@.contains('\n'),
        !"zip"@.contains('\n'),
        !"- p."@.contains('\n'),
        !": "@.contains('\n'),
        trim("```"@) == "```"@,
        trim("pdf"@) == "pdf"@,
        trim("zip"@) == "zip"@,
        "```"@.len() > 0,
        "pdf"@.len() > 0,
        "zip"@.len() > 0,
        "\n"@ == seq!['\n'],
{
    reveal_strlit("# `");
    reveal_strlit("`");
    reveal_strlit("```");
    reveal_strlit("pdf");
    reveal_strlit("zip");
    reveal_strlit("- p.");
    reveal_strlit(": ");
    reveal_strlit("\n");
    assert("\n"@ =~= seq!['\n']);
    lemma_trim_whole("```"@);
    lemma_trim_whole("pdf"@);
    lemma_trim_whole("zip"@);
}

proof fn lemma_item_text(e: EntryModel)
    requires
        line_field(e.description),
    ensures
        !data_md_item(e).contains('\n'),
        item_line(e).len() > 0,
        item_line(e)[0] == '-',
{
    lemma_literals();
    lemma_decimal_digits(e.page as nat);
    let d = decimal(e.page as nat);
    assert(!d.contains('\n')) by {
        if d.contains('\n') {
            let k = choose|k: int| 0 <= k < d.len() && d[k] == '\n';
            assert(is_digit(d[k]));
        }
    }
    lemma_no_newline_concat("- p."@, d);
    lemma_no_newline_concat("- p."@ + d, ": "@);
    lemma_no_newline_concat("- p."@ + d + ": "@, e.description);
    reveal_strlit("- p.");
    let t = data_md_item(e);
    assert(t[0] == '-');
    lemma_trim_keeps_first(t);
}

proof fn lemma_id_line(id: Seq<char>)
    requires
        id.len() > 0,
        forall|j: int| 0 <= j < id.len() ==> crate::parse::is_id_char(#[trigger] id[j]),
    ensures
        !id_line(id).contains('\n'),
        trim(id_line(id)) == id_line(id),
        id_line(id).len() > 0,
{
    reveal_strlit("# `");
    reveal_strlit("`");
    lemma_literals();
    assert(!id.contains('\n')) by {
        if id.contains('\n') {
            let k = choose|k: int| 0 <= k < id.len() && id[k] == '\n';
            assert(crate::parse::is_id_char(id[k]));
        }
    }
    lemma_no_newline_concat("# `"@, id);
    lemma_no_newline_concat("# `"@ + id, "`"@);
    let l = id_line(id);
    assert(l[0] == '#');
    assert(l.last() == '`');
    lemma_trim_whole(l);
}

proof fn lemma_source_lines(src: SourceModel)
    requires
        source_fits(src),
    ensures
        forall|i: int| 0 <= i < source_lines(src).len() ==> !(#[trigger] source_lines(src)[i]).contains('\n')
            && trim(source_lines(src)[i]) == source_lines(src)[i] && source_lines(src)[i].len() > 0,
{
    lemma_literals();
    let l = source_lines(src);
    match src {
        SourceModel::Pdf { title, url } => {
            assert forall|i: int| 0 <= i < l.len() implies !(#[trigger] l[i]).contains('\n') && trim(l[i])
                == l[i] && l[i].len() > 0 by {
                if i == 0 || i == 4 {
                    assert(l[i] == "```"@);
                } else if i == 1 {
                    assert(l[i] == title);
                } else if i == 2 {
                    assert(l[i] == "pdf"@);
                } else {
                    assert(l[i] == url);
                }
            }
        },
        SourceModel::Zip { title, url, rel_path } => {
            assert forall|i: int| 0 <= i < l.len() implies !(#[trigger] l[i]).contains('\n') && trim(l[i])
                == l[i] && l[i].len() > 0 by {
                if i == 0 || i == 5 {
                    assert(l[i] == "```"@);
                } else if i == 1 {
                    assert(l[i] == title);
                } else if i == 2 {
                    assert(l[i] == "zip"@);
                } else if i == 3 {
                    assert(l[i] == url);
                } else {
                    assert(l[i] == rel_path);
                }
            }
        },
    }
}

proof fn lemma_trim_all_fixed(x: Seq<Seq<char>>)
    requires
        forall|i: int| 0 <= i < x.len() ==> trim(#[trigger] x[i]) == x[i],
    ensures
        trim_all(x) == x,
{
    assert(trim_all(x) =~= x);
}

/// The entry of a reference in `data.md` reads as the lines of the
/// reference.
pub proof fn lemma_entry_pieces(r: ReferenceModel)
    requires
        reference_fits(r),
    ensures
        doc_pieces(data_md_entry(r.id, r.source, r.entries)) == reference_lines(r),
{
    lemma_literals();
    lemma_id_line(r.id);
    lemma_source_lines(r.source);
    let e = Seq::<char>::empty();
    let idl = id_line(r.id);
    let src = source_lines(r.source);
    let items = r.entries.map_values(|x: EntryModel| data_md_item(x));
    let j = join(items, "\n"@);
    let p1 = seq![e, idl];
    let p2 = seq![e] + src + seq![e];
    let p = p1 + p2;
    let c = seq![j, e];
    lemma_entry_segments(r.id, r.source, r.entries);
    assert(entry_segments(r.id, r.source, r.entries) == p + c);
    lemma_split_join_all(p + c, '\n');
    lemma_split_all_concat(p, c, '\n');
    assert forall|i: int| 0 <= i < p.len() implies !(#[trigger] p[i]).contains('\n') by {
        if i == 1 {
            assert(p[i] == idl);
        } else if i == 0 || i == 2 || i == p.len() - 1 {
            assert(p[i] == e);
        } else {
            assert(p[i] == src[i - 3]);
        }
    }
    lemma_split_all_single(p, '\n');
    assert(c.drop_last() =~= seq![j]);
    assert(seq![j].drop_last() =~= Seq::<Seq<char>>::empty());
    assert(seq![j].last() == j);
    assert(split_all(Seq::<Seq<char>>::empty(), '\n') == Seq::<Seq<char>>::empty());
    assert(split_all(seq![j], '\n') =~= split_on(j, '\n'));
    assert(split_on(e, '\n') == seq![e]);
    assert(split_all(c, '\n') == split_on(j, '\n') + seq![e]);
    let x = split_on(j, '\n');
    let lines = r.entries.map_values(|y: EntryModel| item_line(y));
    assert(keep_nonempty(trim_all(x)) == lines) by {
        if r.entries.len() > 0 {
            assert forall|i: int| 0 <= i < items.len() implies !(#[trigger] items[i]).contains('\n') by {
                lemma_item_text(r.entries[i]);
            }
            lemma_split_join(items, '\n');
            assert(trim_all(items) =~= lines);
            assert forall|i: int| 0 <= i < lines.len() implies (#[trigger] lines[i]).len() > 0 by {
                lemma_item_text(r.entries[i]);
            }
            lemma_keep_all(lines);
        } else {
            assert(items =~= Seq::<Seq<char>>::empty());
            assert(j == e);
            assert(trim_all(seq![e]) =~= seq![e]);
            lemma_keep_one(e);
            assert(lines =~= Seq::<Seq<char>>::empty());
        }
    }
    // trimming and dropping the empty lines
    assert forall|i: int| 0 <= i < p.len() implies trim(#[trigger] p[i]) == p[i] by {
        if i == 1 {
            assert(p[i] == idl);
        } else if i == 0 || i == 2 || i == p.len() - 1 {
            assert(p[i] == e);
        } else {
            assert(p[i] == src[i - 3]);
        }
    }
    lemma_trim_all_fixed(p);
    lemma_trim_all_concat(p, x + seq![e]);
    lemma_trim_all_concat(x, seq![e]);
    assert(trim_all(seq![e]) =~= seq![e]);
    lemma_keep_concat(p, trim_all(x) + seq![e]);
    lemma_keep_concat(trim_all(x), seq![e]);
    lemma_keep_one(e);
    lemma_keep_concat(p1, p2);
    lemma_keep_concat(seq![e], seq![idl]);
    assert(p1 =~= seq![e] + seq![idl]);
    lemma_keep_one(idl);
    lemma_keep_concat(seq![e] + src, seq![e]);
    lemma_keep_concat(seq![e], src);
    lemma_keep_all(src);
    assert(keep_nonempty(p) =~= seq![idl] + src);
    assert(p + (x + seq![e]) =~= split_all(p + c, '\n'));
    assert(doc_pieces(data_md_entry(r.id, r.source, r.entries)) =~= reference_lines(r));
}

pub open spec fn entry_texts(refs: Seq<ReferenceModel>) -> Seq<Seq<char>> {
    refs.map_values(|r: ReferenceModel| data_md_entry(r.id, r.source, r.entries))
}

proof fn lemma_pieces_split_all(refs: Seq<ReferenceModel>)
    requires
        forall|i: int| 0 <= i < refs.len() ==> reference_fits(#[trigger] refs[i]),
    ensures
        keep_nonempty(trim_all(split_all(entry_texts(refs), '\n'))) == all_lines(refs),
    decreases refs.len(),
{
    if refs.len() > 0 {
        let q = refs.drop_last();
        assert forall|i: int| 0 <= i < q.len() implies reference_fits(#[trigger] q[i]) by {
            assert(q[i] == refs[i]);
        }
        lemma_pieces_split_all(q);
        assert(entry_texts(refs).drop_last() =~= entry_texts(q));
        let r = refs.last();
        assert(reference_fits(refs[refs.len() - 1]));
        assert(entry_texts(refs).last() == data_md_entry(r.id, r.source, r.entries));
        lemma_entry_pieces(r);
        let a = split_all(entry_texts(q), '\n');
        let b = split_on(data_md_entry(r.id, r.source, r.entries), '\n');
        lemma_trim_all_concat(a, b);
        lemma_keep_concat(trim_all(a), trim_all(b));
    } else {
        assert(entry_texts(refs) =~= Seq::<Seq<char>>::empty());
        assert(trim_all(Seq::<Seq<char>>::empty()) =~= Seq::<Seq<char>>::empty());
    }
}

/// The lines of a written `data.md`, as the reader sees them, are the lines
/// of its references in order; for references that fit the format.
pub proof fn lemma_data_md_lines(refs: Seq<ReferenceModel>)
    requires
        forall|i: int| 0 <= i < refs.len() ==> reference_fits(#[trigger] refs[i]),
    ensures
        doc_lines(data_md(refs)) == all_lines(refs),
{
    lemma_literals();
    lemma_doc_lines_untrimmed(data_md(refs));
    assert(data_md(refs) == join(entry_texts(refs), "\n"@));
    if refs.len() == 0 {
        assert(entry_texts(refs) =~= Seq::<Seq<char>>::empty());
        let e = Seq::<char>::empty();
        assert(split_on(e, '\n') == seq![e]);
        assert(trim_all(seq![e]) =~= seq![e]);
        lemma_keep_one(e);
    } else {
        lemma_split_join_all(entry_texts(refs), '\n');
        lemma_pieces_split_all(refs);
    }
}

proof fn lemma_ws_run_end_at(s: Seq<char>, i: int, j: int)
    requires
        0 <= i <= j <= s.len(),
        forall|k: int| i <= k < j ==> is_ws(#[trigger] s[k]),
        j == s.len() || !is_ws(s[j]),
    ensures
        ws_run_end(s, i) == j,
    decreases j - i,
{
    if i < j {
        lemma_ws_run_end_at(s, i + 1, j);
    }
}

proof fn lemma_id_run_end_at(s: Seq<char>, i: int, j: int)
    requires
        0 <= i <= j <= s.len(),
        forall|k: int| i <= k < j ==> is_id_char(#[trigger] s[k]),
        j == s.len() || !is_id_char(s[j]),
    ensures
        id_run_end(s, i) == j,
    decreases j - i,
{
    if i < j {
        lemma_id_run_end_at(s, i + 1, j);
    }
}

proof fn lemma_digit_run_end_at(s: Seq<char>, i: int, j: int)
    requires
        0 <= i <= j <= s.len(),
        forall|k: int| i <= k < j ==> is_digit(#[trigger] s[k]),
        j == s.len() || !is_digit(s[j]),
    ensures
        digit_run_end(s, i) == j,
    decreases j - i,
{
    if i < j {
        lemma_digit_run_end_at(s, i + 1, j);
    }
}

/// The id line of an id names the id.
pub proof fn lemma_id_line_reads(id: Seq<char>)
    requires
        id.len() > 0,
        forall|j: int| 0 <= j < id.len() ==> is_id_char(#[trigger] id[j]),
    ensures
        id_of_line(id_line(id)) == Some(id),
{
    reveal_strlit("# `");
    reveal_strlit("`");
    let s = id_line(id);
    let n = s.len() as int;
    assert(n == id.len() + 4);
    assert(s[0] == '#' && s[1] == ' ' && s[2] == '`' && s[n - 1] == '`');
    lemma_ws_run_end_at(s, 1, 2);
    assert forall|k: int| 3 <= k < n - 1 implies is_id_char(#[trigger] s[k]) by {
        assert(s[k] == id[k - 3]);
    }
    lemma_id_run_end_at(s, 3, n - 1);
    assert(s.subrange(3, n - 1) =~= id);
    assert(id_match_at(s, 0) == Some(id));
}

proof fn lemma_trimmed_ends(s: Seq<char>)
    requires
        s.len() > 0,
        trim(s) == s,
    ensures
        !is_ws(s[0]),
        !is_ws(s.last()),
{
    lemma_trim_len(s);
    if is_ws(s[0]) {
        lemma_trim_len(s.drop_first());
        assert(trim_start(s) == trim_start(s.drop_first()));
    }
    if !is_ws(s[0]) && is_ws(s.last()) {
        assert(trim_start(s) == s);
        lemma_trim_end_len(s.drop_last());
    }
}

proof fn lemma_trim_start_len(s: Seq<char>)
    ensures
        trim_start(s).len() <= s.len(),
    decreases s.len(),
{
    if s.len() > 0 && is_ws(s[0]) {
        lemma_trim_start_len(s.drop_first());
    }
}

proof fn lemma_trim_end_len(s: Seq<char>)
    ensures
        trim_end(s).len() <= s.len(),
    decreases s.len(),
{
    if s.len() > 0 && is_ws(s.last()) {
        lemma_trim_end_len(s.drop_last());
    }
}

proof fn lemma_trim_len(s: Seq<char>)
    ensures
        trim(s).len() <= s.len(),
{
    lemma_trim_start_len(s);
    lemma_trim_end_len(trim_start(s));
}

/// The line of a page entry reads as the entry.
pub proof fn lemma_item_line_reads(e: EntryModel)
    requires
        line_field(e.description),
    ensures
        page_line(item_line(e)) == PageLine::Entry(e),
{
    reveal_strlit("- p.");
    reveal_strlit(": ");
    reveal_strlit(":");
    lemma_decimal_digits(e.page as nat);
    let dec = decimal(e.page as nat);
    let d = e.description;
    let x = "- p."@ + dec + ":"@;
    let rest = if d.len() > 0 {
        seq![' '] + d
    } else {
        Seq::<char>::empty()
    };
    let line = x + rest;
    assert(data_md_item(e) =~= x.push(' ') + d);
    assert(x[0] == '-');
    assert(x.last() == ':');
    if d.len() > 0 {
        lemma_trimmed_ends(d);
        assert(data_md_item(e) =~= line);
        assert(line[0] == '-');
        assert(line.last() == d.last());
        lemma_trim_whole(line);
        lemma_trim_prepend(' ', d);
        assert(trim(rest) == d);
    } else {
        assert(data_md_item(e) =~= x.push(' '));
        lemma_trim_push(x, ' ');
        lemma_trim_whole(x);
        assert(line =~= x);
        assert(trim(rest) =~= d);
    }
    assert(item_line(e) == line);
    let n = line.len() as int;
    let r = 4 + dec.len() as int;
    assert(line[1] == ' ' && line[2] == 'p' && line[3] == '.');
    assert(line[r] == ':');
    lemma_ws_run_end_at(line, 1, 2);
    assert forall|k: int| 4 <= k < r implies is_digit(#[trigger] line[k]) by {
        assert(line[k] == dec[k - 4]);
    }
    lemma_digit_run_end_at(line, 4, r);
    assert(line.subrange(4, r) =~= dec);
    assert(line.subrange(r + 1, n) =~= rest);
    assert(!rest.contains('\n')) by {
        if rest.contains('\n') {
            let k = choose|k: int| 0 <= k < rest.len() && rest[k] == '\n';
            assert(d.contains('\n')) by {
                assert(d[k - 1] == '\n');
            }
        }
    }
}

/// A source block reads as its source.
pub proof fn lemma_source_reads(lines: Seq<Seq<char>>, pos: int, src: SourceModel)
    requires
        0 <= pos,
        pos + source_lines(src).len() <= lines.len(),
        forall|k: int| 0 <= k < source_lines(src).len() ==> lines[pos + k] == #[trigger] source_lines(src)[k],
        source_fits(src),
    ensures
        reference_source(lines, pos) == (Ok::<SourceModel, crate::parse::ErrorModel>(src), pos + source_lines(src).len()),
{
    lemma_literals();
    reveal_strlit("zip");
    reveal_strlit("pdf");
    let l = source_lines(src);
    assert(lines[pos] == l[0]);
    assert(lines[pos + 1] == l[1]);
    assert(lines[pos + 2] == l[2]);
    assert(lines[pos + 3] == l[3]);
    assert(lines[pos + 4] == l[4]);
    match src {
        SourceModel::Pdf { title, url } => {
            assert(line_at(lines, pos + 4) == Some(fence()));
        },
        SourceModel::Zip { title, url, rel_path } => {
            assert(lines[pos + 5] == l[5]);
            assert("zip"@ != "pdf"@) by {
                assert("zip"@[0] != "pdf"@[0]);
            }
            assert(line_at(lines, pos + 5) == Some(fence()));
        },
    }
}

/// Page lines read as their entries, up to the first line that is not one.
pub proof fn lemma_pages_read(lines: Seq<Seq<char>>, p: int, entries: Seq<EntryModel>)
    requires
        0 <= p,
        p + entries.len() <= lines.len(),
        forall|k: int| 0 <= k < entries.len() ==> lines[p + k] == item_line(#[trigger] entries[k]),
        forall|k: int| 0 <= k < entries.len() ==> line_field((#[trigger] entries[k]).description),
        p + entries.len() == lines.len() || !(lines[p + entries.len()].len() > 0 && lines[p
            + entries.len()][0] == '-'),
    ensures
        dash_run_end(lines, p) == p + entries.len(),
        pages_between(lines, p, p + entries.len()) == PagesOutcome::Pages(entries),
    decreases entries.len(),
{
    if entries.len() > 0 {
        let rest = entries.drop_first();
        assert forall|k: int| 0 <= k < rest.len() implies lines[p + 1 + k] == item_line(#[trigger] rest[k]) by {
            assert(rest[k] == entries[k + 1]);
            assert(lines[p + (k + 1)] == item_line(entries[k + 1]));
        }
        assert forall|k: int| 0 <= k < rest.len() implies line_field((#[trigger] rest[k]).description) by {
            assert(rest[k] == entries[k + 1]);
        }
        lemma_pages_read(lines, p + 1, rest);
        assert(lines[p + 0] == item_line(entries[0]));
        assert(line_field(entries[0].description));
        lemma_item_text(entries[0]);
        lemma_item_line_reads(entries[0]);
        assert(seq![entries[0]] + rest =~= entries);
    } else {
        assert(pages_between(lines, p, p) == PagesOutcome::Pages(Seq::<EntryModel>::empty()));
        assert(entries =~= Seq::<EntryModel>::empty());
    }
}

proof fn lemma_all_lines_front(refs: Seq<ReferenceModel>)
    requires
        refs.len() > 0,
    ensures
        all_lines(refs) == reference_lines(refs[0]) + all_lines(refs.drop_first()),
    decreases refs.len(),
{
    if refs.len() == 1 {
        assert(refs.drop_first() =~= Seq::<ReferenceModel>::empty());
        assert(refs.drop_last() =~= Seq::<ReferenceModel>::empty());
        assert(all_lines(Seq::<ReferenceModel>::empty()) == Seq::<Seq<char>>::empty());
        assert(refs.last() == refs[0]);
        assert(Seq::<Seq<char>>::empty() + reference_lines(refs[0]) =~= reference_lines(refs[0]) + Seq::<
            Seq<char>,
        >::empty());
    } else {
        let q = refs.drop_last();
        lemma_all_lines_front(q);
        assert(q[0] == refs[0]);
        assert(q.drop_first() =~= refs.drop_first().drop_last());
        assert(refs.drop_first().last() == refs.last());
        assert(reference_lines(refs[0]) + all_lines(q.drop_first()) + reference_lines(refs.last())
            =~= reference_lines(refs[0]) + (all_lines(q.drop_first()) + reference_lines(refs.last())));
    }
}

/// The lines of fitting references, read from where they start, give the
/// references back in order.
#[verifier::spinoff_prover]
pub proof fn lemma_lines_read(before: Seq<Seq<char>>, refs: Seq<ReferenceModel>)
    requires
        forall|i: int| 0 <= i < refs.len() ==> reference_fits(#[trigger] refs[i]),
    ensures
        references_from(before + all_lines(refs), before.len() as int) == DocOutcome::Parsed(refs),
    decreases refs.len(),
{
    let lines = before + all_lines(refs);
    let pos = before.len() as int;
    if refs.len() == 0 {
        assert(all_lines(refs) == Seq::<Seq<char>>::empty());
        assert(lines =~= before);
        assert(refs =~= Seq::<ReferenceModel>::empty());
    } else {
        let r = refs[0];
        let rest = refs.drop_first();
        assert(reference_fits(refs[0]));
        assert forall|i: int| 0 <= i < rest.len() implies reference_fits(#[trigger] rest[i]) by {
            assert(rest[i] == refs[i + 1]);
        }
        lemma_all_lines_front(refs);
        let rl = reference_lines(r);
        let src = source_lines(r.source);
        let items = r.entries.map_values(|e: EntryModel| item_line(e));
        let after = before + rl;
        assert(lines =~= after + all_lines(rest));
        lemma_lines_read(after, rest);
        let ns = src.len() as int;
        let ni = r.entries.len() as int;
        assert(rl.len() == 1 + ns + ni);
        // the id line
        assert(lines[pos] == rl[0]);
        assert(rl[0] == id_line(r.id));
        lemma_id_line_reads(r.id);
        // the source block
        assert forall|k: int| 0 <= k < ns implies lines[pos + 1 + k] == #[trigger] src[k] by {
            assert(lines[pos + 1 + k] == rl[1 + k]);
        }
        lemma_source_reads(lines, pos + 1, r.source);
        let p = pos + 1 + ns;
        // the page lines
        assert forall|k: int| 0 <= k < ni implies lines[p + k] == item_line(#[trigger] r.entries[k]) by {
            assert(lines[p + k] == rl[1 + ns + k]);
            assert(rl[1 + ns + k] == items[k]);
        }
        if p + ni < lines.len() {
            lemma_all_lines_front(rest);
            assert(lines[p + ni] == all_lines(rest)[0]);
            assert(all_lines(rest)[0] == id_line(rest[0].id));
            reveal_strlit("# `");
            assert(id_line(rest[0].id)[0] == '#');
        }
        lemma_pages_read(lines, p, r.entries);
        assert(p + ni == after.len());
        assert(ReferenceModel { id: r.id, source: r.source, entries: r.entries } == r);
        assert(seq![r] + rest =~= refs);
    }
}

/// Reading a written `data.md` gives back the references it was written
/// from, in reading order: sorted, each with its page entries sorted; for
/// references whose fields fit the format.
pub proof fn lemma_data_md_reads(refs: Seq<ReferenceModel>)
    requires
        forall|i: int| 0 <= i < refs.len() ==> reference_fits(#[trigger] refs[i]),
    ensures
        document(data_md(refs)) == DocOutcome::Parsed(sorted_references(refs)),
{
    lemma_data_md_lines(refs);
    lemma_lines_read(Seq::<Seq<char>>::empty(), refs);
    assert(Seq::<Seq<char>>::empty() + all_lines(refs) =~= all_lines(refs));
}

/// References are in reading order: sorted, each with its page entries
/// sorted.
pub open spec fn in_reading_order(refs: Seq<ReferenceModel>) -> bool {
    &&& sorted_by(refs, reference_le())
    &&& forall|i: int| 0 <= i < refs.len() ==> sorted_by((#[trigger] refs[i]).entries, entry_le())
}

/// Sorting what is in reading order changes nothing.
pub proof fn lemma_sorted_references_fixed(refs: Seq<ReferenceModel>)
    requires
        in_reading_order(refs),
    ensures
        sorted_references(refs) == refs,
{
    lemma_reference_well_ordered();
    lemma_le_total(reference_order_fn());
    lemma_entry_well_ordered();
    lemma_le_total(entry_order_fn());
    refs.lemma_sort_by_ensures(reference_le());
    lemma_sorted_unique(refs, refs.sort_by(reference_le()), reference_le());
    assert forall|i: int| 0 <= i < refs.len() implies #[trigger] with_sorted_entries(refs[i]) == refs[i] by {
        let x = refs[i].entries;
        x.lemma_sort_by_ensures(entry_le());
        lemma_sorted_unique(x, x.sort_by(entry_le()), entry_le());
    }
    assert(sorted_references(refs) =~= refs);
}

/// Writing `data.md` from references in reading order and reading it back
/// gives the same references; for references whose fields fit the format.
pub proof fn lemma_data_md_round_trip(refs: Seq<ReferenceModel>)
    requires
        forall|i: int| 0 <= i < refs.len() ==> reference_fits(#[trigger] refs[i]),
        in_reading_order(refs),
    ensures
        document(data_md(refs)) == DocOutcome::Parsed(refs),
{
    lemma_data_md_reads(refs);
    lemma_sorted_references_fixed(refs);
}

/// What a document gives is ordered by id, and each reference has its
/// page entries sorted.
pub proof fn lemma_document_order(text: Seq<char>)
    ensures
        document(text) matches DocOutcome::Parsed(refs) ==> {
            &&& forall|i: int, j: int|
                0 <= i < j < refs.len() ==> text_order_fn()(refs[i].id, refs[j].id) != Order::Greater
            &&& forall|i: int| 0 <= i < refs.len() ==> sorted_by((#[trigger] refs[i]).entries, entry_le())
        },
{
    if let DocOutcome::Parsed(refs) = document(text) {
        lemma_reference_well_ordered();
        lemma_le_total(reference_order_fn());
        lemma_entry_well_ordered();
        lemma_le_total(entry_order_fn());
        lemma_orders_unfold();
        if let DocOutcome::Parsed(raw) = references_from(crate::text::doc_lines(text), 0) {
            let s = raw.sort_by(reference_le());
            raw.lemma_sort_by_ensures(reference_le());
            assert(refs == s.map_values(|r: ReferenceModel| with_sorted_entries(r)));
            assert forall|i: int, j: int| 0 <= i < j < refs.len() implies text_order_fn()(
                refs[i].id,
                refs[j].id,
            ) != Order::Greater by {
                assert(reference_le()(s[i], s[j]));
                assert(refs[i].id == s[i].id && refs[j].id == s[j].id);
            }
            assert forall|i: int| 0 <= i < refs.len() implies sorted_by(
                (#[trigger] refs[i]).entries,
                entry_le(),
            ) by {
                s[i].entries.lemma_sort_by_ensures(entry_le());
            }
        }
    }
}

proof fn lemma_split_pieces_clean(s: Seq<char>, sep: char)
    ensures
        forall|i: int| 0 <= i < split_on(s, sep).len() ==> !(#[trigger] split_on(s, sep)[i]).contains(sep),
    decreases s.len(),
{
    if s.len() > 0 {
        let q = s.drop_last();
        lemma_split_pieces_clean(q, sep);
        lemma_split_on_nonempty(q, sep);
        let a = split_on(q, sep);
        if s.last() != sep {
            let b = a.update(a.len() - 1, a.last().push(s.last()));
            assert forall|i: int| 0 <= i < b.len() implies !(#[trigger] b[i]).contains(sep) by {
                if i == b.len() - 1 {
                    assert(!a[a.len() - 1].contains(sep));
                    if b[i].contains(sep) {
                        let k = choose|k: int| 0 <= k < b[i].len() && b[i][k] == sep;
                        if k < a.last().len() {
                            assert(a.last()[k] == sep);
                        }
                    }
                }
            }
        } else {
            let b = a.push(Seq::<char>::empty());
            assert forall|i: int| 0 <= i < b.len() implies !(#[trigger] b[i]).contains(sep) by {
                if i < a.len() {
                    assert(b[i] == a[i]);
                }
            }
        }
    } else {
        assert(split_on(s, sep) == seq![Seq::<char>::empty()]);
    }
}

proof fn lemma_trim_start_clean(p: Seq<char>, x: char)
    requires
        !p.contains(x),
    ensures
        !trim_start(p).contains(x),
    decreases p.len(),
{
    if p.len() > 0 && is_ws(p[0]) {
        assert(!p.drop_first().contains(x)) by {
            if p.drop_first().contains(x) {
                let k = choose|k: int| 0 <= k < p.drop_first().len() && p.drop_first()[k] == x;
                assert(p[k + 1] == x);
            }
        }
        lemma_trim_start_clean(p.drop_first(), x);
    }
}

proof fn lemma_trim_end_clean(p: Seq<char>, x: char)
    requires
        !p.contains(x),
    ensures
        !trim_end(p).contains(x),
    decreases p.len(),
{
    if p.len() > 0 && is_ws(p.last()) {
        assert(!p.drop_last().contains(x)) by {
            if p.drop_last().contains(x) {
                let k = choose|k: int| 0 <= k < p.drop_last().len() && p.drop_last()[k] == x;
                assert(p[k] == x);
            }
        }
        lemma_trim_end_clean(p.drop_last(), x);
    }
}

/// Trimming keeps out what was not there.
pub proof fn lemma_trim_clean(p: Seq<char>, x: char)
    requires
        !p.contains(x),
    ensures
        !trim(p).contains(x),
{
    lemma_trim_start_clean(p, x);
    lemma_trim_end_clean(trim_start(p), x);
}

/// Trimming twice trims once.
pub proof fn lemma_trim_idempotent(p: Seq<char>)
    ensures
        trim(trim(p)) == trim(p),
{
    let t = trim(p);
    if t.len() > 0 {
        let u = trim_start(p);
        lemma_trim_start_first(p);
        lemma_trim_end_keeps_first(u);
        lemma_trim_end_last(u);
        lemma_trim_whole(t);
    } else {
        assert(trim(t) =~= t);
    }
}

proof fn lemma_trim_start_first(p: Seq<char>)
    ensures
        trim_start(p).len() > 0 ==> !is_ws(trim_start(p)[0]),
    decreases p.len(),
{
    if p.len() > 0 && is_ws(p[0]) {
        lemma_trim_start_first(p.drop_first());
    }
}

proof fn lemma_trim_end_last(p: Seq<char>)
    ensures
        trim_end(p).len() > 0 ==> !is_ws(trim_end(p).last()),
    decreases p.len(),
{
    if p.len() > 0 && is_ws(p.last()) {
        lemma_trim_end_last(p.drop_last());
    }
}

/// The shape of a line as the reader of `data.md` sees it.
pub open spec fn clean_line(l: Seq<char>) -> bool {
    l.len() > 0 && trim(l) == l && !l.contains('\n')
}

proof fn lemma_keep_clean(x: Seq<Seq<char>>)
    requires
        forall|i: int| 0 <= i < x.len() ==> trim(#[trigger] x[i]) == x[i] && !x[i].contains('\n'),
    ensures
        forall|i: int| 0 <= i < keep_nonempty(x).len() ==> clean_line(#[trigger] keep_nonempty(x)[i]),
    decreases x.len(),
{
    if x.len() > 0 {
        let q = x.drop_last();
        assert forall|i: int| 0 <= i < q.len() implies trim(#[trigger] q[i]) == q[i] && !q[i].contains('\n') by {
            assert(q[i] == x[i]);
        }
        lemma_keep_clean(q);
        assert(trim(x[x.len() - 1]) == x[x.len() - 1]);
        assert(!x[x.len() - 1].contains('\n'));
        let r = keep_nonempty(q);
        if x.last().len() > 0 {
            assert forall|i: int| 0 <= i < r.push(x.last()).len() implies clean_line(
                #[trigger] r.push(x.last())[i],
            ) by {
                if i < r.len() {
                    assert(r.push(x.last())[i] == r[i]);
                }
            }
        }
    }
}

/// Every line of a document is a clean line.
pub proof fn lemma_doc_lines_clean(text: Seq<char>)
    ensures
        forall|i: int| 0 <= i < doc_lines(text).len() ==> clean_line(#[trigger] doc_lines(text)[i]),
{
    let pieces = split_on(trim(text), '\n');
    lemma_split_pieces_clean(trim(text), '\n');
    let t = trim_all(pieces);
    assert forall|i: int| 0 <= i < t.len() implies trim(#[trigger] t[i]) == t[i] && !t[i].contains('\n') by {
        lemma_trim_idempotent(pieces[i]);
        lemma_trim_clean(pieces[i], '\n');
    }
    lemma_keep_clean(t);
}

proof fn lemma_found_id_fits(s: Seq<char>, p: int)
    ensures
        first_id_match(s, p) matches Some(id) ==> id.len() > 0 && forall|j: int|
            0 <= j < id.len() ==> is_id_char(#[trigger] id[j]),
    decreases s.len() - p,
{
    if 0 <= p < s.len() {
        match id_match_at(s, p) {
            Some(id) => {
                crate::parse::lemma_run_ends(s, p + 1);
                let q = ws_run_end(s, p + 1);
                crate::parse::lemma_run_ends(s, q + 1);
                let r = id_run_end(s, q + 1);
                assert forall|j: int| 0 <= j < id.len() implies is_id_char(#[trigger] id[j]) by {
                    assert(id[j] == s[q + 1 + j]);
                }
            },
            None => {
                lemma_found_id_fits(s, p + 1);
            },
        }
    }
}

proof fn lemma_read_source_fits(lines: Seq<Seq<char>>, pos: int)
    requires
        0 <= pos <= lines.len(),
        forall|i: int| 0 <= i < lines.len() ==> clean_line(#[trigger] lines[i]),
    ensures
        reference_source(lines, pos).0 matches Ok(src) ==> source_fits(src),
{
    if let Ok(src) = reference_source(lines, pos).0 {
        assert(clean_line(lines[pos + 1]));
        assert(clean_line(lines[pos + 2]));
        assert(clean_line(lines[pos + 3]));
        if pos + 4 < lines.len() {
            assert(clean_line(lines[pos + 4]));
        }
    }
}

proof fn lemma_read_pages_fit(lines: Seq<Seq<char>>, p: int, q: int)
    requires
        0 <= p,
        q <= lines.len(),
    ensures
        pages_between(lines, p, q) matches PagesOutcome::Pages(es) ==> forall|j: int|
            0 <= j < es.len() ==> line_field((#[trigger] es[j]).description),
    decreases q - p,
{
    if p < q {
        lemma_read_pages_fit(lines, p + 1, q);
        let s = lines[p];
        if let PageLine::Entry(e) = page_line(s) {
            crate::parse::lemma_run_ends(s, 1);
            let a = ws_run_end(s, 1);
            crate::parse::lemma_run_ends(s, a + 2);
            let r = digit_run_end(s, a + 2);
            let rest = s.subrange(r + 1, s.len() as int);
            lemma_trim_clean(rest, '\n');
            lemma_trim_idempotent(rest);
            if let PagesOutcome::Pages(tail) = pages_between(lines, p + 1, q) {
                let es = seq![e] + tail;
                assert forall|j: int| 0 <= j < es.len() implies line_field((#[trigger] es[j]).description) by {
                    if j > 0 {
                        assert(es[j] == tail[j - 1]);
                    }
                }
            }
        }
    }
}

/// What the reader gives from clean lines fits the format of `data.md`.
pub proof fn lemma_read_references_fit(lines: Seq<Seq<char>>, pos: int)
    requires
        0 <= pos,
        forall|i: int| 0 <= i < lines.len() ==> clean_line(#[trigger] lines[i]),
    ensures
        references_from(lines, pos) matches DocOutcome::Parsed(refs) ==> forall|i: int|
            0 <= i < refs.len() ==> reference_fits(#[trigger] refs[i]),
    decreases lines.len() - pos,
{
    if pos < lines.len() {
        if let Some(id) = id_of_line(lines[pos]) {
            lemma_found_id_fits(lines[pos], 0);
            crate::parse::lemma_reference_source_advances(lines, pos + 1);
            lemma_read_source_fits(lines, pos + 1);
            let (src, p) = reference_source(lines, pos + 1);
            if let Ok(source) = src {
                crate::parse::lemma_dash_run_end(lines, p);
                let q = dash_run_end(lines, p);
                lemma_read_pages_fit(lines, p, q);
                lemma_read_references_fit(lines, q);
                if let PagesOutcome::Pages(entries) = pages_between(lines, p, q) {
                    if let DocOutcome::Parsed(rest) = references_from(lines, q) {
                        let r = ReferenceModel { id: id, source: source, entries: entries };
                        let refs = seq![r] + rest;
                        assert forall|i: int| 0 <= i < refs.len() implies reference_fits(#[trigger] refs[i]) by {
                            if i > 0 {
                                assert(refs[i] == rest[i - 1]);
                            }
                        }
                    }
                }
            }
        }
    }
}

/// No two references share both id and source.
pub open spec fn distinct_sources(refs: Seq<ReferenceModel>) -> bool {
    forall|i: int, j: int|
        0 <= i < j < refs.len() ==> !(#[trigger] refs[i].id == #[trigger] refs[j].id && refs[i].source
            == refs[j].source)
}

proof fn lemma_sorted_members_fit(raw: Seq<ReferenceModel>)
    requires
        forall|i: int| 0 <= i < raw.len() ==> reference_fits(#[trigger] raw[i]),
    ensures
        forall|i: int| 0 <= i < sorted_references(raw).len() ==> reference_fits(
            #[trigger] sorted_references(raw)[i],
        ),
{
    lemma_reference_well_ordered();
    lemma_le_total(reference_order_fn());
    lemma_entry_well_ordered();
    lemma_le_total(entry_order_fn());
    let s = raw.sort_by(reference_le());
    raw.lemma_sort_by_ensures(reference_le());
    let refs = sorted_references(raw);
    assert forall|i: int| 0 <= i < refs.len() implies reference_fits(#[trigger] refs[i]) by {
        broadcast use vstd::seq_lib::group_to_multiset_ensures;
        assert(s.contains(s[i]));
        assert(s.to_multiset().count(s[i]) > 0);
        assert(raw.contains(s[i]));
        let k = choose|k: int| 0 <= k < raw.len() && raw[k] == s[i];
        assert(reference_fits(raw[k]));
        let es = s[i].entries;
        es.lemma_sort_by_ensures(entry_le());
        let t = es.sort_by(entry_le());
        assert(refs[i] == with_sorted_entries(s[i]));
        assert forall|j: int| 0 <= j < t.len() implies line_field((#[trigger] t[j]).description) by {
            assert(t.contains(t[j]));
            assert(t.to_multiset().count(t[j]) > 0);
            assert(es.contains(t[j]));
            let m = choose|m: int| 0 <= m < es.len() && es[m] == t[j];
            assert(line_field(es[m].description));
        }
    }
}

/// A document read and written anew reads back as it was read: building
/// twice rewrites `data.md` at most once; when no two references share id
/// and source.
pub proof fn lemma_rebuild_fixed_point(text: Seq<char>)
    ensures
        document(text) matches DocOutcome::Parsed(refs) ==> (distinct_sources(refs) ==> document(
            data_md(refs),
        ) == DocOutcome::Parsed(refs)),
{
    if let DocOutcome::Parsed(refs) = document(text) {
        if distinct_sources(refs) {
            let lines = crate::text::doc_lines(text);
            lemma_doc_lines_clean(text);
            lemma_read_references_fit(lines, 0);
            if let DocOutcome::Parsed(raw) = references_from(lines, 0) {
                lemma_sorted_members_fit(raw);
                assert(refs == sorted_references(raw));
                lemma_reference_well_ordered();
                lemma_le_total(reference_order_fn());
                lemma_entry_well_ordered();
                lemma_le_total(entry_order_fn());
                lemma_orders_unfold();
                crate::model::lemma_text_well_ordered();
                crate::model::lemma_source_well_ordered();
                let s = raw.sort_by(reference_le());
                raw.lemma_sort_by_ensures(reference_le());
                assert forall|i: int, j: int| 0 <= i < j < refs.len() implies #[trigger] reference_le()(
                    refs[i],
                    refs[j],
                ) by {
                    assert(reference_le()(s[i], s[j]));
                    assert(refs[i] == with_sorted_entries(s[i]));
                    assert(refs[j] == with_sorted_entries(s[j]));
                    assert(!(refs[i].id == refs[j].id && refs[i].source == refs[j].source));
                    let ti = text_order_fn()(s[i].id, s[j].id);
                    let so = crate::model::source_order_fn()(s[i].source, s[j].source);
                    assert(ti == Order::Equal <==> s[i].id == s[j].id);
                    assert(so == Order::Equal <==> s[i].source == s[j].source);
                }
                assert forall|i: int| 0 <= i < refs.len() implies sorted_by(
                    (#[trigger] refs[i]).entries,
                    entry_le(),
                ) by {
                    s[i].entries.lemma_sort_by_ensures(entry_le());
                }
                lemma_data_md_round_trip(refs);
            }
        }
    }
}

/// Whitespace only: nothing but whitespace characters, line breaks among
/// them.
pub open spec fn all_ws(w: Seq<char>) -> bool {
    forall|i: int| 0 <= i < w.len() ==> is_ws(#[trigger] w[i])
}

proof fn lemma_pieces_ws_prefix(w: Seq<char>, u: Seq<char>)
    requires
        all_ws(w),
    ensures
        doc_pieces(w + u) == doc_pieces(u),
    decreases w.len(),
{
    if w.len() > 0 {
        let v = w.drop_first();
        assert(all_ws(v)) by {
            assert forall|i: int| 0 <= i < v.len() implies is_ws(#[trigger] v[i]) by {
                assert(v[i] == w[i + 1]);
            }
        }
        lemma_pieces_ws_prefix(v, u);
        assert(is_ws(w[0]));
        assert(w + u =~= seq![w[0]] + (v + u));
        lemma_pieces_drop_first(w[0], v + u);
    } else {
        assert(w + u =~= u);
    }
}

proof fn lemma_pieces_ws_suffix(u: Seq<char>, w: Seq<char>)
    requires
        all_ws(w),
    ensures
        doc_pieces(u + w) == doc_pieces(u),
    decreases w.len(),
{
    if w.len() > 0 {
        let v = w.drop_last();
        assert(all_ws(v)) by {
            assert forall|i: int| 0 <= i < v.len() implies is_ws(#[trigger] v[i]) by {
                assert(v[i] == w[i]);
            }
        }
        lemma_pieces_ws_suffix(u, v);
        assert(is_ws(w[w.len() - 1]));
        assert(u + w =~= (u + v).push(w.last()));
        lemma_pieces_drop_last(u + v, w.last());
    } else {
        assert(u + w =~= u);
    }
}

/// The pieces of two texts joined by a line break.
proof fn lemma_pieces_concat(x: Seq<char>, y: Seq<char>)
    ensures
        doc_pieces(x + seq!['\n'] + y) == doc_pieces(x) + doc_pieces(y),
{
    lemma_split_on_concat(x, y, '\n');
    lemma_trim_all_concat(split_on(x, '\n'), split_on(y, '\n'));
    lemma_keep_concat(trim_all(split_on(x, '\n')), trim_all(split_on(y, '\n')));
}

/// Whitespace put at the start or at the end of a line of a document,
/// whole blank lines among it, changes none of the lines the reader sees,
/// and so nothing of what the document gives.
pub proof fn lemma_whitespace_around_lines(a: Seq<char>, w: Seq<char>, b: Seq<char>)
    requires
        all_ws(w),
        a.len() == 0 || a.last() == '\n' || b.len() == 0 || b[0] == '\n',
    ensures
        doc_lines(a + w + b) == doc_lines(a + b),
        document(a + w + b) == document(a + b),
{
    lemma_doc_lines_untrimmed(a + w + b);
    lemma_doc_lines_untrimmed(a + b);
    if a.len() == 0 {
        assert(a + w + b =~= w + b);
        assert(a + b =~= b);
        lemma_pieces_ws_prefix(w, b);
    } else if a.last() == '\n' {
        let x = a.drop_last();
        assert(a + w + b =~= x + seq!['\n'] + (w + b));
        assert(a + b =~= x + seq!['\n'] + b);
        lemma_pieces_concat(x, w + b);
        lemma_pieces_concat(x, b);
        lemma_pieces_ws_prefix(w, b);
    } else if b.len() == 0 {
        assert(a + w + b =~= a + w);
        assert(a + b =~= a);
        lemma_pieces_ws_suffix(a, w);
    } else {
        let y = b.drop_first();
        assert(a + w + b =~= (a + w) + seq!['\n'] + y);
        assert(a + b =~= a + seq!['\n'] + y);
        lemma_pieces_concat(a + w, y);
        lemma_pieces_concat(a, y);
        lemma_pieces_ws_suffix(a, w);
    }
}

/// `w` put into `t` at `k`.
pub open spec fn insert_at(t: Seq<char>, k: int, w: Seq<char>) -> Seq<char> {
    t.take(k) + w + t.skip(k)
}

/// `k` is at the start or at the end of a line of `t`.
pub open spec fn at_line_edge(t: Seq<char>, k: int) -> bool {
    &&& 0 <= k <= t.len()
    &&& (k == 0 || t[k - 1] == '\n' || k == t.len() || t[k] == '\n')
}

/// `t` with insertions made one after the other: each a position in the
/// text as it stands then, and the text put there.
pub open spec fn with_insertions(t: Seq<char>, ins: Seq<(int, Seq<char>)>) -> Seq<char>
    decreases ins.len(),
{
    if ins.len() == 0 {
        t
    } else {
        insert_at(with_insertions(t, ins.drop_last()), ins.last().0, ins.last().1)
    }
}

/// Each insertion puts whitespace only at the start or at the end of a
/// line: blank lines, and padding around lines.
pub open spec fn padding_only(t: Seq<char>, ins: Seq<(int, Seq<char>)>) -> bool
    decreases ins.len(),
{
    ins.len() == 0 || {
        &&& padding_only(t, ins.drop_last())
        &&& all_ws(ins.last().1)
        &&& at_line_edge(with_insertions(t, ins.drop_last()), ins.last().0)
    }
}

/// Blank lines inserted anywhere and whitespace added at the start or the
/// end of any lines, in any number, change none of the lines the reader
/// sees, and so nothing of what the document gives.
pub proof fn lemma_padding(t: Seq<char>, ins: Seq<(int, Seq<char>)>)
    requires
        padding_only(t, ins),
    ensures
        doc_lines(with_insertions(t, ins)) == doc_lines(t),
        document(with_insertions(t, ins)) == document(t),
    decreases ins.len(),
{
    if ins.len() > 0 {
        let u = with_insertions(t, ins.drop_last());
        lemma_padding(t, ins.drop_last());
        let k = ins.last().0;
        let w = ins.last().1;
        let a = u.take(k);
        let b = u.skip(k);
        assert(a + b =~= u);
        if k > 0 && u[k - 1] == '\n' {
            assert(a.last() == '\n');
        } else if k < u.len() && u[k] == '\n' {
            assert(b[0] == '\n');
        }
        lemma_whitespace_around_lines(a, w, b);
    }
}

/// A document of whitespace only, the empty one among them, has no line
/// and gives no reference.
pub proof fn lemma_blank_document(t: Seq<char>)
    requires
        all_ws(t),
    ensures
        doc_lines(t) == Seq::<Seq<char>>::empty(),
        document(t) == DocOutcome::Parsed(Seq::<ReferenceModel>::empty()),
{
    let e = Seq::<char>::empty();
    lemma_whitespace_around_lines(e, t, e);
    assert(e + t + e =~= t);
    assert(e + e =~= e);
    lemma_doc_lines_untrimmed(e);
    assert(split_on(e, '\n') =~= seq![e]);
    assert(trim_all(seq![e]) =~= seq![trim(e)]);
    assert(trim(e) =~= e);
    assert(seq![e].drop_last() =~= Seq::<Seq<char>>::empty());
    assert(seq![e].last().len() == 0);
    assert(keep_nonempty(Seq::<Seq<char>>::empty()) == Seq::<Seq<char>>::empty());
    assert(keep_nonempty(seq![e]) =~= Seq::<Seq<char>>::empty());
    let raw = Seq::<ReferenceModel>::empty();
    lemma_reference_well_ordered();
    lemma_le_total(reference_order_fn());
    raw.lemma_sort_by_ensures(reference_le());
    assert(raw.sort_by(reference_le()).len() == 0) by {
        broadcast use vstd::seq_lib::group_to_multiset_ensures;

        assert(raw.to_multiset().len() == raw.len());
        assert(raw.sort_by(reference_le()).to_multiset().len() == raw.sort_by(reference_le()).len());
    }
    assert(sorted_references(raw) =~= raw);
}

/// A source block read inside a longer text reads as it does alone, moved
/// by what stands before it.
proof fn lemma_source_shift(x: Seq<Seq<char>>, l: Seq<Seq<char>>, y: Seq<Seq<char>>, i: int)
    requires
        0 <= i,
        reference_source(l, i).0 is Ok,
        reference_source(l, i).1 <= l.len(),
    ensures
        reference_source(x + l + y, x.len() + i) == (
            reference_source(l, i).0,
            x.len() + reference_source(l, i).1,
        ),
{
    let big = x + l + y;
    assert forall|j: int| x.len() <= j < x.len() + l.len() implies #[trigger] line_at(big, j)
        == line_at(l, j - x.len()) && big[j] == l[j - x.len()] by {
        assert(big[j] == l[j - x.len()]);
    }
}

/// A line that the reader takes for a page line: it starts with `-`.
pub open spec fn dash_line(l: Seq<char>) -> bool {
    l.len() > 0 && l[0] == '-'
}

/// The lines of one reference of a document: its head, the id line and
/// the source block, and its page lines.
pub struct Block {
    pub head: Seq<Seq<char>>,
    pub pages: Seq<Seq<char>>,
}

/// A block reads as one reference wherever it stands: its head is an id
/// line that is no page line, followed by a whole source block, and its
/// page lines are page lines.
pub open spec fn is_block(b: Block) -> bool {
    &&& b.head.len() > 0
    &&& !dash_line(b.head[0])
    &&& id_of_line(b.head[0]) is Some
    &&& reference_source(b.head, 1).0 is Ok
    &&& reference_source(b.head, 1).1 == b.head.len()
    &&& forall|j: int| 0 <= j < b.pages.len() ==> dash_line(#[trigger] b.pages[j])
}

/// The lines of blocks, one block after the other.
pub open spec fn block_lines(bs: Seq<Block>) -> Seq<Seq<char>>
    decreases bs.len(),
{
    if bs.len() == 0 {
        Seq::empty()
    } else {
        bs[0].head + bs[0].pages + block_lines(bs.drop_first())
    }
}

/// The entry of a page line that the grammar accepts.
pub open spec fn entry_of(l: Seq<char>) -> EntryModel {
    page_line(l)->Entry_0
}

/// Every page line of a block is accepted by the grammar.
pub open spec fn pages_read(b: Block) -> bool {
    forall|j: int| 0 <= j < b.pages.len() ==> page_line(#[trigger] b.pages[j]) is Entry
}

/// The first page line of `pages` that the grammar does not accept.
pub open spec fn first_bad_page(pages: Seq<Seq<char>>) -> Option<Seq<char>>
    decreases pages.len(),
{
    if pages.len() == 0 {
        None
    } else if !(page_line(pages[0]) is Entry) {
        Some(pages[0])
    } else {
        first_bad_page(pages.drop_first())
    }
}

/// The first page line of blocks, block after block, that the grammar does
/// not accept.
pub open spec fn first_bad_block_page(bs: Seq<Block>) -> Option<Seq<char>>
    decreases bs.len(),
{
    if bs.len() == 0 {
        None
    } else {
        match first_bad_page(bs[0].pages) {
            Some(l) => Some(l),
            None => first_bad_block_page(bs.drop_first()),
        }
    }
}

/// What the reader gives when it stops at a page line the grammar does not
/// accept: a page number beyond `u64`, or the line as an error.
pub open spec fn page_failure(l: Seq<char>) -> DocOutcome {
    match page_line(l) {
        PageLine::Overflow => DocOutcome::Overflow,
        _ => DocOutcome::Failed(crate::parse::ErrorModel::InvalidPageEntry(l)),
    }
}

proof fn lemma_first_bad_page(pages: Seq<Seq<char>>)
    ensures
        first_bad_page(pages) is None <==> forall|j: int|
            0 <= j < pages.len() ==> page_line(#[trigger] pages[j]) is Entry,
        first_bad_page(pages) matches Some(l) ==> !(page_line(l) is Entry),
    decreases pages.len(),
{
    if pages.len() > 0 {
        let t = pages.drop_first();
        lemma_first_bad_page(t);
        if page_line(pages[0]) is Entry {
            assert((forall|j: int| 0 <= j < t.len() ==> page_line(#[trigger] t[j]) is Entry) <==> (
            forall|j: int| 0 <= j < pages.len() ==> page_line(#[trigger] pages[j]) is Entry)) by {
                if forall|j: int| 0 <= j < t.len() ==> page_line(#[trigger] t[j]) is Entry {
                    assert forall|j: int| 0 <= j < pages.len() implies page_line(
                        #[trigger] pages[j],
                    ) is Entry by {
                        if j > 0 {
                            assert(pages[j] == t[j - 1]);
                        }
                    }
                }
                if forall|j: int| 0 <= j < pages.len() ==> page_line(#[trigger] pages[j]) is Entry {
                    assert forall|j: int| 0 <= j < t.len() implies page_line(#[trigger] t[j]) is Entry by {
                        assert(t[j] == pages[j + 1]);
                    }
                }
            }
        }
    }
}

pub open spec fn page_entries(pages: Seq<Seq<char>>) -> Seq<EntryModel> {
    pages.map_values(|l: Seq<char>| entry_of(l))
}

/// The reference that a block reads as.
pub open spec fn block_reference(b: Block) -> ReferenceModel {
    ReferenceModel {
        id: id_of_line(b.head[0])->Some_0,
        source: reference_source(b.head, 1).0->Ok_0,
        entries: page_entries(b.pages),
    }
}

pub open spec fn block_references(bs: Seq<Block>) -> Seq<ReferenceModel> {
    bs.map_values(|b: Block| block_reference(b))
}

/// A block with the order of its page lines forgotten.
pub open spec fn block_shape(b: Block) -> (Seq<Seq<char>>, Multiset<Seq<char>>) {
    (b.head, b.pages.to_multiset())
}

pub open spec fn block_shapes(bs: Seq<Block>) -> Seq<(Seq<Seq<char>>, Multiset<Seq<char>>)> {
    bs.map_values(|b: Block| block_shape(b))
}

/// No two references share an id.
pub open spec fn distinct_ids(refs: Seq<ReferenceModel>) -> bool {
    forall|i: int, j: int| 0 <= i < j < refs.len() ==> #[trigger] refs[i].id != #[trigger] refs[j].id
}

proof fn lemma_page_run_read(lines: Seq<Seq<char>>, p: int, q: int)
    requires
        0 <= p <= q <= lines.len(),
    ensures
        (pages_between(lines, p, q) is Pages) <==> (forall|k: int|
            p <= k < q ==> page_line(#[trigger] lines[k]) is Entry),
        (forall|k: int| p <= k < q ==> page_line(#[trigger] lines[k]) is Entry) ==> pages_between(
            lines,
            p,
            q,
        ) == PagesOutcome::Pages(page_entries(lines.subrange(p, q))),
        first_bad_page(lines.subrange(p, q)) matches Some(l) ==> (match page_line(l) {
            PageLine::Overflow => pages_between(lines, p, q) is Overflow,
            _ => pages_between(lines, p, q) == PagesOutcome::Failed(
                crate::parse::ErrorModel::InvalidPageEntry(l),
            ),
        }),
    decreases q - p,
{
    if p < q {
        lemma_page_run_read(lines, p + 1, q);
        assert(lines.subrange(p, q).drop_first() =~= lines.subrange(p + 1, q));
        assert(lines.subrange(p, q)[0] == lines[p]);
        assert(page_entries(lines.subrange(p, q)) =~= seq![entry_of(lines[p])] + page_entries(
            lines.subrange(p + 1, q),
        ));
        if !(page_line(lines[p]) is Entry) {
            assert(!(forall|k: int| p <= k < q ==> page_line(#[trigger] lines[k]) is Entry));
        }
    } else {
        assert(page_entries(lines.subrange(p, q)) =~= Seq::<EntryModel>::empty());
    }
}

proof fn lemma_dash_run_block(lines: Seq<Seq<char>>, p: int, n: int)
    requires
        0 <= p,
        0 <= n,
        p + n <= lines.len(),
        forall|k: int| p <= k < p + n ==> dash_line(#[trigger] lines[k]),
        p + n == lines.len() || !dash_line(lines[p + n]),
    ensures
        dash_run_end(lines, p) == p + n,
    decreases n,
{
    if n > 0 {
        assert(dash_line(lines[p]));
        lemma_dash_run_block(lines, p + 1, n - 1);
    }
}

/// One block read where it stands, with the lines that follow it.
proof fn lemma_block_step(x: Seq<Seq<char>>, b: Block, r: Seq<Seq<char>>)
    requires
        is_block(b),
        r.len() == 0 || !dash_line(r[0]),
    ensures
        pages_read(b) ==> references_from(x + b.head + b.pages + r, x.len() as int) == prepend_refs(
            seq![block_reference(b)],
            references_from(
                x + b.head + b.pages + r,
                (x.len() + b.head.len() + b.pages.len()) as int,
            ),
        ),
        !pages_read(b) ==> first_bad_page(b.pages) is Some && references_from(
            x + b.head + b.pages + r,
            x.len() as int,
        ) == page_failure(first_bad_page(b.pages)->Some_0),
{
    lemma_first_bad_page(b.pages);
    let lines = x + b.head + b.pages + r;
    let h = b.head;
    let pg = b.pages;
    let pos = x.len() as int;
    assert(lines[pos] == h[0]);
    assert(x + h + (pg + r) =~= lines);
    lemma_source_shift(x, h, pg + r, 1);
    let p = pos + h.len();
    let q = p + pg.len();
    assert forall|k: int| p <= k < q implies dash_line(#[trigger] lines[k]) by {
        assert(lines[k] == pg[k - p]);
    }
    if r.len() > 0 {
        assert(lines[q] == r[0]);
    }
    lemma_dash_run_block(lines, p, pg.len() as int);
    lemma_page_run_read(lines, p, q);
    assert(lines.subrange(p, q) =~= pg);
    if pages_read(b) {
        assert forall|k: int| p <= k < q implies page_line(#[trigger] lines[k]) is Entry by {
            assert(lines[k] == pg[k - p]);
        }
    } else {
        let j = choose|j: int| 0 <= j < pg.len() && !(page_line(#[trigger] pg[j]) is Entry);
        assert(lines[p + j] == pg[j]);
    }
}

/// Blocks read one after the other, after any lines at all.
proof fn lemma_blocks_read(x: Seq<Seq<char>>, bs: Seq<Block>)
    requires
        forall|i: int| 0 <= i < bs.len() ==> is_block(#[trigger] bs[i]),
    ensures
        (references_from(x + block_lines(bs), x.len() as int) is Parsed) <==> (forall|i: int|
            0 <= i < bs.len() ==> pages_read(#[trigger] bs[i])),
        (forall|i: int| 0 <= i < bs.len() ==> pages_read(#[trigger] bs[i])) ==> references_from(
            x + block_lines(bs),
            x.len() as int,
        ) == DocOutcome::Parsed(block_references(bs)),
        first_bad_block_page(bs) is None <==> (forall|i: int|
            0 <= i < bs.len() ==> pages_read(#[trigger] bs[i])),
        first_bad_block_page(bs) matches Some(l) ==> references_from(
            x + block_lines(bs),
            x.len() as int,
        ) == page_failure(l),
    decreases bs.len(),
{
    let lines = x + block_lines(bs);
    if bs.len() == 0 {
        assert(lines =~= x);
        assert(block_references(bs) =~= Seq::<ReferenceModel>::empty());
    } else {
        let b = bs[0];
        let rest = bs.drop_first();
        assert forall|i: int| 0 <= i < rest.len() implies is_block(#[trigger] rest[i]) by {
            assert(rest[i] == bs[i + 1]);
        }
        assert(is_block(b));
        let x2 = x + b.head + b.pages;
        let r = block_lines(rest);
        assert(lines =~= x2 + r);
        assert(x + b.head + b.pages + r =~= lines);
        lemma_blocks_read(x2, rest);
        if rest.len() > 0 {
            assert(is_block(rest[0]));
            assert(r[0] == rest[0].head[0]);
        }
        lemma_block_step(x, b, r);
        lemma_first_bad_page(b.pages);
        assert((forall|i: int| 0 <= i < bs.len() ==> pages_read(#[trigger] bs[i])) <==> (pages_read(b)
            && forall|i: int| 0 <= i < rest.len() ==> pages_read(#[trigger] rest[i]))) by {
            if pages_read(b) && forall|i: int| 0 <= i < rest.len() ==> pages_read(#[trigger] rest[i]) {
                assert forall|i: int| 0 <= i < bs.len() implies pages_read(#[trigger] bs[i]) by {
                    if i > 0 {
                        assert(bs[i] == rest[i - 1]);
                    }
                }
            }
            if forall|i: int| 0 <= i < bs.len() ==> pages_read(#[trigger] bs[i]) {
                assert(pages_read(bs[0]));
                assert forall|i: int| 0 <= i < rest.len() implies pages_read(#[trigger] rest[i]) by {
                    assert(rest[i] == bs[i + 1]);
                }
            }
        }
        assert(block_references(bs) =~= seq![block_reference(b)] + block_references(rest));
    }
}

/// Mapping keeps what two sequences with the same members have in common.
proof fn lemma_map_multiset<A, B>(a: Seq<A>, b: Seq<A>, f: spec_fn(A) -> B)
    requires
        a.to_multiset() == b.to_multiset(),
    ensures
        a.map_values(f).to_multiset() == b.map_values(f).to_multiset(),
    decreases a.len(),
{
    broadcast use vstd::seq_lib::group_to_multiset_ensures;
    broadcast use vstd::multiset::group_multiset_axioms;

    if a.len() == 0 {
        assert(a.to_multiset().len() == 0);
        assert(b.to_multiset().len() == b.len());
        assert(a.map_values(f) =~= Seq::<B>::empty());
        assert(b.map_values(f) =~= Seq::<B>::empty());
    } else {
        let x = a.last();
        let a2 = a.drop_last();
        assert(a2.push(x) =~= a);
        assert(a.to_multiset() == a2.to_multiset().insert(x));
        assert(a.to_multiset().count(x) > 0);
        assert(b.to_multiset().count(x) > 0);
        assert(b.contains(x));
        let k = choose|k: int| 0 <= k < b.len() && b[k] == x;
        let b2 = b.remove(k);
        assert(b2.to_multiset() == b.to_multiset().remove(x));
        assert(a2.to_multiset() =~= b2.to_multiset());
        lemma_map_multiset(a2, b2, f);
        assert(a.map_values(f) =~= a2.map_values(f).push(f(x)));
        let bm = b.map_values(f);
        assert(bm.remove(k) =~= b2.map_values(f));
        assert(bm[k] == f(x));
        assert(bm.remove(k).to_multiset() == bm.to_multiset().remove(f(x)));
        assert(bm.contains(f(x)));
        assert(bm.to_multiset().count(f(x)) > 0);
        assert(a.map_values(f).to_multiset() =~= bm.to_multiset());
    }
}

/// Two sequences with the same members: if one holds nothing twice, nor
/// does the other.
proof fn lemma_no_duplicates_multiset<A>(a: Seq<A>, b: Seq<A>)
    requires
        a.to_multiset() == b.to_multiset(),
        a.no_duplicates(),
    ensures
        b.no_duplicates(),
{
    a.lemma_multiset_has_no_duplicates();
    b.lemma_multiset_has_no_duplicates_conv();
}

/// The page entries of a block, sorted, depend on its page lines and not
/// on their order.
proof fn lemma_same_shape_entries(b1: Block, b2: Block)
    requires
        block_shape(b1) == block_shape(b2),
    ensures
        with_sorted_entries(block_reference(b1)) == with_sorted_entries(block_reference(b2)),
{
    let f = |l: Seq<char>| entry_of(l);
    let e1 = page_entries(b1.pages);
    let e2 = page_entries(b2.pages);
    assert(e1 =~= b1.pages.map_values(f));
    assert(e2 =~= b2.pages.map_values(f));
    lemma_map_multiset(b1.pages, b2.pages, f);
    lemma_entry_well_ordered();
    lemma_le_total(entry_order_fn());
    e1.lemma_sort_by_ensures(entry_le());
    e2.lemma_sort_by_ensures(entry_le());
    lemma_sorted_unique(e1.sort_by(entry_le()), e2.sort_by(entry_le()), entry_le());
}

/// A block with the page lines of a block reads as that block does.
proof fn lemma_same_shape_block(b1: Block, b2: Block)
    requires
        block_shape(b1) == block_shape(b2),
        is_block(b1),
    ensures
        is_block(b2),
        pages_read(b1) ==> pages_read(b2),
{
    broadcast use vstd::seq_lib::group_to_multiset_ensures;

    assert forall|j: int| 0 <= j < b2.pages.len() implies dash_line(#[trigger] b2.pages[j]) && (
    pages_read(b1) ==> page_line(b2.pages[j]) is Entry) by {
        let l = b2.pages[j];
        assert(b2.pages.contains(l));
        assert(b2.pages.to_multiset().count(l) > 0);
        assert(b1.pages.to_multiset().count(l) > 0);
        assert(b1.pages.contains(l));
        let k = choose|k: int| 0 <= k < b1.pages.len() && b1.pages[k] == l;
        assert(dash_line(b1.pages[k]));
    }
}

/// References sorted and with distinct ids stay sorted when the page
/// entries of each are sorted.
proof fn lemma_sorted_with_entries(t: Seq<ReferenceModel>)
    requires
        sorted_by(t, reference_le()),
        distinct_ids(t),
    ensures
        sorted_by(t.map_values(|r: ReferenceModel| with_sorted_entries(r)), reference_le()),
{
    lemma_orders_unfold();
    crate::model::lemma_text_well_ordered();
    let u = t.map_values(|r: ReferenceModel| with_sorted_entries(r));
    assert forall|i: int, j: int| 0 <= i < j < u.len() implies #[trigger] reference_le()(u[i], u[j]) by {
        assert(reference_le()(t[i], t[j]));
        assert(t[i].id != t[j].id);
        assert(text_order_fn()(t[i].id, t[j].id) != Order::Equal);
        assert(u[i].id == t[i].id && u[j].id == t[j].id);
    }
}

/// The references of blocks read without error, sorted, do not depend on
/// the order of the blocks nor on that of their page lines, when their ids
/// are pairwise distinct.
proof fn lemma_reordered_references(bs1: Seq<Block>, bs2: Seq<Block>)
    requires
        forall|i: int| 0 <= i < bs1.len() ==> is_block(#[trigger] bs1[i]),
        forall|i: int| 0 <= i < bs1.len() ==> pages_read(#[trigger] bs1[i]),
        forall|j: int|
            0 <= j < bs2.len() ==> exists|i: int|
                0 <= i < bs1.len() && block_shape(bs1[i]) == block_shape(#[trigger] bs2[j]),
        block_shapes(bs1).to_multiset() == block_shapes(bs2).to_multiset(),
        distinct_ids(sorted_references(block_references(bs1))),
    ensures
        forall|j: int| 0 <= j < bs2.len() ==> pages_read(#[trigger] bs2[j]),
        sorted_references(block_references(bs2)) == sorted_references(block_references(bs1)),
{
    broadcast use vstd::seq_lib::group_to_multiset_ensures;

    let sh1 = block_shapes(bs1);
    let sh2 = block_shapes(bs2);
    assert forall|j: int| 0 <= j < bs2.len() implies pages_read(#[trigger] bs2[j]) by {
        let i = choose|i: int| 0 <= i < bs1.len() && block_shape(bs1[i]) == block_shape(bs2[j]);
        assert(pages_read(bs1[i]));
        lemma_same_shape_block(bs1[i], bs2[j]);
    }
    let r1 = block_references(bs1);
    let r2 = block_references(bs2);
    let w = |r: ReferenceModel| with_sorted_entries(r);
    let g = |sh: (Seq<Seq<char>>, Multiset<Seq<char>>)|
        with_sorted_entries(block_reference(choose|c: Block| block_shape(c) == sh));
    assert forall|b: Block| #[trigger] g(block_shape(b)) == w(block_reference(b)) by {
        let c = choose|c: Block| block_shape(c) == block_shape(b);
        lemma_same_shape_entries(c, b);
    }
    assert(r1.map_values(w) =~= sh1.map_values(g)) by {
        assert forall|i: int| 0 <= i < bs1.len() implies r1.map_values(w)[i] == sh1.map_values(g)[i] by {
            assert(g(block_shape(bs1[i])) == w(block_reference(bs1[i])));
        }
    }
    assert(r2.map_values(w) =~= sh2.map_values(g)) by {
        assert forall|i: int| 0 <= i < bs2.len() implies r2.map_values(w)[i] == sh2.map_values(g)[i] by {
            assert(g(block_shape(bs2[i])) == w(block_reference(bs2[i])));
        }
    }
    lemma_map_multiset(sh1, sh2, g);
    lemma_reference_well_ordered();
    lemma_le_total(reference_order_fn());
    let t1 = r1.sort_by(reference_le());
    let t2 = r2.sort_by(reference_le());
    r1.lemma_sort_by_ensures(reference_le());
    r2.lemma_sort_by_ensures(reference_le());
    lemma_map_multiset(t1, r1, w);
    lemma_map_multiset(t2, r2, w);
    let s1 = sorted_references(r1);
    let s2 = sorted_references(r2);
    assert(s1 =~= t1.map_values(w));
    assert(s2 =~= t2.map_values(w));
    assert(s1.to_multiset() == s2.to_multiset());
    let idf = |r: ReferenceModel| r.id;
    assert(distinct_ids(s1));
    assert(s1.map_values(idf).no_duplicates());
    lemma_map_multiset(s1, s2, idf);
    lemma_no_duplicates_multiset(s1.map_values(idf), s2.map_values(idf));
    assert(distinct_ids(s2)) by {
        assert forall|i: int, j: int| 0 <= i < j < s2.len() implies #[trigger] s2[i].id
            != #[trigger] s2[j].id by {
            assert(s2.map_values(idf)[i] != s2.map_values(idf)[j]);
        }
    }
    assert(distinct_ids(t1)) by {
        assert forall|i: int, j: int| 0 <= i < j < t1.len() implies #[trigger] t1[i].id
            != #[trigger] t1[j].id by {
            assert(s1[i].id == t1[i].id && s1[j].id == t1[j].id);
        }
    }
    assert(distinct_ids(t2)) by {
        assert forall|i: int, j: int| 0 <= i < j < t2.len() implies #[trigger] t2[i].id
            != #[trigger] t2[j].id by {
            assert(s2[i].id == t2[i].id && s2[j].id == t2[j].id);
        }
    }
    lemma_sorted_with_entries(t1);
    lemma_sorted_with_entries(t2);
    lemma_sorted_unique(s1, s2, reference_le());
}

/// The order of the reference blocks of a document, and the order of the
/// page lines within each block, change nothing of what the document
/// gives: `c2` holds the blocks of `c1`, each with the same page lines, in
/// any order. This holds when the first page line that the grammar does not
/// accept, if any, is the same in both; when the document reads without
/// error, its ids must be pairwise distinct; and no block may start with a
/// page line.
pub proof fn lemma_block_order(c1: Seq<char>, c2: Seq<char>, bs1: Seq<Block>, bs2: Seq<Block>)
    requires
        forall|i: int| 0 <= i < bs1.len() ==> is_block(#[trigger] bs1[i]),
        doc_lines(c1) == block_lines(bs1),
        doc_lines(c2) == block_lines(bs2),
        block_shapes(bs1).to_multiset() == block_shapes(bs2).to_multiset(),
        first_bad_block_page(bs1) == first_bad_block_page(bs2),
        document(c1) matches DocOutcome::Parsed(refs) ==> distinct_ids(refs),
    ensures
        document(c2) == document(c1),
{
    broadcast use vstd::seq_lib::group_to_multiset_ensures;

    let sh1 = block_shapes(bs1);
    let sh2 = block_shapes(bs2);
    assert forall|j: int| 0 <= j < bs2.len() implies is_block(#[trigger] bs2[j]) && (
    exists|i: int| 0 <= i < bs1.len() && block_shape(bs1[i]) == block_shape(bs2[j])) by {
        assert(sh2[j] == block_shape(bs2[j]));
        assert(sh2.contains(sh2[j]));
        assert(sh2.to_multiset().count(sh2[j]) > 0);
        assert(sh1.to_multiset().count(sh2[j]) > 0);
        assert(sh1.contains(sh2[j]));
        let i = choose|i: int| 0 <= i < sh1.len() && sh1[i] == sh2[j];
        assert(sh1[i] == block_shape(bs1[i]));
        lemma_same_shape_block(bs1[i], bs2[j]);
    }
    let e = Seq::<Seq<char>>::empty();
    assert(e + block_lines(bs1) =~= block_lines(bs1));
    assert(e + block_lines(bs2) =~= block_lines(bs2));
    lemma_blocks_read(e, bs1);
    lemma_blocks_read(e, bs2);
    if first_bad_block_page(bs1) is None {
        lemma_reordered_references(bs1, bs2);
    }
}

/// `a` and `b` agree on their first `k` characters.
pub open spec fn agree_before(a: Seq<char>, b: Seq<char>, k: int) -> bool {
    forall|j: int| 0 <= j < k ==> a[j] == b[j]
}

/// `a` and `b` first differ at `k`, where `a` has the character with the
/// smaller code point.
pub open spec fn smaller_at(a: Seq<char>, b: Seq<char>, k: int) -> bool {
    &&& 0 <= k < a.len()
    &&& k < b.len()
    &&& agree_before(a, b, k)
    &&& (a[k] as int) < (b[k] as int)
}

/// `a` comes before `b` in the order of Rust's `str` comparison: at the
/// first place where they differ `a` has the character with the smaller
/// code point, or `a` is a proper prefix of `b`.
pub open spec fn code_point_less(a: Seq<char>, b: Seq<char>) -> bool {
    ||| exists|k: int| #[trigger] smaller_at(a, b, k)
    ||| a.len() < b.len() && agree_before(a, b, a.len() as int)
}

/// Texts whose first characters differ compare as those characters.
proof fn lemma_code_point_less_head(a: Seq<char>, b: Seq<char>)
    requires
        a.len() > 0,
        b.len() > 0,
        (a[0] as int) < (b[0] as int),
    ensures
        code_point_less(a, b),
        !code_point_less(b, a),
{
    assert(smaller_at(a, b, 0));
    if exists|k: int| #[trigger] smaller_at(b, a, k) {
        let k = choose|k: int| #[trigger] smaller_at(b, a, k);
        if k > 0 {
            assert(b[0] == a[0]);
        }
    }
    if b.len() < a.len() && agree_before(b, a, b.len() as int) {
        assert(b[0] == a[0]);
    }
}

proof fn lemma_code_point_less_down(a: Seq<char>, b: Seq<char>)
    requires
        a.len() > 0,
        b.len() > 0,
        a[0] == b[0],
        code_point_less(a, b),
    ensures
        code_point_less(a.drop_first(), b.drop_first()),
{
    let a1 = a.drop_first();
    let b1 = b.drop_first();
    if exists|k: int| #[trigger] smaller_at(a, b, k) {
        let k = choose|k: int| #[trigger] smaller_at(a, b, k);
        assert(k > 0);
        assert(a1[k - 1] == a[k] && b1[k - 1] == b[k]);
        assert(agree_before(a1, b1, k - 1)) by {
            assert forall|j: int| 0 <= j < k - 1 implies a1[j] == b1[j] by {
                assert(a[j + 1] == b[j + 1]);
            }
        }
        assert(smaller_at(a1, b1, k - 1));
    } else {
        assert(agree_before(a1, b1, a1.len() as int)) by {
            assert forall|j: int| 0 <= j < a1.len() implies a1[j] == b1[j] by {
                assert(a[j + 1] == b[j + 1]);
            }
        }
    }
}

proof fn lemma_code_point_less_up(a: Seq<char>, b: Seq<char>)
    requires
        a.len() > 0,
        b.len() > 0,
        a[0] == b[0],
        code_point_less(a.drop_first(), b.drop_first()),
    ensures
        code_point_less(a, b),
{
    let a1 = a.drop_first();
    let b1 = b.drop_first();
    if exists|k: int| #[trigger] smaller_at(a1, b1, k) {
        let k = choose|k: int| #[trigger] smaller_at(a1, b1, k);
        assert(agree_before(a, b, k + 1)) by {
            assert forall|j: int| 0 <= j < k + 1 implies a[j] == b[j] by {
                if j > 0 {
                    assert(a1[j - 1] == b1[j - 1]);
                }
            }
        }
        assert(a[k + 1] == a1[k] && b[k + 1] == b1[k]);
        assert(smaller_at(a, b, k + 1));
    } else {
        assert(agree_before(a, b, a.len() as int)) by {
            assert forall|j: int| 0 <= j < a.len() implies a[j] == b[j] by {
                if j > 0 {
                    assert(a1[j - 1] == b1[j - 1]);
                }
            }
        }
    }
}

/// Texts are compared as Rust compares strings: by the code points of
/// their characters, one place after the other.
pub proof fn lemma_text_order_code_points(a: Seq<char>, b: Seq<char>)
    ensures
        text_order_fn()(a, b) == Order::Less <==> code_point_less(a, b),
        text_order_fn()(a, b) == Order::Equal <==> a == b,
        text_order_fn()(a, b) == Order::Greater <==> code_point_less(b, a),
    decreases a.len(),
{
    lemma_orders_unfold();
    crate::model::lemma_text_well_ordered();
    let f = crate::model::char_order_fn();
    if a.len() == 0 {
        if b.len() > 0 {
            assert(agree_before(a, b, 0));
            assert(code_point_less(a, b));
            assert(!code_point_less(b, a));
        } else {
            assert(a =~= b);
            assert(!code_point_less(a, b));
        }
    } else if b.len() == 0 {
        assert(agree_before(b, a, 0));
        assert(code_point_less(b, a));
        assert(!code_point_less(a, b));
    } else {
        let a1 = a.drop_first();
        let b1 = b.drop_first();
        assert(lex(a, b, f) == crate::order::chain(f(a[0], b[0]), lex(a1, b1, f)));
        if (a[0] as int) < (b[0] as int) {
            assert(f(a[0], b[0]) == Order::Less);
            lemma_code_point_less_head(a, b);
        } else if (b[0] as int) < (a[0] as int) {
            assert(f(a[0], b[0]) == Order::Greater);
            lemma_code_point_less_head(b, a);
        } else {
            assert(a[0] == b[0]);
            assert(f(a[0], b[0]) == Order::Equal);
            lemma_text_order_code_points(a1, b1);
            assert(text_order_fn()(a1, b1) == lex(a1, b1, f));
            if code_point_less(a, b) {
                lemma_code_point_less_down(a, b);
            }
            if code_point_less(a1, b1) {
                lemma_code_point_less_up(a, b);
            }
            if code_point_less(b, a) {
                lemma_code_point_less_down(b, a);
            }
            if code_point_less(b1, a1) {
                lemma_code_point_less_up(b, a);
            }
            assert(a == b <==> a1 == b1) by {
                if a1 == b1 {
                    assert(a =~= seq![a[0]] + a1);
                    assert(b =~= seq![b[0]] + b1);
                }
            }
        }
    }
}

/// The references a document gives come in ascending order of their ids,
/// as Rust compares strings: no id comes after a larger one.
pub proof fn lemma_document_ids_ascending(text: Seq<char>)
    ensures
        document(text) matches DocOutcome::Parsed(refs) ==> forall|i: int, j: int|
            0 <= i < j < refs.len() ==> !code_point_less(#[trigger] refs[j].id, #[trigger] refs[i].id),
{
    lemma_document_order(text);
    if let DocOutcome::Parsed(refs) = document(text) {
        assert forall|i: int, j: int| 0 <= i < j < refs.len() implies !code_point_less(
            #[trigger] refs[j].id,
            #[trigger] refs[i].id,
        ) by {
            lemma_text_order_code_points(refs[i].id, refs[j].id);
        }
    }
}

} // verus!
