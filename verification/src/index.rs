//! The hash index of the downloaded PDFs (`spec/index.txt`): a map from
//! file names to hashes, how it is read and written, and how two indexes
//! differ.
use vstd::prelude::*;
use crate::parse::str_equal;
use crate::model::{Reference, reference_views, ReferenceModel};
use crate::text::{
    words, words_from, split_words, split_on, split_newlines, is_ws, blank_end, word_end,
    lemma_blank_word_end,
};
use crate::model::text_order_fn;
use crate::order::le_of;
use crate::sort::{sort_by_rank, views_of};
use vstd::relations::sorted_by;

verus! {

/// One line of the hash index.
#[derive(Debug)]
pub struct IndexEntry {
    pub filename: String,
    pub hash: String,
}

/// The name and hash of an entry.
pub open spec fn entry_pairs(v: Seq<IndexEntry>) -> Seq<(Seq<char>, Seq<char>)> {
    v.map_values(|e: IndexEntry| (e.filename@, e.hash@))
}

/// The map that inserting the pairs in order builds: a later pair for a
/// name replaces an earlier one.
pub open spec fn map_of(p: Seq<(Seq<char>, Seq<char>)>) -> Map<Seq<char>, Seq<char>>
    decreases p.len(),
{
    if p.len() == 0 {
        Map::empty()
    } else {
        map_of(p.drop_last()).insert(p.last().0, p.last().1)
    }
}

/// No name occurs twice.
pub open spec fn distinct_names(p: Seq<(Seq<char>, Seq<char>)>) -> bool {
    forall|i: int, j: int| 0 <= i < j < p.len() ==> #[trigger] p[i].0 != #[trigger] p[j].0
}

pub proof fn lemma_map_of_dom(p: Seq<(Seq<char>, Seq<char>)>)
    ensures
        map_of(p).dom().finite(),
        forall|k: Seq<char>| #[trigger]
            map_of(p).dom().contains(k) <==> exists|i: int| 0 <= i < p.len() && p[i].0 == k,
    decreases p.len(),
{
    if p.len() > 0 {
        let q = p.drop_last();
        lemma_map_of_dom(q);
        assert forall|k: Seq<char>| #[trigger]
            map_of(p).dom().contains(k) <==> exists|i: int| 0 <= i < p.len() && p[i].0 == k by {
            if map_of(p).dom().contains(k) {
                if k == p.last().0 {
                    assert(p[p.len() - 1].0 == k);
                } else {
                    let i = choose|i: int| 0 <= i < q.len() && q[i].0 == k;
                    assert(p[i].0 == k);
                }
            }
            if exists|i: int| 0 <= i < p.len() && p[i].0 == k {
                let i = choose|i: int| 0 <= i < p.len() && p[i].0 == k;
                if i < p.len() - 1 {
                    assert(q[i].0 == k);
                }
            }
        }
    }
}

pub proof fn lemma_map_of_value(p: Seq<(Seq<char>, Seq<char>)>, i: int)
    requires
        distinct_names(p),
        0 <= i < p.len(),
    ensures
        map_of(p).dom().contains(p[i].0),
        map_of(p)[p[i].0] == p[i].1,
    decreases p.len(),
{
    let q = p.drop_last();
    if i < p.len() - 1 {
        assert(distinct_names(q)) by {
            assert forall|a: int, b: int| 0 <= a < b < q.len() implies #[trigger] q[a].0
                != #[trigger] q[b].0 by {
                assert(p[a].0 != p[b].0);
            }
        }
        assert(q[i] == p[i]);
        lemma_map_of_value(q, i);
        assert(p[i].0 != p[p.len() - 1].0);
    }
}

pub proof fn lemma_map_of_len(p: Seq<(Seq<char>, Seq<char>)>)
    requires
        distinct_names(p),
    ensures
        map_of(p).dom().len() == p.len(),
    decreases p.len(),
{
    if p.len() > 0 {
        let q = p.drop_last();
        assert(distinct_names(q)) by {
            assert forall|a: int, b: int| 0 <= a < b < q.len() implies #[trigger] q[a].0
                != #[trigger] q[b].0 by {
                assert(p[a].0 != p[b].0);
            }
        }
        lemma_map_of_len(q);
        lemma_map_of_dom(q);
        if map_of(q).dom().contains(p.last().0) {
            let i = choose|i: int| 0 <= i < q.len() && q[i].0 == p.last().0;
            assert(p[i].0 == p[p.len() - 1].0);
        }
    }
}

pub proof fn lemma_map_of_update(p: Seq<(Seq<char>, Seq<char>)>, j: int, v: Seq<char>)
    requires
        distinct_names(p),
        0 <= j < p.len(),
    ensures
        map_of(p.update(j, (p[j].0, v))) == map_of(p).insert(p[j].0, v),
    decreases p.len(),
{
    let k = p[j].0;
    let q = p.drop_last();
    if j == p.len() - 1 {
        assert(p.update(j, (k, v)).drop_last() =~= q);
        assert(map_of(p.update(j, (k, v))) =~= map_of(p).insert(k, v));
    } else {
        assert(distinct_names(q)) by {
            assert forall|a: int, b: int| 0 <= a < b < q.len() implies #[trigger] q[a].0
                != #[trigger] q[b].0 by {
                assert(p[a].0 != p[b].0);
            }
        }
        assert(q[j] == p[j]);
        lemma_map_of_update(q, j, v);
        assert(p.update(j, (k, v)).drop_last() =~= q.update(j, (k, v)));
        assert(p.update(j, (k, v)).last() == p.last());
        assert(p[j].0 != p[p.len() - 1].0);
        assert(map_of(p.update(j, (k, v))) =~= map_of(p).insert(k, v));
    }
}

/// A map from file names to hashes, kept in the order in which the names
/// came; each name once.
pub struct FileIndex {
    entries: Vec<IndexEntry>,
}

impl View for FileIndex {
    type V = Map<Seq<char>, Seq<char>>;

    closed spec fn view(&self) -> Map<Seq<char>, Seq<char>> {
        map_of(entry_pairs(self.entries@))
    }
}

impl FileIndex {
    /// Each name occurs once.
    pub closed spec fn wf(&self) -> bool {
        distinct_names(entry_pairs(self.entries@))
    }

    /// The entries in the order of their names' first insertion.
    pub closed spec fn pairs(&self) -> Seq<(Seq<char>, Seq<char>)> {
        entry_pairs(self.entries@)
    }

    /// The entries hold each name once, and are the map.
    pub proof fn lemma_pairs(&self)
        requires
            self.wf(),
        ensures
            distinct_names(self.pairs()),
            map_of(self.pairs()) == self@,
            self@.dom().finite(),
            self@.dom().len() == self.pairs().len(),
    {
        lemma_map_of_dom(self.pairs());
        lemma_map_of_len(self.pairs());
    }

    /// An empty index.
    pub fn new() -> (r: FileIndex)
        ensures
            r.wf(),
            r@ == Map::<Seq<char>, Seq<char>>::empty(),
            r.pairs() == Seq::<(Seq<char>, Seq<char>)>::empty(),
    {
        let r = FileIndex { entries: Vec::new() };
        assert(entry_pairs(r.entries@) =~= Seq::<(Seq<char>, Seq<char>)>::empty());
        r
    }

    /// The position of a name among the entries.
    fn position(&self, filename: &str) -> (r: Option<usize>)
        ensures
            match r {
                Some(i) => i < self.pairs().len() && self.pairs()[i as int].0 == filename@,
                None => forall|i: int| 0 <= i < self.pairs().len() ==> self.pairs()[i].0 != filename@,
            },
    {
        let mut i: usize = 0;
        while i < self.entries.len()
            invariant
                i <= self.entries@.len(),
                forall|j: int| 0 <= j < i ==> self.pairs()[j].0 != filename@,
            decreases self.entries@.len() - i,
        {
            if str_equal(self.entries[i].filename.as_str(), filename) {
                return Some(i);
            }
            i = i + 1;
        }
        None
    }

    /// The hash of a name, if the index has one.
    pub fn get(&self, filename: &str) -> (r: Option<&String>)
        requires
            self.wf(),
        ensures
            match r {
                Some(h) => self@.dom().contains(filename@) && self@[filename@] == h@,
                None => !self@.dom().contains(filename@),
            },
    {
        proof {
            lemma_map_of_dom(self.pairs());
        }
        match self.position(filename) {
            Some(i) => {
                proof {
                    lemma_map_of_value(self.pairs(), i as int);
                }
                Some(&self.entries[i].hash)
            },
            None => None,
        }
    }

    /// Sets the hash of a name: in its place if the name is there, at the
    /// end if not.
    pub fn insert(&mut self, filename: String, hash: String)
        requires
            old(self).wf(),
        ensures
            final(self).wf(),
            final(self)@ == old(self)@.insert(filename@, hash@),
            forall|j: int|
                0 <= j < old(self).pairs().len() && old(self).pairs()[j].0 == filename@
                    ==> final(self).pairs() == old(self).pairs().update(j, (filename@, hash@)),
            (forall|j: int| 0 <= j < old(self).pairs().len() ==> old(self).pairs()[j].0 != filename@)
                ==> final(self).pairs() == old(self).pairs().push((filename@, hash@)),
    {
        let ghost p = self.pairs();
        match self.position(filename.as_str()) {
            Some(i) => {
                proof {
                    lemma_map_of_update(p, i as int, hash@);
                }
                let mut entries: Vec<IndexEntry> = Vec::new();
                std::mem::swap(&mut entries, &mut self.entries);
                entries.set(i, IndexEntry { filename, hash });
                proof {
                    assert(entry_pairs(entries@) =~= p.update(i as int, (p[i as int].0, hash@)));
                    assert forall|j: int|
                        0 <= j < p.len() && p[j].0 == filename@ implies j == i by {
                        if j != i {
                            assert(p[j].0 != p[i as int].0);
                        }
                    }
                }
                self.entries = entries;
            },
            None => {
                let mut entries: Vec<IndexEntry> = Vec::new();
                std::mem::swap(&mut entries, &mut self.entries);
                let ghost fv = filename@;
                let ghost hv = hash@;
                entries.push(IndexEntry { filename, hash });
                proof {
                    assert(entry_pairs(entries@) =~= p.push((fv, hv)));
                    assert(entry_pairs(entries@).drop_last() =~= p);
                }
                self.entries = entries;
            },
        }
    }

    /// The number of names.
    pub fn len(&self) -> (r: usize)
        requires
            self.wf(),
        ensures
            r == self@.dom().len(),
            r == self.pairs().len(),
    {
        proof {
            self.lemma_pairs();
        }
        self.entries.len()
    }

    /// The entry at a position.
    pub fn entry(&self, i: usize) -> (r: &IndexEntry)
        requires
            i < self.pairs().len(),
        ensures
            (r.filename@, r.hash@) == self.pairs()[i as int],
    {
        &self.entries[i]
    }
}

/// The first word of a text, or nothing: what the hash index takes of the
/// output of `sha1sum`.
pub open spec fn first_word(s: Seq<char>) -> Seq<char> {
    if words(s).len() > 0 {
        words(s)[0]
    } else {
        Seq::empty()
    }
}

/// `w` stands in `s` at `i` as its first word: only whitespace comes
/// before it, and whitespace or the end of `s` comes after it.
pub open spec fn first_word_at(s: Seq<char>, w: Seq<char>, i: int) -> bool {
    &&& 0 <= i
    &&& i + w.len() <= s.len()
    &&& forall|j: int| 0 <= j < i ==> is_ws(#[trigger] s[j])
    &&& s.subrange(i, i + w.len()) == w
    &&& (i + w.len() == s.len() || is_ws(s[i + w.len()]))
}

proof fn lemma_blank_run(s: Seq<char>, i: int)
    requires
        0 <= i <= s.len(),
    ensures
        forall|j: int| i <= j < blank_end(s, i) ==> is_ws(#[trigger] s[j]),
        forall|j: int| i <= j < s.len() && !is_ws(#[trigger] s[j]) ==> blank_end(s, i) <= j,
    decreases s.len() - i,
{
    lemma_blank_word_end(s, i);
    if i < s.len() && is_ws(s[i]) {
        lemma_blank_run(s, i + 1);
    }
}

proof fn lemma_word_run(s: Seq<char>, i: int)
    requires
        0 <= i <= s.len(),
    ensures
        forall|j: int| i <= j < word_end(s, i) ==> !is_ws(#[trigger] s[j]),
        word_end(s, i) < s.len() ==> is_ws(s[word_end(s, i)]),
    decreases s.len() - i,
{
    lemma_blank_word_end(s, i);
    if i < s.len() && !is_ws(s[i]) {
        lemma_word_run(s, i + 1);
    }
}

/// The hash index takes the whole first word of the output of `sha1sum`:
/// a run of characters without whitespace, with only whitespace before it
/// and whitespace or the end after it; nothing when the text is blank.
pub proof fn lemma_first_word_whole(s: Seq<char>)
    ensures
        (exists|k: int| 0 <= k < s.len() && !is_ws(#[trigger] s[k])) ==> {
            &&& first_word(s).len() > 0
            &&& forall|j: int| 0 <= j < first_word(s).len() ==> !is_ws(#[trigger] first_word(s)[j])
            &&& exists|i: int| #[trigger] first_word_at(s, first_word(s), i)
        },
        (forall|k: int| 0 <= k < s.len() ==> is_ws(#[trigger] s[k])) ==> first_word(s).len() == 0,
{
    lemma_blank_run(s, 0);
    lemma_blank_word_end(s, 0);
    let a = blank_end(s, 0);
    if a < s.len() {
        lemma_blank_word_end(s, a);
        lemma_word_run(s, a);
        let b = word_end(s, a);
        assert(words(s) == seq![s.subrange(a, b)] + words_from(s, b));
        let w = first_word(s);
        assert(w == s.subrange(a, b));
        assert(first_word_at(s, w, a));
    } else {
        assert(words(s) == Seq::<Seq<char>>::empty());
    }
}

/// The first word of a text, as `first_word` states.
pub fn first_word_of(s: &str) -> (r: String)
    ensures
        r@ == first_word(s@),
{
    let w = split_words(s);
    if w.len() > 0 {
        let r = w[0].clone();
        proof {
            assert(w@.map_values(|x: String| x@)[0] == w@[0]@);
        }
        r
    } else {
        String::new()
    }
}

/// The entry that one line of a stored index gives: its second word as the
/// name and its first as the hash, when it has two words or more.
pub open spec fn stored_line_pair(line: Seq<char>) -> Option<(Seq<char>, Seq<char>)> {
    let w = words(line);
    if w.len() >= 2 {
        Some((w[1], w[0]))
    } else {
        None
    }
}

pub open spec fn stored_pairs(lines: Seq<Seq<char>>) -> Seq<(Seq<char>, Seq<char>)>
    decreases lines.len(),
{
    if lines.len() == 0 {
        Seq::empty()
    } else {
        match stored_line_pair(lines.last()) {
            Some(p) => stored_pairs(lines.drop_last()).push(p),
            None => stored_pairs(lines.drop_last()),
        }
    }
}

/// A stored index read back: each line that has two words or more maps
/// its second word to its first, a later line for a name replacing an
/// earlier one. (A `'\r'` before a line's end is whitespace, and the empty
/// piece after a final `'\n'` has no words, so the lines are the pieces
/// between the `'\n'`s.)
pub open spec fn stored_index(content: Seq<char>) -> Map<Seq<char>, Seq<char>> {
    map_of(stored_pairs(split_on(content, '\n')))
}

proof fn lemma_map_of_push(p: Seq<(Seq<char>, Seq<char>)>, x: (Seq<char>, Seq<char>))
    ensures
        map_of(p.push(x)) == map_of(p).insert(x.0, x.1),
{
    assert(p.push(x).drop_last() =~= p);
}

/// Reads a stored index, as `stored_index` states.
pub fn parse_index(content: &str) -> (r: FileIndex)
    ensures
        r.wf(),
        r@ == stored_index(content@),
{
    let lines = split_newlines(content);
    let ghost ls = lines@.map_values(|l: String| l@);
    let mut idx = FileIndex::new();
    let mut i: usize = 0;
    proof {
        assert(ls.take(0) =~= Seq::<Seq<char>>::empty());
    }
    while i < lines.len()
        invariant
            i <= lines@.len(),
            ls == lines@.map_values(|l: String| l@),
            ls == split_on(content@, '\n'),
            idx.wf(),
            idx@ == map_of(stored_pairs(ls.take(i as int))),
        decreases lines@.len() - i,
    {
        let w = split_words(lines[i].as_str());
        proof {
            assert(ls.take(i + 1).drop_last() =~= ls.take(i as int));
            assert(ls.take(i + 1).last() == lines@[i as int]@);
        }
        if w.len() >= 2 {
            let name = w[1].clone();
            let hash = w[0].clone();
            proof {
                assert(w@.map_values(|x: String| x@)[0] == w@[0]@);
                assert(w@.map_values(|x: String| x@)[1] == w@[1]@);
                lemma_map_of_push(stored_pairs(ls.take(i as int)), (name@, hash@));
            }
            idx.insert(name, hash);
        }
        i = i + 1;
    }
    proof {
        assert(ls.take(lines@.len() as int) =~= ls);
    }
    idx
}

/// The name under which the PDF of a specification is stored.
pub open spec fn pdf_name(id: Seq<char>) -> Seq<char> {
    id + ".pdf"@
}

/// The name under which the PDF of a specification is stored.
pub fn pdf_file_name(id: &str) -> (r: String)
    ensures
        r@ == pdf_name(id@),
{
    let mut r = String::from_str(id);
    r.append(".pdf");
    r
}

/// The hash that the new index records for a file: the first word of the
/// output of `sha1sum`, or `?` for a file that was not downloaded.
pub open spec fn recorded_hash(sha1_output: Option<Seq<char>>) -> Seq<char> {
    match sha1_output {
        Some(o) => first_word(o),
        None => "?"@,
    }
}

pub open spec fn fresh_pairs(refs: Seq<ReferenceModel>, outputs: Seq<Option<Seq<char>>>) -> Seq<
    (Seq<char>, Seq<char>),
> {
    Seq::new(refs.len(), |i: int| (pdf_name(refs[i].id), recorded_hash(outputs[i])))
}

pub open spec fn option_views(v: Seq<Option<String>>) -> Seq<Option<Seq<char>>> {
    v.map_values(|o: Option<String>| match o {
        Some(s) => Some(s@),
        None => None,
    })
}

/// The index of the files just downloaded: for each specification its file
/// name and the hash of the file, given the output of `sha1sum` on the file,
/// or nothing where the file is missing.
pub fn fresh_index(refs: &Vec<Reference>, sha1_outputs: &Vec<Option<String>>) -> (r: FileIndex)
    requires
        refs@.len() == sha1_outputs@.len(),
    ensures
        r.wf(),
        r@ == map_of(fresh_pairs(reference_views(refs@), option_views(sha1_outputs@))),
{
    let ghost fp = fresh_pairs(reference_views(refs@), option_views(sha1_outputs@));
    let mut idx = FileIndex::new();
    let mut i: usize = 0;
    proof {
        assert(fp.take(0) =~= Seq::<(Seq<char>, Seq<char>)>::empty());
    }
    while i < refs.len()
        invariant
            i <= refs@.len() == sha1_outputs@.len(),
            fp == fresh_pairs(reference_views(refs@), option_views(sha1_outputs@)),
            idx.wf(),
            idx@ == map_of(fp.take(i as int)),
        decreases refs@.len() - i,
    {
        let name = pdf_file_name(refs[i].id.as_str());
        let hash = match &sha1_outputs[i] {
            Some(o) => first_word_of(o.as_str()),
            None => String::from_str("?"),
        };
        proof {
            assert(fp.take(i + 1) =~= fp.take(i as int).push(fp[i as int]));
            assert(fp[i as int] == (name@, hash@));
            lemma_map_of_push(fp.take(i as int), (name@, hash@));
        }
        idx.insert(name, hash);
        i = i + 1;
    }
    proof {
        assert(fp.take(refs@.len() as int) =~= fp);
    }
    idx
}

/// The test by which a download finds the stored index up to date: every
/// stored name has the same hash in the new index, and both have as many
/// names.
pub open spec fn up_to_date(old: Map<Seq<char>, Seq<char>>, new: Map<Seq<char>, Seq<char>>) -> bool {
    &&& forall|k: Seq<char>| #[trigger]
        old.dom().contains(k) ==> new.dom().contains(k) && new[k] == old[k]
    &&& old.dom().len() == new.dom().len()
}

/// Whether the stored index is up to date, as `up_to_date` states.
pub fn index_up_to_date(old: &FileIndex, new: &FileIndex) -> (r: bool)
    requires
        old.wf(),
        new.wf(),
    ensures
        r == up_to_date(old@, new@),
{
    proof {
        old.lemma_pairs();
        new.lemma_pairs();
        lemma_map_of_dom(old.pairs());
    }
    let n = old.len();
    let mut i: usize = 0;
    while i < n
        invariant
            i <= n == old.pairs().len(),
            old.wf(),
            new.wf(),
            distinct_names(old.pairs()),
            map_of(old.pairs()) == old@,
            forall|j: int| 0 <= j < i ==> #[trigger] new@.dom().contains(old.pairs()[j].0) && new@[old.pairs()[j].0] == old.pairs()[j].1,
        decreases n - i,
    {
        let e = old.entry(i);
        proof {
            lemma_map_of_value(old.pairs(), i as int);
        }
        match new.get(e.filename.as_str()) {
            Some(h) => {
                if !str_equal(h.as_str(), e.hash.as_str()) {
                    return false;
                }
            },
            None => {
                return false;
            },
        }
        assert(new@.dom().contains(old.pairs()[i as int].0) && new@[old.pairs()[i as int].0]
            == old.pairs()[i as int].1);
        i = i + 1;
    }
    proof {
        assert forall|k: Seq<char>| #[trigger]
            old@.dom().contains(k) implies new@.dom().contains(k) && new@[k] == old@[k] by {
            let j = choose|j: int| 0 <= j < old.pairs().len() && old.pairs()[j].0 == k;
            lemma_map_of_value(old.pairs(), j);
            assert(new@.dom().contains(old.pairs()[j].0));
        }
    }
    old.len() == new.len()
}

/// A stored index is found up to date exactly when it equals the new one.
pub proof fn lemma_up_to_date_iff_equal(old: Map<Seq<char>, Seq<char>>, new: Map<Seq<char>, Seq<char>>)
    requires
        old.dom().finite(),
        new.dom().finite(),
    ensures
        up_to_date(old, new) <==> old == new,
{
    if up_to_date(old, new) {
        assert(old.dom().subset_of(new.dom()));
        vstd::set_lib::lemma_subset_equality(old.dom(), new.dom());
        assert(old =~= new);
    }
}

/// One name of either index, with its hash in each.
#[derive(Debug)]
pub struct DiffEntry {
    pub filename: String,
    pub old_hash: Option<String>,
    pub new_hash: Option<String>,
}

pub open spec fn lookup(m: Map<Seq<char>, Seq<char>>, k: Seq<char>) -> Option<Seq<char>> {
    if m.dom().contains(k) {
        Some(m[k])
    } else {
        None
    }
}

pub open spec fn opt_view(o: Option<String>) -> Option<Seq<char>> {
    match o {
        Some(s) => Some(s@),
        None => None,
    }
}

pub open spec fn diff_names(d: Seq<DiffEntry>) -> Seq<Seq<char>> {
    d.map_values(|e: DiffEntry| e.filename@)
}

proof fn lemma_same_multiset<A>(a: Seq<A>, b: Seq<A>)
    requires
        a.to_multiset() == b.to_multiset(),
        a.no_duplicates(),
    ensures
        b.no_duplicates(),
        a.to_set() == b.to_set(),
{
    broadcast use vstd::seq_lib::group_to_multiset_ensures;
    broadcast use vstd::multiset::group_multiset_axioms;

    a.lemma_multiset_has_no_duplicates();
    b.lemma_multiset_has_no_duplicates_conv();
    a.to_multiset_ensures();
    b.to_multiset_ensures();
    assert forall|x: A| a.to_set().contains(x) <==> b.to_set().contains(x) by {
        assert(a.contains(x) <==> a.to_multiset().count(x) > 0);
        assert(b.contains(x) <==> b.to_multiset().count(x) > 0);
    }
    assert(a.to_set() =~= b.to_set());
}

fn option_clone(o: Option<&String>) -> (r: Option<String>)
    ensures
        opt_view(r) == match o {
            Some(s) => Some(s@),
            None => None::<Seq<char>>,
        },
{
    match o {
        Some(s) => Some(s.clone()),
        None => None,
    }
}

/// Every name of either index, in sorted order and each once, with its
/// hash in the stored and in the new index.
pub fn index_diff(old: &FileIndex, new: &FileIndex) -> (r: Vec<DiffEntry>)
    requires
        old.wf(),
        new.wf(),
    ensures
        sorted_by(diff_names(r@), le_of(text_order_fn())),
        diff_names(r@).no_duplicates(),
        diff_names(r@).to_set() == old@.dom() + new@.dom(),
        forall|i: int|
            0 <= i < r@.len() ==> opt_view(#[trigger] r@[i].old_hash) == lookup(
                old@,
                r@[i].filename@,
            ) && opt_view(r@[i].new_hash) == lookup(new@, r@[i].filename@),
{
    proof {
        old.lemma_pairs();
        new.lemma_pairs();
        lemma_map_of_dom(old.pairs());
        lemma_map_of_dom(new.pairs());
    }
    let mut names: Vec<String> = Vec::new();
    let mut i: usize = 0;
    while i < old.len()
        invariant
            i <= old.pairs().len(),
            old.wf(),
            distinct_names(old.pairs()),
            views_of(names@) == old.pairs().take(i as int).map_values(
                |p: (Seq<char>, Seq<char>)| p.0,
            ),
        decreases old.pairs().len() - i,
    {
        let e = old.entry(i);
        let name = e.filename.clone();
        let ghost before = views_of(names@);
        names.push(name);
        proof {
            assert(views_of(names@) =~= before.push(name@));
            assert(old.pairs().take(i + 1).map_values(|p: (Seq<char>, Seq<char>)| p.0)
                =~= old.pairs().take(i as int).map_values(|p: (Seq<char>, Seq<char>)| p.0).push(
                old.pairs()[i as int].0,
            ));
        }
        i = i + 1;
    }
    proof {
        assert(old.pairs().take(old.pairs().len() as int) =~= old.pairs());
        let v = views_of(names@);
        assert(v.no_duplicates()) by {
            assert forall|a: int, b: int| 0 <= a < v.len() && 0 <= b < v.len() && a != b implies v[a]
                != v[b] by {
                if a < b {
                    assert(old.pairs()[a].0 != old.pairs()[b].0);
                } else {
                    assert(old.pairs()[b].0 != old.pairs()[a].0);
                }
            }
        }
        assert forall|k: Seq<char>| v.contains(k) <==> old@.dom().contains(k) by {
            if v.contains(k) {
                let j = choose|j: int| 0 <= j < v.len() && v[j] == k;
                assert(old.pairs()[j].0 == k);
            }
            if old@.dom().contains(k) {
                let j = choose|j: int| 0 <= j < old.pairs().len() && old.pairs()[j].0 == k;
                assert(v[j] == k);
            }
        }
    }
    let mut j: usize = 0;
    while j < new.len()
        invariant
            j <= new.pairs().len(),
            old.wf(),
            new.wf(),
            map_of(new.pairs()) == new@,
            views_of(names@).no_duplicates(),
            forall|k: Seq<char>|
                views_of(names@).contains(k) <==> old@.dom().contains(k) || exists|m: int|
                    0 <= m < j && new.pairs()[m].0 == k,
        decreases new.pairs().len() - j,
    {
        let e = new.entry(j);
        if old.get(e.filename.as_str()).is_none() {
            let ghost before = views_of(names@);
            let mut dup = false;
            let mut t: usize = 0;
            while t < names.len()
                invariant
                    t <= names@.len(),
                    before == views_of(names@),
                    dup == exists|m: int| 0 <= m < t && before[m] == e.filename@,
                decreases names@.len() - t,
            {
                let eq = str_equal(names[t].as_str(), e.filename.as_str());
                proof {
                    assert(before[t as int] == names@[t as int]@);
                    let f = e.filename@;
                    assert((exists|m: int| 0 <= m < t + 1 && before[m] == f) <==> ((exists|m: int|
                        0 <= m < t && before[m] == f) || before[t as int] == f)) by {
                        if exists|m: int| 0 <= m < t + 1 && before[m] == f {
                            let m = choose|m: int| 0 <= m < t + 1 && before[m] == f;
                            if m < t {
                                assert(exists|m: int| 0 <= m < t && before[m] == f);
                            }
                        }
                        if before[t as int] == f {
                            assert(0 <= t < t + 1 && before[t as int] == f);
                        }
                        if exists|m: int| 0 <= m < t && before[m] == f {
                            let m = choose|m: int| 0 <= m < t && before[m] == f;
                            assert(0 <= m < t + 1 && before[m] == f);
                        }
                    }
                }
                if eq {
                    dup = true;
                }
                t = t + 1;
            }
            if !dup {
                let name = e.filename.clone();
                names.push(name);
                proof {
                    assert(views_of(names@) =~= before.push(name@));
                    assert forall|k: Seq<char>|
                        views_of(names@).contains(k) <==> old@.dom().contains(k) || exists|m: int|
                            0 <= m < j + 1 && new.pairs()[m].0 == k by {
                        if views_of(names@).contains(k) && k != name@ {
                            let a = choose|a: int| 0 <= a < views_of(names@).len() && views_of(names@)[a] == k;
                            assert(before[a] == k);
                        }
                        if exists|m: int| 0 <= m < j + 1 && new.pairs()[m].0 == k {
                            let m = choose|m: int| 0 <= m < j + 1 && new.pairs()[m].0 == k;
                            if m < j {
                                assert(before.contains(k));
                                let a = choose|a: int| 0 <= a < before.len() && before[a] == k;
                                assert(views_of(names@)[a] == k);
                            } else {
                                assert(views_of(names@)[before.len() as int] == k);
                            }
                        }
                        if old@.dom().contains(k) {
                            assert(before.contains(k));
                            let a = choose|a: int| 0 <= a < before.len() && before[a] == k;
                            assert(views_of(names@)[a] == k);
                        }
                    }
                }
            } else {
                proof {
                    assert forall|k: Seq<char>|
                        views_of(names@).contains(k) <==> old@.dom().contains(k) || exists|m: int|
                            0 <= m < j + 1 && new.pairs()[m].0 == k by {
                        if exists|m: int| 0 <= m < j + 1 && new.pairs()[m].0 == k {
                            let m = choose|m: int| 0 <= m < j + 1 && new.pairs()[m].0 == k;
                            if m == j {
                                let a = choose|a: int| 0 <= a < before.len() && before[a] == e.filename@;
                                assert(before.contains(k));
                            }
                        }
                    }
                }
            }
        } else {
            proof {
                assert forall|k: Seq<char>|
                    views_of(names@).contains(k) <==> old@.dom().contains(k) || exists|m: int|
                        0 <= m < j + 1 && new.pairs()[m].0 == k by {
                    if exists|m: int| 0 <= m < j + 1 && new.pairs()[m].0 == k {
                        let m = choose|m: int| 0 <= m < j + 1 && new.pairs()[m].0 == k;
                        if m == j {
                            assert(old@.dom().contains(k));
                        }
                    }
                }
            }
        }
        j = j + 1;
    }
    let ghost unsorted = views_of(names@);
    proof {
        assert(unsorted.to_set() =~= old@.dom() + new@.dom()) by {
            assert forall|k: Seq<char>| unsorted.to_set().contains(k) <==> (old@.dom() + new@.dom()).contains(k) by {
                if new@.dom().contains(k) {
                    let m = choose|m: int| 0 <= m < new.pairs().len() && new.pairs()[m].0 == k;
                }
            }
        }
    }
    let sorted = sort_by_rank(names);
    proof {
        crate::model::lemma_text_well_ordered();
        crate::order::lemma_le_total(text_order_fn());
        unsorted.lemma_sort_by_ensures(le_of(text_order_fn()));
        lemma_same_multiset(unsorted, views_of(sorted@));
    }
    let mut r: Vec<DiffEntry> = Vec::new();
    let mut k: usize = 0;
    while k < sorted.len()
        invariant
            k <= sorted@.len(),
            old.wf(),
            new.wf(),
            diff_names(r@) == views_of(sorted@).take(k as int),
            forall|i: int|
                0 <= i < r@.len() ==> opt_view(#[trigger] r@[i].old_hash) == lookup(
                    old@,
                    r@[i].filename@,
                ) && opt_view(r@[i].new_hash) == lookup(new@, r@[i].filename@),
        decreases sorted@.len() - k,
    {
        let name = sorted[k].clone();
        let old_hash = option_clone(old.get(name.as_str()));
        let new_hash = option_clone(new.get(name.as_str()));
        let ghost before = diff_names(r@);
        r.push(DiffEntry { filename: name, old_hash, new_hash });
        proof {
            assert(diff_names(r@) =~= before.push(name@));
            assert(views_of(sorted@).take(k + 1) =~= views_of(sorted@).take(k as int).push(
                sorted@[k as int]@,
            ));
        }
        k = k + 1;
    }
    proof {
        assert(views_of(sorted@).take(sorted@.len() as int) =~= views_of(sorted@));
    }
    r
}

/// The text of an index file: one line per name, its hash, two spaces and
/// the name, in the order of the entries.
pub open spec fn index_text(pairs: Seq<(Seq<char>, Seq<char>)>) -> Seq<char> {
    crate::render::join(
        pairs.map_values(|p: (Seq<char>, Seq<char>)| p.1 + "  "@ + p.0),
        "\n"@,
    )
}

/// The text of an index file, as `index_text` states. Each name of the
/// index stands on one line (see `FileIndex::lemma_pairs`).
pub fn gen_index_text(idx: &FileIndex) -> (r: String)
    requires
        idx.wf(),
    ensures
        r@ == index_text(idx.pairs()),
{
    proof {
        idx.lemma_pairs();
    }
    let ghost target = idx.pairs().map_values(|p: (Seq<char>, Seq<char>)| p.1 + "  "@ + p.0);
    let mut lines: Vec<String> = Vec::new();
    let mut i: usize = 0;
    while i < idx.len()
        invariant
            i <= idx.pairs().len(),
            idx.wf(),
            target == idx.pairs().map_values(|p: (Seq<char>, Seq<char>)| p.1 + "  "@ + p.0),
            crate::parse::string_views(lines@) == target.take(i as int),
        decreases idx.pairs().len() - i,
    {
        let e = idx.entry(i);
        let mut line = e.hash.clone();
        line.append("  ");
        line.append(e.filename.as_str());
        let ghost before = crate::parse::string_views(lines@);
        lines.push(line);
        proof {
            assert(crate::parse::string_views(lines@) =~= before.push(line@));
            assert(target.take(i + 1) =~= target.take(i as int).push(target[i as int]));
        }
        i = i + 1;
    }
    proof {
        assert(target.take(idx.pairs().len() as int) =~= target);
    }
    crate::render::join_strings(&lines, "\n")
}

/// The entry that one line of the stored index gives when it is checked:
/// a line of exactly two words, a hash and a name.
pub open spec fn listed_line(line: Seq<char>) -> Option<(Seq<char>, Seq<char>)> {
    let w = words(line);
    if w.len() == 2 {
        Some((w[1], w[0]))
    } else {
        None
    }
}

pub open spec fn listed_pairs(lines: Seq<Seq<char>>) -> Seq<(Seq<char>, Seq<char>)>
    decreases lines.len(),
{
    if lines.len() == 0 {
        Seq::empty()
    } else {
        match listed_line(lines.last()) {
            Some(p) => listed_pairs(lines.drop_last()).push(p),
            None => listed_pairs(lines.drop_last()),
        }
    }
}

/// The files that a stored index lists, in its order: its lines of exactly
/// two words, as (name, hash).
pub fn listed_files(content: &str) -> (r: Vec<IndexEntry>)
    ensures
        entry_pairs(r@) == listed_pairs(split_on(content@, '\n')),
{
    let lines = split_newlines(content);
    let ghost ls = lines@.map_values(|l: String| l@);
    let mut r: Vec<IndexEntry> = Vec::new();
    let mut i: usize = 0;
    proof {
        assert(ls.take(0) =~= Seq::<Seq<char>>::empty());
        assert(entry_pairs(r@) =~= Seq::<(Seq<char>, Seq<char>)>::empty());
    }
    while i < lines.len()
        invariant
            i <= lines@.len(),
            ls == lines@.map_values(|l: String| l@),
            ls == split_on(content@, '\n'),
            entry_pairs(r@) == listed_pairs(ls.take(i as int)),
        decreases lines@.len() - i,
    {
        let w = split_words(lines[i].as_str());
        proof {
            assert(ls.take(i + 1).drop_last() =~= ls.take(i as int));
            assert(ls.take(i + 1).last() == lines@[i as int]@);
        }
        if w.len() == 2 {
            let filename = w[1].clone();
            let hash = w[0].clone();
            proof {
                assert(w@.map_values(|x: String| x@)[0] == w@[0]@);
                assert(w@.map_values(|x: String| x@)[1] == w@[1]@);
            }
            let ghost before = entry_pairs(r@);
            let ghost p = (filename@, hash@);
            r.push(IndexEntry { filename, hash });
            proof {
                assert(entry_pairs(r@) =~= before.push(p));
            }
        }
        i = i + 1;
    }
    proof {
        assert(ls.take(lines@.len() as int) =~= ls);
    }
    r
}

/// The names among `names` that `found` lacks, each once, in the order of
/// their first occurrence.
pub open spec fn missing_names(names: Seq<Seq<char>>, found: Set<Seq<char>>) -> Seq<Seq<char>>
    decreases names.len(),
{
    if names.len() == 0 {
        Seq::empty()
    } else {
        let r = missing_names(names.drop_last(), found);
        if !found.contains(names.last()) && !r.contains(names.last()) {
            r.push(names.last())
        } else {
            r
        }
    }
}

/// The missing names are each once, and are the names that `found` lacks.
pub proof fn lemma_missing_names(names: Seq<Seq<char>>, found: Set<Seq<char>>)
    ensures
        missing_names(names, found).no_duplicates(),
        missing_names(names, found).to_set() == names.to_set().difference(found),
    decreases names.len(),
{
    if names.len() > 0 {
        let q = names.drop_last();
        lemma_missing_names(q, found);
        let r = missing_names(q, found);
        assert(names.to_set() =~= q.to_set().insert(names.last())) by {
            assert forall|x: Seq<char>| names.contains(x) <==> q.contains(x) || x == names.last() by {
                if names.contains(x) {
                    let i = choose|i: int| 0 <= i < names.len() && names[i] == x;
                    if i < names.len() - 1 {
                        assert(q[i] == x);
                    }
                }
                if q.contains(x) {
                    let i = choose|i: int| 0 <= i < q.len() && q[i] == x;
                    assert(names[i] == x);
                }
                if x == names.last() {
                    assert(names[names.len() - 1] == x);
                }
            }
        }
        if !found.contains(names.last()) && !r.contains(names.last()) {
            assert(r.push(names.last()).to_set() =~= r.to_set().insert(names.last())) by {
                assert forall|x: Seq<char>| r.push(names.last()).contains(x) <==> r.contains(x)
                    || x == names.last() by {
                    if r.push(names.last()).contains(x) {
                        let i = choose|i: int| 0 <= i < r.len() + 1 && r.push(names.last())[i] == x;
                        if i < r.len() {
                            assert(r[i] == x);
                        }
                    }
                    if r.contains(x) {
                        let i = choose|i: int| 0 <= i < r.len() && r[i] == x;
                        assert(r.push(names.last())[i] == x);
                    }
                    if x == names.last() {
                        assert(r.push(names.last())[r.len() as int] == x);
                    }
                }
            }
            assert(missing_names(names, found).to_set() =~= names.to_set().difference(found));
        } else {
            if !found.contains(names.last()) {
                assert(r.to_set().contains(names.last()));
            }
            assert(missing_names(names, found).to_set() =~= names.to_set().difference(found));
        }
    }
}

/// The PDF names of the specifications.
pub open spec fn pdf_names(refs: Seq<ReferenceModel>) -> Seq<Seq<char>> {
    refs.map_values(|r: ReferenceModel| pdf_name(r.id))
}

/// The files that the specifications expect and the stored index does not
/// list, as `missing_names` states.
pub fn missing_files(refs: &Vec<Reference>, found: &Vec<String>) -> (r: Vec<String>)
    ensures
        views_of(r@) == missing_names(
            pdf_names(reference_views(refs@)),
            views_of(found@).to_set(),
        ),
{
    let ghost names = pdf_names(reference_views(refs@));
    let ghost fs = views_of(found@).to_set();
    let mut r: Vec<String> = Vec::new();
    let mut i: usize = 0;
    proof {
        assert(names.take(0) =~= Seq::<Seq<char>>::empty());
        assert(views_of(r@) =~= Seq::<Seq<char>>::empty());
    }
    while i < refs.len()
        invariant
            i <= refs@.len(),
            names == pdf_names(reference_views(refs@)),
            fs == views_of(found@).to_set(),
            views_of(r@) == missing_names(names.take(i as int), fs),
        decreases refs@.len() - i,
    {
        let name = pdf_file_name(refs[i].id.as_str());
        proof {
            assert(names.take(i + 1).drop_last() =~= names.take(i as int));
            assert(names.take(i + 1).last() == name@);
        }
        let mut seen = false;
        let mut t: usize = 0;
        while t < found.len()
            invariant
                t <= found@.len(),
                seen == exists|m: int| 0 <= m < t && found@[m]@ == name@,
            decreases found@.len() - t,
        {
            let eq = str_equal(found[t].as_str(), name.as_str());
            proof {
                assert((exists|m: int| 0 <= m < t + 1 && found@[m]@ == name@) <==> ((exists|m: int|
                    0 <= m < t && found@[m]@ == name@) || found@[t as int]@ == name@)) by {
                    if exists|m: int| 0 <= m < t + 1 && found@[m]@ == name@ {
                        let m = choose|m: int| 0 <= m < t + 1 && found@[m]@ == name@;
                        if m < t {
                            assert(exists|m: int| 0 <= m < t && found@[m]@ == name@);
                        }
                    }
                    if found@[t as int]@ == name@ {
                        assert(0 <= t < t + 1 && found@[t as int]@ == name@);
                    }
                    if exists|m: int| 0 <= m < t && found@[m]@ == name@ {
                        let m = choose|m: int| 0 <= m < t && found@[m]@ == name@;
                        assert(0 <= m < t + 1 && found@[m]@ == name@);
                    }
                }
            }
            if eq {
                seen = true;
            }
            t = t + 1;
        }
        proof {
            assert(seen == fs.contains(name@)) by {
                if seen {
                    let m = choose|m: int| 0 <= m < found@.len() && found@[m]@ == name@;
                    assert(views_of(found@)[m] == name@);
                }
                if fs.contains(name@) {
                    let m = choose|m: int| 0 <= m < views_of(found@).len() && views_of(found@)[m] == name@;
                    assert(found@[m]@ == name@);
                }
            }
        }
        let mut listed = false;
        let mut u: usize = 0;
        let ghost cur = views_of(r@);
        while u < r.len()
            invariant
                u <= r@.len(),
                cur == views_of(r@),
                listed == exists|m: int| 0 <= m < u && cur[m] == name@,
            decreases r@.len() - u,
        {
            let eq = str_equal(r[u].as_str(), name.as_str());
            proof {
                assert(cur[u as int] == r@[u as int]@);
                assert((exists|m: int| 0 <= m < u + 1 && cur[m] == name@) <==> ((exists|m: int|
                    0 <= m < u && cur[m] == name@) || cur[u as int] == name@)) by {
                    if exists|m: int| 0 <= m < u + 1 && cur[m] == name@ {
                        let m = choose|m: int| 0 <= m < u + 1 && cur[m] == name@;
                        if m < u {
                            assert(exists|m: int| 0 <= m < u && cur[m] == name@);
                        }
                    }
                    if cur[u as int] == name@ {
                        assert(0 <= u < u + 1 && cur[u as int] == name@);
                    }
                    if exists|m: int| 0 <= m < u && cur[m] == name@ {
                        let m = choose|m: int| 0 <= m < u && cur[m] == name@;
                        assert(0 <= m < u + 1 && cur[m] == name@);
                    }
                }
            }
            if eq {
                listed = true;
            }
            u = u + 1;
        }
        if !seen && !listed {
            let ghost nv = name@;
            r.push(name);
            proof {
                assert(views_of(r@) =~= cur.push(nv));
            }
        }
        i = i + 1;
    }
    proof {
        assert(names.take(refs@.len() as int) =~= names);
    }
    r
}

} // verus!
