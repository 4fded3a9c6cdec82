//! The records of `data.md` and their mathematical models.
use vstd::prelude::*;
use crate::order::{
    Order, chain, int_order, int_order_fn, pair_order, keyed, lex, le_of, well_ordered,
    lemma_lex_well_ordered, lemma_pair_well_ordered, lemma_keyed_well_ordered,
};

verus! {

/// One page of a specification worth jumping to.
#[derive(Debug, Clone, PartialEq, Eq)]
pub struct PdfPageEntry {
    pub page: u64,
    pub description: String,
}

/// Where the PDF of a specification comes from.
#[derive(Debug, Clone, PartialEq, Eq)]
pub enum ReferenceSourceInfo {
    /// A PDF downloaded as it is.
    Pdf { title: String, url: String },
    /// A PDF found at `rel_path` inside a downloaded zip archive.
    Zip { title: String, url: String, rel_path: String },
}

/// One specification of the index: its id, its source and its pages.
#[derive(Debug, Clone, PartialEq, Eq)]
pub struct Reference {
    pub id: String,
    pub source: ReferenceSourceInfo,
    pub entries: Vec<PdfPageEntry>,
}

/// The two flavours of `index.html`: with links to the local PDFs, or without.
#[derive(Clone, Copy, Debug, PartialEq, Eq)]
pub enum IndexHtmlVariant {
    Local,
    Public,
}

/// What was found of one downloaded file.
#[derive(Debug)]
pub struct VerificationResult {
    pub filename: String,
    pub found: bool,
    pub is_pdf: bool,
    pub hash_matched: bool,
}

pub struct EntryModel {
    pub page: u64,
    pub description: Seq<char>,
}

pub enum SourceModel {
    Pdf { title: Seq<char>, url: Seq<char> },
    Zip { title: Seq<char>, url: Seq<char>, rel_path: Seq<char> },
}

pub struct ReferenceModel {
    pub id: Seq<char>,
    pub source: SourceModel,
    pub entries: Seq<EntryModel>,
}

impl View for PdfPageEntry {
    type V = EntryModel;

    open spec fn view(&self) -> EntryModel {
        EntryModel { page: self.page, description: self.description@ }
    }
}

impl View for ReferenceSourceInfo {
    type V = SourceModel;

    open spec fn view(&self) -> SourceModel {
        match self {
            ReferenceSourceInfo::Pdf { title, url } => SourceModel::Pdf { title: title@, url: url@ },
            ReferenceSourceInfo::Zip { title, url, rel_path } => SourceModel::Zip {
                title: title@,
                url: url@,
                rel_path: rel_path@,
            },
        }
    }
}

pub open spec fn entry_views(v: Seq<PdfPageEntry>) -> Seq<EntryModel> {
    v.map_values(|e: PdfPageEntry| e@)
}

impl View for Reference {
    type V = ReferenceModel;

    open spec fn view(&self) -> ReferenceModel {
        ReferenceModel { id: self.id@, source: self.source@, entries: entry_views(self.entries@) }
    }
}

pub open spec fn reference_views(v: Seq<Reference>) -> Seq<ReferenceModel> {
    v.map_values(|r: Reference| r@)
}

/// Characters compared by their code points, as `str` comparison does.
pub open spec fn char_order_fn() -> spec_fn(char, char) -> Order {
    |a: char, b: char| int_order(a as int, b as int)
}

/// Strings compared as Rust compares them.
pub open spec fn text_order_fn() -> spec_fn(Seq<char>, Seq<char>) -> Order {
    |a: Seq<char>, b: Seq<char>| lex(a, b, char_order_fn())
}

pub open spec fn entry_key(e: EntryModel) -> (int, Seq<char>) {
    (e.page as int, e.description)
}

/// Page entries compared by page, then description.
pub open spec fn entry_order_fn() -> spec_fn(EntryModel, EntryModel) -> Order {
    keyed(|e: EntryModel| entry_key(e), pair_order(int_order_fn(), text_order_fn()))
}

pub open spec fn source_key(s: SourceModel) -> (int, (Seq<char>, (Seq<char>, Seq<char>))) {
    match s {
        SourceModel::Pdf { title, url } => (0, (title, (url, Seq::empty()))),
        SourceModel::Zip { title, url, rel_path } => (1, (title, (url, rel_path))),
    }
}

/// Sources compared as the order of their declaration: a PDF before a zip,
/// then field by field.
pub open spec fn source_order_fn() -> spec_fn(SourceModel, SourceModel) -> Order {
    keyed(
        |s: SourceModel| source_key(s),
        pair_order(
            int_order_fn(),
            pair_order(text_order_fn(), pair_order(text_order_fn(), text_order_fn())),
        ),
    )
}

pub open spec fn entries_order_fn() -> spec_fn(Seq<EntryModel>, Seq<EntryModel>) -> Order {
    |a: Seq<EntryModel>, b: Seq<EntryModel>| lex(a, b, entry_order_fn())
}

pub open spec fn reference_key(r: ReferenceModel) -> (Seq<char>, (SourceModel, Seq<EntryModel>)) {
    (r.id, (r.source, r.entries))
}

/// References compared by id, then source, then page entries.
pub open spec fn reference_order_fn() -> spec_fn(ReferenceModel, ReferenceModel) -> Order {
    keyed(
        |r: ReferenceModel| reference_key(r),
        pair_order(text_order_fn(), pair_order(source_order_fn(), entries_order_fn())),
    )
}

pub open spec fn entry_le() -> spec_fn(EntryModel, EntryModel) -> bool {
    le_of(entry_order_fn())
}

pub open spec fn reference_le() -> spec_fn(ReferenceModel, ReferenceModel) -> bool {
    le_of(reference_order_fn())
}

/// The comparisons above, unfolded.
pub proof fn lemma_orders_unfold()
    ensures
        forall|a: Seq<char>, b: Seq<char>| #[trigger] text_order_fn()(a, b) == lex(
            a,
            b,
            char_order_fn(),
        ),
        forall|a: EntryModel, b: EntryModel| #[trigger] entry_order_fn()(a, b) == chain(
            int_order(a.page as int, b.page as int),
            text_order_fn()(a.description, b.description),
        ),
        forall|a: Seq<EntryModel>, b: Seq<EntryModel>| #[trigger] entries_order_fn()(a, b) == lex(
            a,
            b,
            entry_order_fn(),
        ),
        forall|a: SourceModel, b: SourceModel| #[trigger] source_order_fn()(a, b) == chain(
            int_order(source_key(a).0, source_key(b).0),
            chain(
                text_order_fn()(source_key(a).1.0, source_key(b).1.0),
                chain(
                    text_order_fn()(source_key(a).1.1.0, source_key(b).1.1.0),
                    text_order_fn()(source_key(a).1.1.1, source_key(b).1.1.1),
                ),
            ),
        ),
        forall|a: ReferenceModel, b: ReferenceModel| #[trigger] reference_order_fn()(a, b) == chain(
            text_order_fn()(a.id, b.id),
            chain(source_order_fn()(a.source, b.source), entries_order_fn()(a.entries, b.entries)),
        ),
{
}

pub proof fn lemma_text_well_ordered()
    ensures
        well_ordered(text_order_fn()),
{
    let c = char_order_fn();
    assert forall|x: char, y: char| #[trigger] c(x, y) == Order::Equal <==> x == y by {
        if x as int == y as int {
            assert(x == y);
        }
    }
    lemma_lex_well_ordered(c);
    assert(text_order_fn() =~= (|a: Seq<char>, b: Seq<char>| lex(a, b, c)));
}

pub proof fn lemma_entry_well_ordered()
    ensures
        well_ordered(entry_order_fn()),
{
    lemma_text_well_ordered();
    lemma_pair_well_ordered(int_order_fn(), text_order_fn());
    let key = |e: EntryModel| entry_key(e);
    assert forall|a: EntryModel, b: EntryModel| #[trigger] key(a) == #[trigger] key(b) implies a
        == b by {
        assert(a.page as int == b.page as int);
    }
    lemma_keyed_well_ordered(key, pair_order(int_order_fn(), text_order_fn()));
}

pub proof fn lemma_source_well_ordered()
    ensures
        well_ordered(source_order_fn()),
{
    lemma_text_well_ordered();
    let t = text_order_fn();
    lemma_pair_well_ordered(t, t);
    lemma_pair_well_ordered(t, pair_order(t, t));
    lemma_pair_well_ordered(int_order_fn(), pair_order(t, pair_order(t, t)));
    let key = |s: SourceModel| source_key(s);
    assert forall|a: SourceModel, b: SourceModel| #[trigger] key(a) == #[trigger] key(b) implies a
        == b by {
    }
    lemma_keyed_well_ordered(key, pair_order(int_order_fn(), pair_order(t, pair_order(t, t))));
}

pub proof fn lemma_reference_well_ordered()
    ensures
        well_ordered(reference_order_fn()),
{
    lemma_text_well_ordered();
    lemma_source_well_ordered();
    lemma_entry_well_ordered();
    lemma_lex_well_ordered(entry_order_fn());
    assert(entries_order_fn() =~= (|a: Seq<EntryModel>, b: Seq<EntryModel>|
        lex(a, b, entry_order_fn())));
    lemma_pair_well_ordered(source_order_fn(), entries_order_fn());
    lemma_pair_well_ordered(text_order_fn(), pair_order(source_order_fn(), entries_order_fn()));
    let key = |r: ReferenceModel| reference_key(r);
    assert forall|a: ReferenceModel, b: ReferenceModel| #[trigger] key(a) == #[trigger] key(
        b,
    ) implies a == b by {
    }
    lemma_keyed_well_ordered(
        key,
        pair_order(text_order_fn(), pair_order(source_order_fn(), entries_order_fn())),
    );
}

} // verus!
