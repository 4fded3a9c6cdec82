//! Comparing and sorting the records of `data.md`, in the order that the
//! declarations of their types give them.
use vstd::prelude::*;
use vstd::relations::{sorted_by, total_ordering};
use vstd::seq_lib::{lemma_multiset_commutative, lemma_sorted_unique};
use crate::model::{
    PdfPageEntry, Reference, ReferenceSourceInfo, EntryModel, ReferenceModel, char_order_fn,
    text_order_fn, entry_order_fn, source_order_fn, entries_order_fn, reference_order_fn,
    entry_views, lemma_entry_well_ordered, lemma_reference_well_ordered, lemma_orders_unfold,
    lemma_text_well_ordered,
};
use crate::order::{Order, int_order, lex, chain, well_ordered, le_of, lemma_le_total, flip};
use crate::text::chars_of;

verus! {

fn compare_u64(a: u64, b: u64) -> (o: Order)
    ensures
        o == int_order(a as int, b as int),
{
    if a < b {
        Order::Less
    } else if a == b {
        Order::Equal
    } else {
        Order::Greater
    }
}

proof fn lemma_lex_step<T>(a: Seq<T>, b: Seq<T>, i: int, f: spec_fn(T, T) -> Order)
    requires
        0 <= i < a.len(),
        i < b.len(),
    ensures
        lex(a.skip(i), b.skip(i), f) == chain(f(a[i], b[i]), lex(a.skip(i + 1), b.skip(i + 1), f)),
{
    assert(a.skip(i).drop_first() =~= a.skip(i + 1));
    assert(b.skip(i).drop_first() =~= b.skip(i + 1));
}

/// Compares two character sequences as Rust compares strings.
pub fn compare_chars(a: &[char], b: &[char]) -> (o: Order)
    ensures
        o == lex(a@, b@, char_order_fn()),
{
    let mut i: usize = 0;
    proof {
        assert(a@.skip(0) =~= a@);
        assert(b@.skip(0) =~= b@);
    }
    while i < a.len() && i < b.len()
        invariant
            i <= a@.len(),
            i <= b@.len(),
            lex(a@, b@, char_order_fn()) == lex(a@.skip(i as int), b@.skip(i as int), char_order_fn()),
        decreases a@.len() - i,
    {
        proof {
            lemma_lex_step(a@, b@, i as int, char_order_fn());
        }
        let x = a[i];
        let y = b[i];
        if x < y {
            return Order::Less;
        } else if x > y {
            return Order::Greater;
        }
        i = i + 1;
    }
    if i < b.len() {
        Order::Less
    } else if i < a.len() {
        Order::Greater
    } else {
        Order::Equal
    }
}

/// Compares two strings as Rust compares them.
pub fn compare_str(a: &str, b: &str) -> (o: Order)
    ensures
        o == text_order_fn()(a@, b@),
{
    proof {
        lemma_orders_unfold();
    }
    let x = chars_of(a);
    let y = chars_of(b);
    compare_chars(x.as_slice(), y.as_slice())
}

/// Compares two page entries: by page, then description.
pub fn compare_entry(a: &PdfPageEntry, b: &PdfPageEntry) -> (o: Order)
    ensures
        o == entry_order_fn()(a@, b@),
{
    proof {
        lemma_orders_unfold();
    }
    let p = compare_u64(a.page, b.page);
    if p != Order::Equal {
        return p;
    }
    compare_str(a.description.as_str(), b.description.as_str())
}

/// Compares two lists of page entries lexicographically.
pub fn compare_entries(a: &Vec<PdfPageEntry>, b: &Vec<PdfPageEntry>) -> (o: Order)
    ensures
        o == entries_order_fn()(entry_views(a@), entry_views(b@)),
{
    proof {
        lemma_orders_unfold();
    }
    let ghost av = entry_views(a@);
    let ghost bv = entry_views(b@);
    let mut i: usize = 0;
    proof {
        assert(av.skip(0) =~= av);
        assert(bv.skip(0) =~= bv);
    }
    while i < a.len() && i < b.len()
        invariant
            i <= a@.len(),
            i <= b@.len(),
            av == entry_views(a@),
            bv == entry_views(b@),
            lex(av, bv, entry_order_fn()) == lex(av.skip(i as int), bv.skip(i as int), entry_order_fn()),
        decreases a@.len() - i,
    {
        proof {
            lemma_lex_step(av, bv, i as int, entry_order_fn());
        }
        let o = compare_entry(&a[i], &b[i]);
        if o != Order::Equal {
            return o;
        }
        i = i + 1;
    }
    if i < b.len() {
        Order::Less
    } else if i < a.len() {
        Order::Greater
    } else {
        Order::Equal
    }
}

/// Compares two sources: a PDF before a zip, then field by field.
pub fn compare_source(a: &ReferenceSourceInfo, b: &ReferenceSourceInfo) -> (o: Order)
    ensures
        o == source_order_fn()(a@, b@),
{
    proof {
        lemma_orders_unfold();
    }
    match (a, b) {
        (
            ReferenceSourceInfo::Pdf { title: t1, url: u1 },
            ReferenceSourceInfo::Pdf { title: t2, url: u2 },
        ) => {
            let o = compare_str(t1.as_str(), t2.as_str());
            if o != Order::Equal {
                return o;
            }
            let o = compare_str(u1.as_str(), u2.as_str());
            proof {
                assert(lex(Seq::<char>::empty(), Seq::<char>::empty(), char_order_fn()) == Order::Equal);
            }
            o
        },
        (ReferenceSourceInfo::Pdf { .. }, ReferenceSourceInfo::Zip { .. }) => Order::Less,
        (ReferenceSourceInfo::Zip { .. }, ReferenceSourceInfo::Pdf { .. }) => Order::Greater,
        (
            ReferenceSourceInfo::Zip { title: t1, url: u1, rel_path: r1 },
            ReferenceSourceInfo::Zip { title: t2, url: u2, rel_path: r2 },
        ) => {
            let o = compare_str(t1.as_str(), t2.as_str());
            if o != Order::Equal {
                return o;
            }
            let o = compare_str(u1.as_str(), u2.as_str());
            if o != Order::Equal {
                return o;
            }
            compare_str(r1.as_str(), r2.as_str())
        },
    }
}

/// Compares two references: by id, then source, then page entries.
pub fn compare_reference(a: &Reference, b: &Reference) -> (o: Order)
    ensures
        o == reference_order_fn()(a@, b@),
{
    proof {
        lemma_orders_unfold();
    }
    let o = compare_str(a.id.as_str(), b.id.as_str());
    if o != Order::Equal {
        return o;
    }
    let o = compare_source(&a.source, &b.source);
    if o != Order::Equal {
        return o;
    }
    compare_entries(&a.entries, &b.entries)
}

/// Values with a total order on their views.
pub trait Ranked: View + Sized {
    spec fn rank() -> spec_fn(Self::V, Self::V) -> Order;

    proof fn lemma_rank_well_ordered()
        ensures
            well_ordered(Self::rank()),
    ;

    fn rank_against(&self, other: &Self) -> (o: Order)
        ensures
            o == Self::rank()(self@, other@),
    ;
}

impl Ranked for PdfPageEntry {
    open spec fn rank() -> spec_fn(EntryModel, EntryModel) -> Order {
        entry_order_fn()
    }

    proof fn lemma_rank_well_ordered() {
        lemma_entry_well_ordered();
    }

    fn rank_against(&self, other: &Self) -> (o: Order) {
        compare_entry(self, other)
    }
}

impl Ranked for Reference {
    open spec fn rank() -> spec_fn(ReferenceModel, ReferenceModel) -> Order {
        reference_order_fn()
    }

    proof fn lemma_rank_well_ordered() {
        lemma_reference_well_ordered();
    }

    fn rank_against(&self, other: &Self) -> (o: Order) {
        compare_reference(self, other)
    }
}

impl Ranked for String {
    open spec fn rank() -> spec_fn(Seq<char>, Seq<char>) -> Order {
        text_order_fn()
    }

    proof fn lemma_rank_well_ordered() {
        lemma_text_well_ordered();
    }

    fn rank_against(&self, other: &Self) -> (o: Order) {
        compare_str(self.as_str(), other.as_str())
    }
}

pub open spec fn views_of<T: View>(s: Seq<T>) -> Seq<T::V> {
    s.map_values(|x: T| x@)
}

proof fn lemma_insert_multiset<A>(s: Seq<A>, p: int, a: A)
    requires
        0 <= p <= s.len(),
    ensures
        s.insert(p, a).to_multiset() == s.to_multiset().insert(a),
{
    broadcast use vstd::seq_lib::group_to_multiset_ensures;
    let l = s.take(p);
    let r = s.skip(p);
    assert(s.insert(p, a) =~= l.push(a) + r);
    assert(s =~= l + r);
    lemma_multiset_commutative(l.push(a), r);
    lemma_multiset_commutative(l, r);
}

/// The values of `v`, ordered by `T::rank()`: the one sequence that is
/// sorted and holds the same views as `v`.
pub fn sort_by_rank<T: Ranked>(v: Vec<T>) -> (r: Vec<T>)
    ensures
        views_of(r@) == views_of(v@).sort_by(le_of(T::rank())),
{
    broadcast use vstd::seq_lib::group_to_multiset_ensures;
    let ghost le = le_of(T::rank());
    proof {
        T::lemma_rank_well_ordered();
        lemma_le_total(T::rank());
    }
    let ghost v0 = views_of(v@);
    let mut rest = v;
    let mut out: Vec<T> = Vec::new();
    proof {
        assert(views_of(out@) =~= Seq::<T::V>::empty());
    }
    while rest.len() > 0
        invariant
            total_ordering(le),
            well_ordered(T::rank()),
            le == le_of(T::rank()),
            sorted_by(views_of(out@), le),
            views_of(out@).to_multiset().add(views_of(rest@).to_multiset()) == v0.to_multiset(),
        decreases rest@.len(),
    {
        let ghost before = rest@;
        let x = rest.pop().unwrap();
        proof {
            assert(views_of(before) =~= views_of(rest@).push(x@));
        }
        let ghost w = views_of(out@);
        let mut p: usize = 0;
        while p < out.len() && x.rank_against(&out[p]) != Order::Less
            invariant
                p <= out@.len(),
                w == views_of(out@),
                well_ordered(T::rank()),
                le == le_of(T::rank()),
                forall|i: int| 0 <= i < p ==> #[trigger] le(w[i], x@),
            decreases out@.len() - p,
        {
            proof {
                assert(T::rank()(w[p as int], x@) == flip(T::rank()(x@, w[p as int])));
            }
            p = p + 1;
        }
        proof {
            lemma_insert_multiset(w, p as int, x@);
        }
        let ghost y = x@;
        out.insert(p, x);
        proof {
            broadcast use vstd::multiset::group_multiset_axioms;
            let n = views_of(out@);
            assert(n =~= w.insert(p as int, y));
            assert(n.to_multiset() == w.to_multiset().insert(y));
            assert(views_of(before).to_multiset() == views_of(rest@).push(y).to_multiset());
            vstd::seq_lib::to_multiset_build(views_of(rest@), y);
            assert(n.to_multiset().add(views_of(rest@).to_multiset()) =~= w.to_multiset().add(
                views_of(before).to_multiset(),
            ));
            assert forall|i: int, j: int| 0 <= i < j < n.len() implies #[trigger] le(n[i], n[j]) by {
                if j < p {
                    assert(n[i] == w[i] && n[j] == w[j]);
                } else if j == p {
                    assert(n[i] == w[i]);
                } else if i == p {
                    assert(n[j] == w[j - 1]);
                    assert(le(y, w[p as int]));
                    if j - 1 > p {
                        assert(le(w[p as int], w[j - 1]));
                    }
                } else if i < p {
                    assert(n[i] == w[i] && n[j] == w[j - 1]);
                    assert(le(y, w[p as int]));
                    assert(le(w[i], y));
                    if j - 1 > p {
                        assert(le(w[p as int], w[j - 1]));
                    }
                    assert(le(y, w[j - 1]));
                } else {
                    assert(n[i] == w[i - 1] && n[j] == w[j - 1]);
                }
            }
        }
    }
    proof {
        broadcast use vstd::multiset::group_multiset_axioms;
        assert(views_of(rest@) =~= Seq::<T::V>::empty());
        assert(views_of(out@).to_multiset() =~= v0.to_multiset());
        v0.lemma_sort_by_ensures(le);
        lemma_sorted_unique(views_of(out@), v0.sort_by(le), le);
    }
    out
}

} // verus!
