//! Three-way comparison in specifications, and the laws that make a
//! comparison a total order: what sorting needs.
use vstd::prelude::*;
use vstd::relations::*;

verus! {

/// The outcome of comparing two values.
#[derive(Clone, Copy, Debug, PartialEq, Eq, Structural)]
pub enum Order {
    Less,
    Equal,
    Greater,
}

pub open spec fn flip(o: Order) -> Order {
    match o {
        Order::Less => Order::Greater,
        Order::Equal => Order::Equal,
        Order::Greater => Order::Less,
    }
}

/// The first outcome, unless it is `Equal`: then the second.
pub open spec fn chain(first: Order, second: Order) -> Order {
    if first is Equal {
        second
    } else {
        first
    }
}

/// `f` compares consistently: swapping the arguments flips the outcome,
/// `Equal` means equal, and "not greater" is transitive.
pub open spec fn well_ordered<T>(f: spec_fn(T, T) -> Order) -> bool {
    &&& forall|x: T, y: T| #[trigger] f(y, x) == flip(f(x, y))
    &&& forall|x: T, y: T| #[trigger] f(x, y) == Order::Equal <==> x == y
    &&& forall|x: T, y: T, z: T|
        #[trigger] f(x, y) != Order::Greater && #[trigger] f(y, z) != Order::Greater ==> f(x, z)
            != Order::Greater
}

/// "Not greater" under `f`.
pub open spec fn le_of<T>(f: spec_fn(T, T) -> Order) -> spec_fn(T, T) -> bool {
    |x: T, y: T| f(x, y) != Order::Greater
}

pub proof fn lemma_le_total<T>(f: spec_fn(T, T) -> Order)
    requires
        well_ordered(f),
    ensures
        total_ordering(le_of(f)),
{
    let le = le_of(f);
    assert forall|x: T| #[trigger] le(x, x) by {
        assert(f(x, x) == Order::Equal);
    }
    assert forall|x: T, y: T| #[trigger] le(x, y) && #[trigger] le(y, x) implies x == y by {
        assert(f(y, x) == flip(f(x, y)));
    }
    assert forall|x: T, y: T, z: T| #[trigger] le(x, y) && #[trigger] le(y, z) implies le(x, z) by {
        assert(f(x, y) != Order::Greater && f(y, z) != Order::Greater);
    }
    assert forall|x: T, y: T| #[trigger] le(x, y) || #[trigger] le(y, x) by {
        assert(f(y, x) == flip(f(x, y)));
    }
}

/// Lexicographic comparison of sequences under `f`.
pub open spec fn lex<T>(a: Seq<T>, b: Seq<T>, f: spec_fn(T, T) -> Order) -> Order
    decreases a.len(),
{
    if a.len() == 0 {
        if b.len() == 0 {
            Order::Equal
        } else {
            Order::Less
        }
    } else if b.len() == 0 {
        Order::Greater
    } else {
        chain(f(a[0], b[0]), lex(a.drop_first(), b.drop_first(), f))
    }
}

proof fn lemma_lex_flip<T>(a: Seq<T>, b: Seq<T>, f: spec_fn(T, T) -> Order)
    requires
        well_ordered(f),
    ensures
        lex(b, a, f) == flip(lex(a, b, f)),
    decreases a.len(),
{
    if a.len() > 0 && b.len() > 0 {
        lemma_lex_flip(a.drop_first(), b.drop_first(), f);
        assert(f(b[0], a[0]) == flip(f(a[0], b[0])));
    }
}

proof fn lemma_lex_equal<T>(a: Seq<T>, b: Seq<T>, f: spec_fn(T, T) -> Order)
    requires
        well_ordered(f),
    ensures
        lex(a, b, f) == Order::Equal <==> a == b,
    decreases a.len(),
{
    if a.len() > 0 && b.len() > 0 {
        lemma_lex_equal(a.drop_first(), b.drop_first(), f);
        assert(f(a[0], b[0]) == Order::Equal <==> a[0] == b[0]);
        if a == b {
            assert(a.drop_first() == b.drop_first());
        }
        if lex(a, b, f) == Order::Equal {
            assert(a =~= seq![a[0]] + a.drop_first());
            assert(b =~= seq![b[0]] + b.drop_first());
        }
    } else if a.len() == 0 && b.len() == 0 {
        assert(a =~= b);
    }
}

proof fn lemma_lex_trans<T>(a: Seq<T>, b: Seq<T>, c: Seq<T>, f: spec_fn(T, T) -> Order)
    requires
        well_ordered(f),
        lex(a, b, f) != Order::Greater,
        lex(b, c, f) != Order::Greater,
    ensures
        lex(a, c, f) != Order::Greater,
    decreases a.len(),
{
    if a.len() > 0 && b.len() > 0 && c.len() > 0 {
        let x = f(a[0], b[0]);
        let y = f(b[0], c[0]);
        assert(x != Order::Greater && y != Order::Greater);
        assert(f(a[0], c[0]) != Order::Greater);
        if f(a[0], c[0]) == Order::Equal {
            assert(a[0] == c[0]);
            assert(f(b[0], a[0]) == flip(x));
            assert(x == Order::Equal && y == Order::Equal);
            lemma_lex_trans(a.drop_first(), b.drop_first(), c.drop_first(), f);
        }
    }
}

pub proof fn lemma_lex_well_ordered<T>(f: spec_fn(T, T) -> Order)
    requires
        well_ordered(f),
    ensures
        well_ordered(|a: Seq<T>, b: Seq<T>| lex(a, b, f)),
{
    let g = |a: Seq<T>, b: Seq<T>| lex(a, b, f);
    assert forall|x: Seq<T>, y: Seq<T>| #[trigger] g(y, x) == flip(g(x, y)) by {
        lemma_lex_flip(x, y, f);
    }
    assert forall|x: Seq<T>, y: Seq<T>| #[trigger] g(x, y) == Order::Equal <==> x == y by {
        lemma_lex_equal(x, y, f);
    }
    assert forall|x: Seq<T>, y: Seq<T>, z: Seq<T>|
        #[trigger] g(x, y) != Order::Greater && #[trigger] g(y, z) != Order::Greater implies g(
        x,
        z,
    ) != Order::Greater by {
        lemma_lex_trans(x, y, z, f);
    }
}

/// Comparison of integers.
pub open spec fn int_order(a: int, b: int) -> Order {
    if a < b {
        Order::Less
    } else if a == b {
        Order::Equal
    } else {
        Order::Greater
    }
}

pub open spec fn int_order_fn() -> spec_fn(int, int) -> Order {
    |a: int, b: int| int_order(a, b)
}

/// Comparison of pairs: by the first members, then by the second.
pub open spec fn pair_order<A, B>(f: spec_fn(A, A) -> Order, g: spec_fn(B, B) -> Order) -> spec_fn(
    (A, B),
    (A, B),
) -> Order {
    |p: (A, B), q: (A, B)| chain(f(p.0, q.0), g(p.1, q.1))
}

/// Comparison of values by a key.
pub open spec fn keyed<T, K>(key: spec_fn(T) -> K, f: spec_fn(K, K) -> Order) -> spec_fn(
    T,
    T,
) -> Order {
    |a: T, b: T| f(key(a), key(b))
}

pub proof fn lemma_pair_well_ordered<A, B>(f: spec_fn(A, A) -> Order, g: spec_fn(B, B) -> Order)
    requires
        well_ordered(f),
        well_ordered(g),
    ensures
        well_ordered(pair_order(f, g)),
{
    let h = pair_order(f, g);
    assert forall|x: (A, B), y: (A, B)| #[trigger] h(y, x) == flip(h(x, y)) by {
        assert(f(y.0, x.0) == flip(f(x.0, y.0)));
        assert(g(y.1, x.1) == flip(g(x.1, y.1)));
    }
    assert forall|x: (A, B), y: (A, B)| #[trigger] h(x, y) == Order::Equal <==> x == y by {
        assert(f(x.0, y.0) == Order::Equal <==> x.0 == y.0);
        assert(g(x.1, y.1) == Order::Equal <==> x.1 == y.1);
    }
    assert forall|x: (A, B), y: (A, B), z: (A, B)|
        #[trigger] h(x, y) != Order::Greater && #[trigger] h(y, z) != Order::Greater implies h(
        x,
        z,
    ) != Order::Greater by {
        let x1 = f(x.0, y.0);
        let y1 = f(y.0, z.0);
        assert(x1 != Order::Greater && y1 != Order::Greater);
        assert(f(x.0, z.0) != Order::Greater);
        if f(x.0, z.0) == Order::Equal {
            assert(x.0 == z.0);
            assert(f(y.0, x.0) == flip(x1));
            assert(g(x.1, y.1) != Order::Greater && g(y.1, z.1) != Order::Greater);
        }
    }
}

pub proof fn lemma_keyed_well_ordered<T, K>(key: spec_fn(T) -> K, f: spec_fn(K, K) -> Order)
    requires
        well_ordered(f),
        forall|a: T, b: T| #[trigger] key(a) == #[trigger] key(b) ==> a == b,
    ensures
        well_ordered(keyed(key, f)),
{
    let h = keyed(key, f);
    assert forall|x: T, y: T| #[trigger] h(y, x) == flip(h(x, y)) by {
        assert(f(key(y), key(x)) == flip(f(key(x), key(y))));
    }
    assert forall|x: T, y: T| #[trigger] h(x, y) == Order::Equal <==> x == y by {
        assert(f(key(x), key(y)) == Order::Equal <==> key(x) == key(y));
    }
    assert forall|x: T, y: T, z: T|
        #[trigger] h(x, y) != Order::Greater && #[trigger] h(y, z) != Order::Greater implies h(
        x,
        z,
    ) != Order::Greater by {
        assert(f(key(x), key(y)) != Order::Greater && f(key(y), key(z)) != Order::Greater);
    }
}

} // verus!
