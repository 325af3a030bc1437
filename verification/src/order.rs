//! Total orders on keys and the stable order that sorting by a key gives.

use vstd::prelude::*;

verus! {

/// A key that things are sorted by. The order is stated on the key's view.
pub trait Ranked: View + Sized {
    /// Whether the key `a` may stand before the key `b`.
    spec fn at_most(a: Self::V, b: Self::V) -> bool;

    proof fn at_most_is_total(a: Self::V, b: Self::V)
        ensures
            Self::at_most(a, b) || Self::at_most(b, a),
    ;

    proof fn at_most_is_transitive(a: Self::V, b: Self::V, c: Self::V)
        requires
            Self::at_most(a, b),
            Self::at_most(b, c),
        ensures
            Self::at_most(a, c),
    ;

    fn is_at_most(&self, other: &Self) -> (r: bool)
        ensures
            r == Self::at_most(self@, other@),
    ;
}

impl Ranked for u64 {
    open spec fn at_most(a: u64, b: u64) -> bool {
        a <= b
    }

    proof fn at_most_is_total(a: u64, b: u64) {
    }

    proof fn at_most_is_transitive(a: u64, b: u64, c: u64) {
    }

    fn is_at_most(&self, other: &u64) -> (r: bool) {
        *self <= *other
    }
}

/// Pairs are ordered by their first part, and by the second where the first parts are level.
impl<A: Ranked, B: Ranked> Ranked for (A, B) {
    open spec fn at_most(a: (A::V, B::V), b: (A::V, B::V)) -> bool {
        A::at_most(a.0, b.0) && (A::at_most(b.0, a.0) ==> B::at_most(a.1, b.1))
    }

    proof fn at_most_is_total(a: (A::V, B::V), b: (A::V, B::V)) {
        A::at_most_is_total(a.0, b.0);
        B::at_most_is_total(a.1, b.1);
    }

    proof fn at_most_is_transitive(a: (A::V, B::V), b: (A::V, B::V), c: (A::V, B::V)) {
        A::at_most_is_transitive(a.0, b.0, c.0);
        if A::at_most(c.0, a.0) {
            A::at_most_is_transitive(b.0, c.0, a.0);
            A::at_most_is_transitive(c.0, a.0, b.0);
            B::at_most_is_transitive(a.1, b.1, c.1);
        }
    }

    fn is_at_most(&self, other: &(A, B)) -> (r: bool) {
        if !self.0.is_at_most(&other.0) {
            false
        } else if other.0.is_at_most(&self.0) {
            self.1.is_at_most(&other.1)
        } else {
            true
        }
    }
}

/// The views of a sequence of keys.
pub open spec fn views<K: View>(keys: Seq<K>) -> Seq<K::V> {
    Seq::new(keys.len(), |i: int| keys[i]@)
}

/// Whether position `a` comes before position `b` when `keys` is sorted and positions with
/// level keys keep their order.
pub open spec fn comes_before<K: Ranked>(keys: Seq<K::V>, a: int, b: int) -> bool {
    K::at_most(keys[a], keys[b]) && (K::at_most(keys[b], keys[a]) ==> a < b)
}

/// `p` lists every position of `keys` once, in the order of a stable sort by key.
pub open spec fn is_stable_order<K: Ranked>(keys: Seq<K::V>, p: Seq<usize>) -> bool {
    &&& p.len() == keys.len()
    &&& forall|i: int| 0 <= i < p.len() ==> 0 <= #[trigger] p[i] < keys.len()
    &&& forall|i: int, j: int|
        0 <= i < j < p.len() ==> comes_before::<K>(keys, #[trigger] p[i] as int, #[trigger] p[j] as int)
}

/// The order of a stable sort of `keys`.
pub open spec fn stable_order_of<K: Ranked>(keys: Seq<K::V>) -> Seq<usize> {
    choose|p: Seq<usize>| is_stable_order::<K>(keys, p)
}

/// Every position stands in a stable order.
pub proof fn stable_order_is_onto<K: Ranked>(keys: Seq<K::V>, p: Seq<usize>, a: int)
    requires
        is_stable_order::<K>(keys, p),
        0 <= a < keys.len(),
    ensures
        exists|i: int| 0 <= i < p.len() && #[trigger] p[i] == a,
{
    let q = p.map_values(|x: usize| x as int);
    assert(q.no_duplicates()) by {
        assert forall|i: int, j: int| 0 <= i < q.len() && 0 <= j < q.len() && i != j implies q[i]
            != q[j] by {
            if i < j {
                assert(comes_before::<K>(keys, p[i] as int, p[j] as int));
            } else {
                assert(comes_before::<K>(keys, p[j] as int, p[i] as int));
            }
        }
    }
    let all = vstd::set_lib::set_int_range(0, keys.len() as int);
    vstd::set_lib::lemma_int_range(0, keys.len() as int);
    q.unique_seq_to_set();
    assert(q.to_set().subset_of(all)) by {
        assert forall|x: int| q.to_set().contains(x) implies all.contains(x) by {
            let i = choose|i: int| 0 <= i < q.len() && q[i] == x;
            assert(q[i] == p[i] as int);
        }
    }
    vstd::set_lib::lemma_subset_equality(q.to_set(), all);
    assert(all.contains(a));
    assert(q.to_set().contains(a));
    let i = choose|i: int| 0 <= i < q.len() && q[i] == a;
    assert(p[i] == a);
}

/// A stable sort has one result.
pub proof fn stable_order_is_unique<K: Ranked>(keys: Seq<K::V>, p: Seq<usize>, q: Seq<usize>)
    requires
        is_stable_order::<K>(keys, p),
        is_stable_order::<K>(keys, q),
    ensures
        p == q,
{
    assert forall|i: int| 0 <= i < p.len() implies p[i] == q[i] by {
        stable_orders_agree_at::<K>(keys, p, q, i);
    }
    assert(p =~= q);
}

proof fn stable_orders_agree_at<K: Ranked>(
    keys: Seq<K::V>,
    p: Seq<usize>,
    q: Seq<usize>,
    i: int,
)
    requires
        is_stable_order::<K>(keys, p),
        is_stable_order::<K>(keys, q),
        0 <= i < p.len(),
    ensures
        p[i] == q[i],
    decreases i,
{
    assert forall|k: int| 0 <= k < i implies p[k] == q[k] by {
        stable_orders_agree_at::<K>(keys, p, q, k);
    }
    stable_order_is_onto::<K>(keys, q, p[i] as int);
    stable_order_is_onto::<K>(keys, p, q[i] as int);
    let j = choose|j: int| 0 <= j < q.len() && #[trigger] q[j] == p[i];
    let k = choose|k: int| 0 <= k < p.len() && #[trigger] p[k] == q[i];
    if j < i {
        assert(p[j] == q[j]);
        assert(comes_before::<K>(keys, p[j] as int, p[i] as int));
    } else if k < i {
        assert(p[k] == q[k]);
        assert(comes_before::<K>(keys, q[k] as int, q[i] as int));
    } else if j != i {
        assert(comes_before::<K>(keys, q[i] as int, q[j] as int));
        assert(k != i);
        assert(comes_before::<K>(keys, p[i] as int, p[k] as int));
    }
}

/// How many of the sorted positions `p` come before a key that is added last.
spec fn places_before<K: Ranked>(keys: Seq<K::V>, p: Seq<usize>, key: K::V) -> nat
    decreases p.len(),
{
    if p.len() == 0 {
        0
    } else if K::at_most(keys[p.last() as int], key) {
        p.len()
    } else {
        places_before::<K>(keys, p.drop_last(), key)
    }
}

proof fn places_before_splits<K: Ranked>(keys: Seq<K::V>, p: Seq<usize>, key: K::V)
    requires
        forall|i: int, j: int|
            0 <= i < j < p.len() ==> comes_before::<K>(
                keys,
                #[trigger] p[i] as int,
                #[trigger] p[j] as int,
            ),
    ensures
        places_before::<K>(keys, p, key) <= p.len(),
        forall|i: int|
            0 <= i < p.len() ==> (K::at_most(keys[#[trigger] p[i] as int], key) <==> i
                < places_before::<K>(keys, p, key)),
    decreases p.len(),
{
    if p.len() > 0 {
        let last = p.len() - 1;
        if K::at_most(keys[p[last] as int], key) {
            assert forall|i: int| 0 <= i < p.len() implies K::at_most(
                keys[#[trigger] p[i] as int],
                key,
            ) by {
                if i < last {
                    assert(comes_before::<K>(keys, p[i] as int, p[last] as int));
                    K::at_most_is_transitive(
                        keys[p[i] as int],
                        keys[p[last] as int],
                        key,
                    );
                }
            }
        } else {
            let init = p.drop_last();
            assert forall|i: int, j: int| 0 <= i < j < init.len() implies comes_before::<K>(
                keys,
                #[trigger] init[i] as int,
                #[trigger] init[j] as int,
            ) by {
                assert(init[i] == p[i] && init[j] == p[j]);
            }
            places_before_splits::<K>(keys, init, key);
            assert forall|i: int| 0 <= i < p.len() implies (K::at_most(
                keys[#[trigger] p[i] as int],
                key,
            ) <==> i < places_before::<K>(keys, p, key)) by {
                if i < last {
                    assert(init[i] == p[i]);
                }
            }
        }
    }
}

/// Every list of keys can be sorted stably.
pub proof fn stable_order_exists<K: Ranked>(keys: Seq<K::V>)
    requires
        keys.len() <= usize::MAX,
    ensures
        is_stable_order::<K>(keys, stable_order_of::<K>(keys)),
    decreases keys.len(),
{
    if keys.len() == 0 {
        assert(is_stable_order::<K>(keys, Seq::empty()));
    } else {
        let n = keys.len() - 1;
        let init = keys.drop_last();
        stable_order_exists::<K>(init);
        let p = stable_order_of::<K>(init);
        assert forall|i: int, j: int| 0 <= i < j < p.len() implies comes_before::<K>(
            keys,
            #[trigger] p[i] as int,
            #[trigger] p[j] as int,
        ) by {
            assert(comes_before::<K>(init, p[i] as int, p[j] as int));
        }
        let at = places_before::<K>(keys, p, keys[n]) as int;
        places_before_splits::<K>(keys, p, keys[n]);
        let q = p.take(at).push(n as usize) + p.skip(at);
        assert forall|i: int| 0 <= i < q.len() implies 0 <= #[trigger] q[i] < keys.len() by {
            if i < at {
                assert(q[i] == p[i]);
            } else if i > at {
                assert(q[i] == p[i - 1]);
            }
        }
        assert forall|i: int, j: int| 0 <= i < j < q.len() implies comes_before::<K>(
            keys,
            #[trigger] q[i] as int,
            #[trigger] q[j] as int,
        ) by {
            if i < at {
                assert(q[i] == p[i]);
            } else if i > at {
                assert(q[i] == p[i - 1]);
            }
            if j < at {
                assert(q[j] == p[j]);
            } else if j > at {
                assert(q[j] == p[j - 1]);
            }
            if i == at {
                K::at_most_is_total(keys[n], keys[p[j - 1] as int]);
            }
        }
        assert(is_stable_order::<K>(keys, q));
    }
}

/// The positions of `keys` in sorted order; positions with level keys keep their order.
pub fn stable_order<K: Ranked>(keys: &Vec<K>) -> (p: Vec<usize>)
    ensures
        is_stable_order::<K>(views(keys@), p@),
        p@ == stable_order_of::<K>(views(keys@)),
{
    let ghost kv = views(keys@);
    let mut p: Vec<usize> = Vec::new();
    let mut i: usize = 0;
    while i < keys.len()
        invariant
            kv == views(keys@),
            i <= keys.len(),
            is_stable_order::<K>(kv.take(i as int), p@),
        decreases keys.len() - i,
    {
        let mut lo: usize = 0;
        let mut hi: usize = p.len();
        while lo < hi
            invariant
                kv == views(keys@),
                i < keys.len(),
                is_stable_order::<K>(kv.take(i as int), p@),
                lo <= hi <= p.len(),
                forall|j: int| 0 <= j < lo ==> K::at_most(kv[#[trigger] p[j] as int], kv[i as int]),
                forall|j: int|
                    hi <= j < p.len() ==> !K::at_most(kv[#[trigger] p[j] as int], kv[i as int]),
            decreases hi - lo,
        {
            let mid: usize = lo + (hi - lo) / 2;
            assert(p@[mid as int] < i);
            let e: usize = p[mid];
            if keys[e].is_at_most(&keys[i]) {
                proof {
                    assert forall|j: int| 0 <= j < mid + 1 implies K::at_most(
                        kv[#[trigger] p[j] as int],
                        kv[i as int],
                    ) by {
                        if j < mid {
                            assert(comes_before::<K>(kv.take(i as int), p[j] as int, e as int));
                            K::at_most_is_transitive(kv[p[j] as int], kv[e as int], kv[i as int]);
                        }
                    }
                }
                lo = mid + 1;
            } else {
                proof {
                    assert forall|j: int| mid <= j < p.len() implies !K::at_most(
                        kv[#[trigger] p[j] as int],
                        kv[i as int],
                    ) by {
                        if j > mid && K::at_most(kv[p[j] as int], kv[i as int]) {
                            assert(comes_before::<K>(kv.take(i as int), e as int, p[j] as int));
                            K::at_most_is_transitive(kv[e as int], kv[p[j] as int], kv[i as int]);
                        }
                    }
                }
                hi = mid;
            }
        }
        let ghost before = p@;
        p.insert(lo, i);
        proof {
            let next = kv.take(i + 1);
            assert(p@ == before.insert(lo as int, i));
            assert forall|a: int, b: int| 0 <= a < b < p.len() implies comes_before::<K>(
                next,
                #[trigger] p@[a] as int,
                #[trigger] p@[b] as int,
            ) by {
                let oa = if a < lo { a } else { a - 1 };
                let ob = if b < lo { b } else { b - 1 };
                if a == lo {
                    assert(p@[b] == before[ob]);
                    assert(!K::at_most(kv[before[ob] as int], kv[i as int]));
                    K::at_most_is_total(kv[before[ob] as int], kv[i as int]);
                } else if b == lo {
                    assert(p@[a] == before[oa]);
                    assert(K::at_most(kv[before[oa] as int], kv[i as int]));
                } else {
                    assert(p@[a] == before[oa]);
                    assert(p@[b] == before[ob]);
                    assert(comes_before::<K>(
                        kv.take(i as int),
                        before[oa] as int,
                        before[ob] as int,
                    ));
                }
            }
            assert forall|a: int| 0 <= a < p.len() implies 0 <= #[trigger] p@[a] < next.len() by {
                let oa = if a < lo { a } else { a - 1 };
                if a != lo {
                    assert(p@[a] == before[oa]);
                }
            }
        }
        i = i + 1;
    }
    proof {
        assert(kv.take(i as int) =~= kv);
        stable_order_is_unique::<K>(kv, p@, stable_order_of::<K>(kv));
    }
    p
}

/// Sorting puts no key before one that should come first, keeps level keys in their order, and
/// leaves no position out.
pub proof fn sorting_is_stable<K: Ranked>(keys: Seq<K::V>, i: int, j: int)
    requires
        keys.len() <= usize::MAX,
        0 <= i < j < keys.len(),
    ensures
        ({
            let p = stable_order_of::<K>(keys);
            &&& p.len() == keys.len()
            &&& 0 <= p[i] < keys.len()
            &&& 0 <= p[j] < keys.len()
            &&& p[i] != p[j]
            &&& K::at_most(keys[p[i] as int], keys[p[j] as int])
            &&& K::at_most(keys[p[j] as int], keys[p[i] as int]) ==> p[i] < p[j]
            &&& exists|k: int| 0 <= k < p.len() && #[trigger] p[k] == i
        }),
{
    let p = stable_order_of::<K>(keys);
    stable_order_exists::<K>(keys);
    assert(comes_before::<K>(keys, p[i] as int, p[j] as int));
    stable_order_is_onto::<K>(keys, p, i);
}

/// Pairs are ordered by their first parts, and where those are the same by their second.
pub proof fn pairs_are_ordered_by_first<B: Ranked>(m: u64, n: u64, a: B::V, b: B::V)
    ensures
        m < n ==> <(u64, B)>::at_most((m, a), (n, b)) && !<(u64, B)>::at_most((n, b), (m, a)),
        <(u64, B)>::at_most((m, a), (m, b)) == B::at_most(a, b),
        u64::at_most(m, n) == (m <= n),
{
}

/// The views of a list are those of its elements, in order.
pub proof fn views_are_of_the_elements<K: View>(keys: Seq<K>, i: int)
    requires
        0 <= i < keys.len(),
    ensures
        views(keys).len() == keys.len(),
        views(keys)[i] == keys[i]@,
{
}

} // verus!
