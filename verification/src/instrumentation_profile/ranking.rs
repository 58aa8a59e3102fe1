//! Putting values in rank order: a total order that each ranked type brings
//! with it, and a merge sort that is proved to produce it.

use vstd::prelude::*;
use vstd::relations::{sorted_by, total_ordering};
use vstd::seq_lib::{lemma_multiset_commutative, lemma_sorted_unique};

verus! {

/// A type with a total order by which its values are ranked.
pub trait Ranked: Copy {
    /// Whether `self` comes no later than `other` in rank order.
    spec fn precedes(self, other: Self) -> bool;

    proof fn lemma_total(a: Self, b: Self)
        ensures
            a.precedes(b) || b.precedes(a),
    ;

    proof fn lemma_transitive(a: Self, b: Self, c: Self)
        requires
            a.precedes(b),
            b.precedes(c),
        ensures
            a.precedes(c),
    ;

    proof fn lemma_antisymmetric(a: Self, b: Self)
        requires
            a.precedes(b),
            b.precedes(a),
        ensures
            a == b,
    ;

    fn comes_before(&self, other: &Self) -> (r: bool)
        ensures
            r == self.precedes(*other),
    ;
}

/// Counters rank from the smallest to the largest.
impl Ranked for u64 {
    open spec fn precedes(self, other: Self) -> bool {
        self <= other
    }

    proof fn lemma_total(a: Self, b: Self) {
    }

    proof fn lemma_transitive(a: Self, b: Self, c: Self) {
    }

    proof fn lemma_antisymmetric(a: Self, b: Self) {
    }

    fn comes_before(&self, other: &Self) -> (r: bool) {
        *self <= *other
    }
}

/// The rank order of a type as a relation.
pub open spec fn rank_order<T: Ranked>() -> spec_fn(T, T) -> bool {
    |a: T, b: T| a.precedes(b)
}

/// Whether a sequence is in rank order.
pub open spec fn in_rank_order<T: Ranked>(s: Seq<T>) -> bool {
    forall|i: int, j: int| 0 <= i < j < s.len() ==> (#[trigger] s[i]).precedes(#[trigger] s[j])
}

/// The values of a sequence in rank order.
pub open spec fn ranked<T: Ranked>(s: Seq<T>) -> Seq<T> {
    s.sort_by(rank_order::<T>())
}

/// The rank order of every ranked type is a total order.
pub proof fn lemma_rank_order_is_total<T: Ranked>()
    ensures
        total_ordering(rank_order::<T>()),
{
    let r = rank_order::<T>();
    assert forall|x: T| #[trigger] r(x, x) by {
        T::lemma_total(x, x);
    }
    assert forall|x: T, y: T| #[trigger] r(x, y) && #[trigger] r(y, x) implies x == y by {
        T::lemma_antisymmetric(x, y);
    }
    assert forall|x: T, y: T, z: T| #[trigger] r(x, y) && #[trigger] r(y, z) implies r(x, z) by {
        T::lemma_transitive(x, y, z);
    }
    assert forall|x: T, y: T| #[trigger] r(x, y) || #[trigger] r(y, x) by {
        T::lemma_total(x, y);
    }
}

/// `ranked(s)` is in rank order and holds the values of `s`, each as often as
/// `s` does.
pub proof fn lemma_ranked_properties<T: Ranked>(s: Seq<T>)
    ensures
        in_rank_order(ranked(s)),
        ranked(s).to_multiset() == s.to_multiset(),
        ranked(s).len() == s.len(),
{
    lemma_rank_order_is_total::<T>();
    s.lemma_sort_by_ensures(rank_order::<T>());
    let out = ranked(s);
    assert(in_rank_order(out)) by {
        assert forall|i: int, j: int| 0 <= i < j < out.len() implies (#[trigger] out[i]).precedes(
            #[trigger] out[j],
        ) by {
            assert(rank_order::<T>()(out[i], out[j]));
        }
    }
    out.to_multiset_ensures();
    s.to_multiset_ensures();
}

/// A sequence in rank order that holds the values of `s` is `ranked(s)`.
pub proof fn lemma_ranked_is_unique<T: Ranked>(s: Seq<T>, out: Seq<T>)
    requires
        in_rank_order(out),
        out.to_multiset() == s.to_multiset(),
    ensures
        out == ranked(s),
{
    lemma_rank_order_is_total::<T>();
    lemma_ranked_properties(s);
    let r = rank_order::<T>();
    assert(sorted_by(out, r)) by {
        assert forall|i: int, j: int| 0 <= i < j < out.len() implies #[trigger] r(
            out[i],
            out[j],
        ) by {
            assert(out[i].precedes(out[j]));
        }
    }
    s.lemma_sort_by_ensures(r);
    lemma_sorted_unique(out, ranked(s), r);
}

/// Merges two runs that are in rank order into one.
fn merge_runs<T: Ranked>(a: &Vec<T>, b: &Vec<T>) -> (out: Vec<T>)
    requires
        in_rank_order(a@),
        in_rank_order(b@),
    ensures
        in_rank_order(out@),
        out@.to_multiset() == a@.to_multiset().add(b@.to_multiset()),
{
    broadcast use vstd::seq_lib::group_to_multiset_ensures;
    broadcast use vstd::multiset::group_multiset_axioms;

    let mut out: Vec<T> = Vec::new();
    let mut i: usize = 0;
    let mut j: usize = 0;
    proof {
        assert(a@.take(0) =~= Seq::<T>::empty());
        assert(b@.take(0) =~= Seq::<T>::empty());
        assert(out@ =~= Seq::<T>::empty());
        assert(Seq::<T>::empty().to_multiset().len() == 0);
        assert(out@.to_multiset() =~= a@.take(0).to_multiset().add(b@.take(0).to_multiset()));
    }
    while i < a.len() || j < b.len()
        invariant
            i <= a.len(),
            j <= b.len(),
            in_rank_order(a@),
            in_rank_order(b@),
            in_rank_order(out@),
            out@.to_multiset() == a@.take(i as int).to_multiset().add(
                b@.take(j as int).to_multiset(),
            ),
            forall|k: int, m: int|
                0 <= k < out@.len() && i <= m < a@.len() ==> (#[trigger] out@[k]).precedes(
                    #[trigger] a@[m],
                ),
            forall|k: int, m: int|
                0 <= k < out@.len() && j <= m < b@.len() ==> (#[trigger] out@[k]).precedes(
                    #[trigger] b@[m],
                ),
        decreases (a.len() - i) + (b.len() - j),
    {
        let from_a: bool = if i >= a.len() {
            false
        } else if j >= b.len() {
            true
        } else {
            a[i].comes_before(&b[j])
        };
        let ghost before = out@;
        if from_a {
            let x: T = a[i];
            proof {
                assert(a@.take(i + 1) =~= a@.take(i as int).push(x));
                vstd::seq_lib::to_multiset_build(a@.take(i as int), x);
                vstd::seq_lib::to_multiset_build(before, x);
                assert forall|m: int| i + 1 <= m < a@.len() implies x.precedes(#[trigger] a@[m]) by {
                    assert(a@[i as int].precedes(a@[m]));
                }
                assert forall|m: int| j <= m < b@.len() implies x.precedes(#[trigger] b@[m]) by {
                    if m > j {
                        assert(b@[j as int].precedes(b@[m]));
                        T::lemma_transitive(x, b@[j as int], b@[m]);
                    }
                }
            }
            out.push(x);
            i = i + 1;
            proof {
                assert(out@.to_multiset() =~= a@.take(i as int).to_multiset().add(
                    b@.take(j as int).to_multiset(),
                ));
            }
        } else {
            let x: T = b[j];
            proof {
                assert(b@.take(j + 1) =~= b@.take(j as int).push(x));
                vstd::seq_lib::to_multiset_build(b@.take(j as int), x);
                vstd::seq_lib::to_multiset_build(before, x);
                assert forall|m: int| j + 1 <= m < b@.len() implies x.precedes(#[trigger] b@[m]) by {
                    assert(b@[j as int].precedes(b@[m]));
                }
                if i < a@.len() {
                    T::lemma_total(a@[i as int], x);
                }
                assert forall|m: int| i <= m < a@.len() implies x.precedes(#[trigger] a@[m]) by {
                    if m > i {
                        assert(a@[i as int].precedes(a@[m]));
                        T::lemma_transitive(x, a@[i as int], a@[m]);
                    }
                }
            }
            out.push(x);
            j = j + 1;
            proof {
                assert(out@.to_multiset() =~= a@.take(i as int).to_multiset().add(
                    b@.take(j as int).to_multiset(),
                ));
            }
        }
    }
    proof {
        assert(a@.take(i as int) =~= a@);
        assert(b@.take(j as int) =~= b@);
    }
    out
}

/// Sorts the part of `v` from `lo` up to `hi`.
fn sort_range<T: Ranked>(v: &Vec<T>, lo: usize, hi: usize) -> (out: Vec<T>)
    requires
        lo <= hi <= v@.len(),
    ensures
        in_rank_order(out@),
        out@.to_multiset() == v@.subrange(lo as int, hi as int).to_multiset(),
    decreases hi - lo,
{
    if hi - lo == 0 {
        let out: Vec<T> = Vec::new();
        proof {
            assert(v@.subrange(lo as int, hi as int) =~= Seq::<T>::empty());
        }
        out
    } else if hi - lo == 1 {
        let mut out: Vec<T> = Vec::new();
        out.push(v[lo]);
        proof {
            assert(v@.subrange(lo as int, hi as int) =~= out@);
        }
        out
    } else {
        let mid: usize = lo + (hi - lo) / 2;
        let left: Vec<T> = sort_range(v, lo, mid);
        let right: Vec<T> = sort_range(v, mid, hi);
        proof {
            let l = v@.subrange(lo as int, mid as int);
            let r = v@.subrange(mid as int, hi as int);
            assert(v@.subrange(lo as int, hi as int) =~= l + r);
            lemma_multiset_commutative(l, r);
        }
        merge_runs(&left, &right)
    }
}

/// The values of `v` in rank order.
pub fn sort_ranked<T: Ranked>(v: &Vec<T>) -> (out: Vec<T>)
    ensures
        out@ == ranked(v@),
        in_rank_order(out@),
        out@.to_multiset() == v@.to_multiset(),
        out@.len() == v@.len(),
{
    let out: Vec<T> = sort_range(v, 0, v.len());
    proof {
        assert(v@.subrange(0, v@.len() as int) =~= v@);
        lemma_ranked_is_unique(v@, out@);
        lemma_ranked_properties(v@);
    }
    out
}

} // verus!
