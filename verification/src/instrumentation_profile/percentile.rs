//! The cutoff table of a detailed summary: for a share of the total count
//! mass, the counter value at which the hottest counters that make up that
//! share begin.

use super::ranking::{in_rank_order, sort_ranked, Ranked};
use vstd::prelude::*;

verus! {

/// The scale of a cutoff: a cutoff is a share in parts per million.
pub const CUTOFF_SCALE: u32 = 1_000_000;

/// The sum of the counts of `s` that are at least `t`.
pub open spec fn mass_at_or_above(s: Seq<u64>, t: u64) -> nat
    decreases s.len(),
{
    if s.len() == 0 {
        0
    } else {
        mass_at_or_above(s.drop_last(), t) + if s.last() >= t {
            s.last() as nat
        } else {
            0
        }
    }
}

/// The number of the counts of `s` that are at least `t`.
pub open spec fn num_at_or_above(s: Seq<u64>, t: u64) -> nat
    decreases s.len(),
{
    if s.len() == 0 {
        0
    } else {
        num_at_or_above(s.drop_last(), t) + if s.last() >= t {
            1nat
        } else {
            0
        }
    }
}

/// The sum of all counts of `s`.
pub open spec fn total_mass(s: Seq<u64>) -> nat {
    mass_at_or_above(s, 0)
}

/// Whether the counts of `s` that are at least `t` make up at least the share
/// `cutoff` of the total mass.
pub open spec fn reaches(s: Seq<u64>, cutoff: u32, t: u64) -> bool {
    mass_at_or_above(s, t) * 1_000_000 >= cutoff * total_mass(s)
}

/// Whether `t` is the threshold of `s` for a cutoff: the largest count of `s`
/// at and above which the counts reach the cutoff, or, if no count does, the
/// least count of `s`.
pub open spec fn is_threshold(s: Seq<u64>, cutoff: u32, t: u64) -> bool {
    &&& s.contains(t)
    &&& (reaches(s, cutoff, t) || forall|i: int| 0 <= i < s.len() ==> t <= #[trigger] s[i])
    &&& forall|i: int| 0 <= i < s.len() && #[trigger] s[i] > t ==> !reaches(s, cutoff, s[i])
}

/// One line of a cutoff table.
#[derive(Debug, Clone, Copy, PartialEq, Eq)]
pub struct CutoffEntry {
    /// The share asked for, in parts per million.
    pub cutoff: u32,
    /// The threshold: the least count among the hottest counts that reach
    /// the share.
    pub min_count: u64,
    /// How many counts are at or above the threshold.
    pub num_counts: usize,
    /// The sum of the counts at or above the threshold.
    pub cumulative_count: u128,
}

/// Whether `e` is the line of the cutoff table of `s` for `cutoff`. Without
/// counts the line holds zeros.
pub open spec fn is_cutoff_entry(s: Seq<u64>, cutoff: u32, e: CutoffEntry) -> bool {
    &&& e.cutoff == cutoff
    &&& if s.len() == 0 {
        e.min_count == 0 && e.num_counts == 0 && e.cumulative_count == 0
    } else {
        &&& is_threshold(s, cutoff, e.min_count)
        &&& e.num_counts == num_at_or_above(s, e.min_count)
        &&& e.cumulative_count == mass_at_or_above(s, e.min_count)
    }
}

/// The mass at and above a threshold does not grow with the threshold, and
/// no count of `s` is counted more than once.
pub proof fn lemma_mass_bounds(s: Seq<u64>, t: u64, u: u64)
    requires
        t <= u,
    ensures
        mass_at_or_above(s, u) <= mass_at_or_above(s, t),
        num_at_or_above(s, u) <= num_at_or_above(s, t) <= s.len(),
        mass_at_or_above(s, t) <= s.len() * 0xFFFF_FFFF_FFFF_FFFF,
    decreases s.len(),
{
    if s.len() > 0 {
        lemma_mass_bounds(s.drop_last(), t, u);
        assert((s.len() - 1) * 0xFFFF_FFFF_FFFF_FFFF + 0xFFFF_FFFF_FFFF_FFFF == s.len()
            * 0xFFFF_FFFF_FFFF_FFFF) by (nonlinear_arith);
    }
}

/// Of two thresholds of one cutoff the first is not below the second.
proof fn lemma_threshold_not_below(s: Seq<u64>, cutoff: u32, t: u64, u: u64)
    requires
        is_threshold(s, cutoff, t),
        is_threshold(s, cutoff, u),
    ensures
        t >= u,
{
    if t < u {
        let i = choose|i: int| 0 <= i < s.len() && s[i] == u;
        let j = choose|j: int| 0 <= j < s.len() && s[j] == t;
        assert(s[i] > t);
        assert(!reaches(s, cutoff, u));
        assert(u <= s[j]);
    }
}

/// A cutoff has one threshold, so the cutoff table has one line for it.
pub proof fn lemma_cutoff_entry_is_unique(s: Seq<u64>, cutoff: u32, a: CutoffEntry, b: CutoffEntry)
    requires
        is_cutoff_entry(s, cutoff, a),
        is_cutoff_entry(s, cutoff, b),
    ensures
        a == b,
{
    if s.len() > 0 {
        lemma_threshold_not_below(s, cutoff, a.min_count, b.min_count);
        lemma_threshold_not_below(s, cutoff, b.min_count, a.min_count);
    }
}

/// Taking one count out of a sequence takes its share out of the mass.
proof fn lemma_mass_remove(s: Seq<u64>, i: int, t: u64)
    requires
        0 <= i < s.len(),
    ensures
        mass_at_or_above(s, t) == mass_at_or_above(s.remove(i), t) + if s[i] >= t {
            s[i] as nat
        } else {
            0
        },
        num_at_or_above(s, t) == num_at_or_above(s.remove(i), t) + if s[i] >= t {
            1nat
        } else {
            0
        },
    decreases s.len(),
{
    if i == s.len() - 1 {
        assert(s.remove(i) =~= s.drop_last());
    } else {
        assert(s.remove(i).drop_last() =~= s.drop_last().remove(i));
        assert(s.remove(i).last() == s.last());
        lemma_mass_remove(s.drop_last(), i, t);
    }
}

/// The mass and the number of counts at and above a threshold depend only on
/// how often each count occurs, not on the order of the counts.
pub proof fn lemma_mass_of_permutation(a: Seq<u64>, b: Seq<u64>, t: u64)
    requires
        a.to_multiset() == b.to_multiset(),
    ensures
        mass_at_or_above(a, t) == mass_at_or_above(b, t),
        num_at_or_above(a, t) == num_at_or_above(b, t),
    decreases a.len(),
{
    broadcast use vstd::seq_lib::group_to_multiset_ensures;

    a.to_multiset_ensures();
    b.to_multiset_ensures();
    if a.len() == 0 {
        assert(b.len() == 0);
    } else {
        let x = a.last();
        assert(a[a.len() - 1] == x);
        assert(a.to_multiset().count(x) > 0);
        assert(b.contains(x));
        let j = choose|j: int| 0 <= j < b.len() && b[j] == x;
        vstd::seq_lib::to_multiset_remove(b, j);
        vstd::seq_lib::to_multiset_remove(a, a.len() - 1);
        assert(a.remove(a.len() - 1) =~= a.drop_last());
        lemma_mass_of_permutation(a.drop_last(), b.remove(j), t);
        lemma_mass_remove(b, j, t);
    }
}

/// In a sequence that is split at `k` into the counts below `t` and the
/// counts at or above it, the mass at or above `t` is the mass of the whole
/// without the mass of the first `k` counts.
proof fn lemma_mass_above_boundary(a: Seq<u64>, t: u64, k: int)
    requires
        0 <= k <= a.len(),
        forall|i: int| 0 <= i < k ==> #[trigger] a[i] < t,
        forall|i: int| k <= i < a.len() ==> #[trigger] a[i] >= t,
    ensures
        mass_at_or_above(a, t) + total_mass(a.take(k)) == total_mass(a),
        num_at_or_above(a, t) == a.len() - k,
    decreases a.len(),
{
    if a.len() == 0 {
        assert(a.take(k) =~= a);
    } else {
        let d = a.drop_last();
        if k == a.len() {
            assert(a.take(k) =~= a);
            assert(d.take(k - 1) =~= d);
            lemma_mass_above_boundary(d, t, k - 1);
        } else {
            assert(d.take(k) =~= a.take(k));
            lemma_mass_above_boundary(d, t, k);
        }
    }
}

/// The line of a cutoff table is the same for two sequences that hold the
/// same counts, each as often.
proof fn lemma_cutoff_entry_of_permutation(a: Seq<u64>, b: Seq<u64>, cutoff: u32, e: CutoffEntry)
    requires
        a.to_multiset() == b.to_multiset(),
        is_cutoff_entry(a, cutoff, e),
    ensures
        is_cutoff_entry(b, cutoff, e),
{
    broadcast use vstd::seq_lib::group_to_multiset_ensures;

    a.to_multiset_ensures();
    b.to_multiset_ensures();
    if a.len() > 0 {
        let t = e.min_count;
        lemma_mass_of_permutation(a, b, t);
        lemma_mass_of_permutation(a, b, 0);
        assert(a.to_multiset().count(t) > 0);
        assert(b.contains(t));
        assert forall|i: int| 0 <= i < b.len() && #[trigger] b[i] > t implies !reaches(
            b,
            cutoff,
            b[i],
        ) by {
            assert(b.to_multiset().count(b[i]) > 0);
            assert(a.contains(b[i]));
            let j = choose|j: int| 0 <= j < a.len() && a[j] == b[i];
            assert(a[j] > t);
            lemma_mass_of_permutation(a, b, b[i]);
        }
        if !reaches(b, cutoff, t) {
            assert forall|i: int| 0 <= i < b.len() implies t <= #[trigger] b[i] by {
                assert(b.to_multiset().count(b[i]) > 0);
                assert(a.contains(b[i]));
                let j = choose|j: int| 0 <= j < a.len() && a[j] == b[i];
                assert(t <= a[j]);
            }
        }
    }
}

/// The largest total mass that the counts of a vector can have.
pub open spec fn mass_limit() -> nat {
    0xFFFF_FFFF_FFFF_FFFF * 0xFFFF_FFFF_FFFF_FFFF
}

/// Whether `hot` of a total of `total` is at least the share `cutoff`.
fn reaches_share(hot: u128, total: u128, cutoff: u32) -> (r: bool)
    requires
        hot <= total <= mass_limit(),
    ensures
        r == (hot * 1_000_000 >= cutoff * total),
{
    if total == 0 {
        true
    } else if cutoff > CUTOFF_SCALE {
        proof {
            assert(hot * 1_000_000 < cutoff * total) by (nonlinear_arith)
                requires
                    hot <= total,
                    total > 0,
                    cutoff > 1_000_000,
            ;
        }
        false
    } else {
        let scale: u128 = 1_000_000;
        let share: u128 = cutoff as u128;
        let q: u128 = total / scale;
        let r: u128 = total % scale;
        proof {
            assert(share * q <= total) by (nonlinear_arith)
                requires
                    share <= 1_000_000,
                    q == total / 1_000_000,
            ;
            assert(share * r <= 1_000_000 * 1_000_000) by (nonlinear_arith)
                requires
                    share <= 1_000_000,
                    r < 1_000_000,
            ;
        }
        let whole: u128 = share * q;
        let part: u128 = (share * r + (scale - 1)) / scale;
        proof {
            let x: int = share * r;
            let p: int = part as int;
            assert(total == q * 1_000_000 + r) by (nonlinear_arith)
                requires
                    q == total / 1_000_000,
                    r == total % 1_000_000,
            ;
            assert(p * 1_000_000 >= x && (p - 1) * 1_000_000 < x) by (nonlinear_arith)
                requires
                    p == (x + 999_999) / 1_000_000,
                    x >= 0,
            ;
            assert(cutoff * total == whole * 1_000_000 + x) by (nonlinear_arith)
                requires
                    total == q * 1_000_000 + r,
                    whole == share * q,
                    x == share * r,
                    share == cutoff,
            ;
            assert((hot * 1_000_000 >= whole * 1_000_000 + x) == (hot >= whole + p))
                by (nonlinear_arith)
                requires
                    p * 1_000_000 >= x,
                    (p - 1) * 1_000_000 < x,
            ;
        }
        hot >= whole + part
    }
}

/// The line of the cutoff table for one cutoff, from the counts in
/// increasing order and their sum.
fn cutoff_entry_of_sorted(sorted: &Vec<u64>, total: u128, cutoff: u32) -> (e: CutoffEntry)
    requires
        sorted@.len() > 0,
        in_rank_order(sorted@),
        total == total_mass(sorted@),
    ensures
        is_cutoff_entry(sorted@, cutoff, e),
{
    let n: usize = sorted.len();
    let ghost s = sorted@;
    proof {
        lemma_mass_bounds(s, 0, 0);
        assert(s.len() * 0xFFFF_FFFF_FFFF_FFFF <= mass_limit()) by (nonlinear_arith)
            requires
                s.len() <= 0xFFFF_FFFF_FFFF_FFFF,
        ;
        assert(s.take(n as int) =~= s);
    }
    let mut k: usize = n;
    let mut below: u128 = total;
    loop
        invariant
            s == sorted@,
            n == s.len(),
            0 < k <= n,
            in_rank_order(s),
            total == total_mass(s),
            total <= mass_limit(),
            below == total_mass(s.take(k as int)),
            k == n || s[k - 1] < s[k as int],
            forall|i: int| k <= i < n ==> !reaches(s, cutoff, #[trigger] s[i]),
        decreases k,
    {
        let v: u64 = sorted[k - 1];
        let ghost top = k;
        // Take in every count that equals `v`.
        while k > 0 && sorted[k - 1] == v
            invariant
                s == sorted@,
                n == s.len(),
                0 <= k <= top <= n,
                0 < top,
                v == s[top - 1],
                below == total_mass(s.take(k as int)),
                forall|i: int| k <= i < top ==> #[trigger] s[i] == v,
            decreases k,
        {
            proof {
                assert(s.take(k as int).drop_last() =~= s.take(k - 1));
                lemma_mass_bounds(s.take(k - 1), 0, 0);
            }
            k = k - 1;
            below = below - v as u128;
        }
        proof {
            assert forall|i: int| 0 <= i < k implies #[trigger] s[i] < v by {
                assert(s[i].precedes(s[k - 1]) || i == k - 1);
            }
            assert forall|i: int| k <= i < n implies #[trigger] s[i] >= v by {
                if i >= top {
                    assert(s[top - 1].precedes(s[i]));
                }
            }
            lemma_mass_above_boundary(s, v, k as int);
            lemma_mass_bounds(s, 0, v);
            assert(s[top - 1] == v);
        }
        let hot: u128 = total - below;
        if k == 0 || reaches_share(hot, total, cutoff) {
            proof {
                assert forall|i: int| 0 <= i < n && #[trigger] s[i] > v implies !reaches(
                    s,
                    cutoff,
                    s[i],
                ) by {
                    assert(i >= top);
                }
            }
            return CutoffEntry {
                cutoff,
                min_count: v,
                num_counts: n - k,
                cumulative_count: hot,
            };
        }
    }
}

/// The cutoff table of a set of counts: one line for each cutoff, in the
/// order of the cutoffs.
pub fn cutoff_table(counts: &Vec<u64>, cutoffs: &[u32]) -> (table: Vec<CutoffEntry>)
    ensures
        table@.len() == cutoffs@.len(),
        forall|k: int|
            0 <= k < cutoffs@.len() ==> is_cutoff_entry(counts@, cutoffs@[k], #[trigger] table@[k]),
{
    let sorted: Vec<u64> = sort_ranked(counts);
    let n: usize = sorted.len();
    let mut total: u128 = 0;
    let mut i: usize = 0;
    proof {
        assert(sorted@.take(0) =~= Seq::<u64>::empty());
    }
    while i < n
        invariant
            i <= n,
            n == sorted@.len(),
            total == total_mass(sorted@.take(i as int)),
        decreases n - i,
    {
        proof {
            assert(sorted@.take(i + 1).drop_last() =~= sorted@.take(i as int));
            lemma_mass_bounds(sorted@.take(i + 1), 0, 0);
            assert((i + 1) * 0xFFFF_FFFF_FFFF_FFFF <= mass_limit()) by (nonlinear_arith)
                requires
                    i + 1 <= 0xFFFF_FFFF_FFFF_FFFF,
            ;
        }
        total = total + sorted[i] as u128;
        i = i + 1;
    }
    proof {
        assert(sorted@.take(n as int) =~= sorted@);
    }
    let mut table: Vec<CutoffEntry> = Vec::new();
    let mut c: usize = 0;
    while c < cutoffs.len()
        invariant
            c <= cutoffs@.len(),
            table@.len() == c,
            n == sorted@.len(),
            n == counts@.len(),
            in_rank_order(sorted@),
            sorted@.to_multiset() == counts@.to_multiset(),
            total == total_mass(sorted@),
            forall|k: int|
                0 <= k < c ==> is_cutoff_entry(counts@, cutoffs@[k], #[trigger] table@[k]),
        decreases cutoffs@.len() - c,
    {
        let cutoff: u32 = cutoffs[c];
        let entry: CutoffEntry = if n == 0 {
            CutoffEntry { cutoff, min_count: 0, num_counts: 0, cumulative_count: 0 }
        } else {
            let e: CutoffEntry = cutoff_entry_of_sorted(&sorted, total, cutoff);
            proof {
                lemma_cutoff_entry_of_permutation(sorted@, counts@, cutoff, e);
            }
            e
        };
        table.push(entry);
        c = c + 1;
    }
    table
}

} // verus!
