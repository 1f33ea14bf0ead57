//! Ranking of counted hops: rows ordered by descending count, ties broken
//! by ascending ASN so that output is reproducible, and the fraction of
//! distinct paths each hop covers, rendered in hundredths.
use vstd::prelude::*;
use vstd::relations::{sorted_by, total_ordering};
use vstd::seq_lib::lemma_sorted_unique;
use crate::count::{lemma_sum_update, sum_counts};

verus! {

/// One output row: a hop ASN, the number of distinct paths containing it,
/// and the size of the whole path set, the fraction's denominator.
#[derive(Clone, Copy, Debug, PartialEq, Eq)]
pub struct RankedRow {
    pub asn: u64,
    pub count: u64,
    pub total: u64,
}

/// Row order: by descending count, ties by ascending ASN.
pub open spec fn rank_leq(a: (u64, u64), b: (u64, u64)) -> bool {
    a.1 > b.1 || (a.1 == b.1 && a.0 <= b.0)
}

pub open spec fn rank_order() -> spec_fn((u64, u64), (u64, u64)) -> bool {
    |a: (u64, u64), b: (u64, u64)| rank_leq(a, b)
}

/// The row order is total, so a sorted table is unique for its rows.
pub proof fn lemma_rank_order_total()
    ensures
        total_ordering(rank_order()),
{
    let leq = rank_order();
    assert forall|a: (u64, u64), b: (u64, u64)| #[trigger] leq(a, b) && #[trigger] leq(b, a)
        implies a == b by {}
    assert forall|a: (u64, u64), b: (u64, u64), c: (u64, u64)|
        #[trigger] leq(a, b) && #[trigger] leq(b, c) implies leq(a, c) by {}
    assert forall|a: (u64, u64), b: (u64, u64)| !(#[trigger] leq(a, b)) implies leq(b, a) by {}
}

fn rank_before(a: (u64, u64), b: (u64, u64)) -> (r: bool)
    ensures
        r == rank_leq(a, b),
{
    a.1 > b.1 || (a.1 == b.1 && a.0 <= b.0)
}

proof fn lemma_swap_multiset(s: Seq<(u64, u64)>, i: int, j: int)
    requires
        0 <= i < j < s.len(),
    ensures
        s.update(i, s[j]).update(j, s[i]).to_multiset() == s.to_multiset(),
{
    broadcast use vstd::seq_lib::to_multiset_update;
    broadcast use vstd::multiset::group_multiset_axioms;
    broadcast use vstd::seq_lib::group_to_multiset_ensures;

    let s1 = s.update(i, s[j]);
    let s2 = s1.update(j, s[i]);
    assert(s1[j] == s[j]);
    assert(s.to_multiset().contains(s[i]));
    assert(s1.to_multiset().contains(s[j]));
    assert(s2.to_multiset() =~= s.to_multiset());
}

/// Sorts a count table into rank order: descending count, ties by
/// ascending ASN. The rows are exactly those given.
pub fn sort_rows(rows: &mut Vec<(u64, u64)>)
    ensures
        final(rows)@.to_multiset() == old(rows)@.to_multiset(),
        sum_counts(final(rows)@) == sum_counts(old(rows)@),
        sorted_by(final(rows)@, rank_order()),
{
    let ghost orig = rows@;
    let n = rows.len();
    if n == 0 {
        return ;
    }
    let mut i: usize = 1;
    while i < n
        invariant
            1 <= i <= n,
            n == rows@.len(),
            rows@.to_multiset() == orig.to_multiset(),
            sum_counts(rows@) == sum_counts(orig),
            sorted_by(rows@.take(i as int), rank_order()),
        decreases n - i,
    {
        proof {
            let leq = rank_order();
            assert forall|a: int, b: int|
                0 <= a < b <= i && a != i && b != i implies rank_leq(
                #[trigger] rows@[a],
                #[trigger] rows@[b],
            ) by {
                assert(leq(rows@.take(i as int)[a], rows@.take(i as int)[b]));
            }
        }
        let mut j: usize = i;
        while j > 0 && !rank_before(rows[j - 1], rows[j])
            invariant
                0 <= j <= i < n,
                n == rows@.len(),
                rows@.to_multiset() == orig.to_multiset(),
                sum_counts(rows@) == sum_counts(orig),
                forall|a: int, b: int|
                    0 <= a < b <= i && a != j && b != j ==> rank_leq(rows@[a], rows@[b]),
                forall|b: int| j < b <= i ==> rank_leq(rows@[j as int], rows@[b]),
            decreases j,
        {
            let ghost before = rows@;
            let x = rows[j - 1];
            let y = rows[j];
            proof {
                lemma_rank_order_total();
                assert(rank_leq(y, x));
                lemma_swap_multiset(before, j - 1, j as int);
                lemma_sum_update(before, j - 1, before[j as int]);
                lemma_sum_update(before.update(j - 1, before[j as int]), j as int, before[j - 1]);
            }
            rows.set(j - 1, y);
            rows.set(j, x);
            proof {
                assert(rows@ == before.update(j - 1, before[j as int]).update(
                    j as int,
                    before[j - 1],
                ));
                assert forall|a: int, b: int|
                    0 <= a < b <= i && a != j - 1 && b != j - 1 implies rank_leq(
                    rows@[a],
                    rows@[b],
                ) by {
                    if a == j {
                        assert(rank_leq(before[j - 1], before[b]));
                    } else if b == j {
                        assert(rank_leq(before[a], before[j - 1]));
                    } else {
                        assert(rows@[a] == before[a] && rows@[b] == before[b]);
                    }
                }
                assert forall|b: int| j - 1 < b <= i implies rank_leq(
                    rows@[j - 1],
                    #[trigger] rows@[b],
                ) by {
                    if b == j {
                        assert(rank_leq(y, x));
                    } else {
                        assert(rank_leq(before[j as int], before[b]));
                    }
                }
            }
            j = j - 1;
        }
        proof {
            lemma_rank_order_total();
            let leq = rank_order();
            assert forall|a: int, b: int| 0 <= a < b <= i implies #[trigger] leq(
                rows@.take(i + 1)[a],
                rows@.take(i + 1)[b],
            ) by {
                if a == j {
                    assert(rank_leq(rows@[a], rows@[b]));
                } else if b == j {
                    assert(j > 0 && rank_leq(rows@[j - 1], rows@[j as int]));
                    if a < j - 1 {
                        assert(rank_leq(rows@[a], rows@[j - 1]));
                        assert(leq(rows@[a], rows@[j - 1]) && leq(rows@[j - 1], rows@[j as int]));
                    }
                } else {
                    assert(rank_leq(rows@[a], rows@[b]));
                }
                assert(leq(rows@[a], rows@[b]));
            }
            assert(sorted_by(rows@.take(i + 1), leq));
        }
        i = i + 1;
    }
    proof {
        assert(rows@.take(n as int) =~= rows@);
    }
}

/// The fraction `count / total` in hundredths, rounded half up.
pub open spec fn hundredths_of(count: u64, total: u64) -> int {
    (200 * count + total) / (2 * total)
}

impl RankedRow {
    /// A row's count is at least one and never exceeds the path-set size,
    /// which is positive: the fraction lies in the unit interval.
    pub open spec fn wf(self) -> bool {
        &&& self.total > 0
        &&& 1 <= self.count <= self.total
    }

    /// The fraction of distinct paths this hop covers, in hundredths,
    /// rounded half up: at most 100, that is at most the whole.
    pub fn fraction_hundredths(&self) -> (r: u64)
        requires
            self.wf(),
        ensures
            r == hundredths_of(self.count, self.total),
            r <= 100,
    {
        let num: u128 = 200u128 * (self.count as u128) + (self.total as u128);
        let den: u128 = 2u128 * (self.total as u128);
        let q = num / den;
        proof {
            assert(q <= 100) by (nonlinear_arith)
                requires
                    q == ((200 * self.count + self.total) as u128) / ((2 * self.total) as u128),
                    0 < self.total,
                    self.count <= self.total,
            ;
        }
        q as u64
    }
}

/// A ranked table is the unique rank-ordered arrangement of its rows: any
/// two sorted tables of the same rows are equal.
pub proof fn lemma_ranked_unique(x: Seq<(u64, u64)>, y: Seq<(u64, u64)>)
    requires
        sorted_by(x, rank_order()),
        sorted_by(y, rank_order()),
        x.to_multiset() == y.to_multiset(),
    ensures
        x == y,
{
    lemma_rank_order_total();
    lemma_sorted_unique(x, y, rank_order());
}

} // verus!
