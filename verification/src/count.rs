//! Per-ASN hop frequency over a set of distinct paths: each path raises the
//! count of every ASN it traverses by exactly one, however often the ASN
//! recurs within that path; the target origin, no transit hop of its own
//! routes, is left out of the counts.
use vstd::prelude::*;

verus! {

/// Number of paths in `pss` that contain `asn` at least once.
pub open spec fn count_containing(pss: Seq<Seq<u64>>, asn: u64) -> nat
    decreases pss.len(),
{
    if pss.len() == 0 {
        0
    } else {
        count_containing(pss.drop_last(), asn) + if pss.last().contains(asn) {
            1nat
        } else {
            0nat
        }
    }
}

/// The count a table of `(asn, count)` rows records for `asn`; zero when
/// the table has no row for it.
pub open spec fn lookup(es: Seq<(u64, u64)>, asn: u64) -> nat
    decreases es.len(),
{
    if es.len() == 0 {
        0
    } else if es.last().0 == asn {
        es.last().1 as nat
    } else {
        lookup(es.drop_last(), asn)
    }
}

pub open spec fn unique_keys(es: Seq<(u64, u64)>) -> bool {
    forall|i: int, j: int| 0 <= i < j < es.len() ==> es[i].0 != es[j].0
}

pub open spec fn has_key(es: Seq<(u64, u64)>, asn: u64) -> bool {
    exists|i: int| 0 <= i < es.len() && es[i].0 == asn
}

/// Sum of all per-ASN counts a table records.
pub open spec fn sum_counts(es: Seq<(u64, u64)>) -> nat
    decreases es.len(),
{
    if es.len() == 0 {
        0
    } else {
        sum_counts(es.drop_last()) + (es.last().1 as nat)
    }
}

/// No ASN is contained in more paths than there are paths.
pub proof fn lemma_count_le_len(pss: Seq<Seq<u64>>, asn: u64)
    ensures
        count_containing(pss, asn) <= pss.len(),
    decreases pss.len(),
{
    if pss.len() > 0 {
        lemma_count_le_len(pss.drop_last(), asn);
    }
}

pub proof fn lemma_lookup_key(es: Seq<(u64, u64)>, i: int)
    requires
        unique_keys(es),
        0 <= i < es.len(),
    ensures
        lookup(es, es[i].0) == es[i].1,
        has_key(es, es[i].0),
    decreases es.len(),
{
    if i < es.len() - 1 {
        assert(es.last().0 != es[i].0);
        assert(es.drop_last()[i] == es[i]);
        lemma_lookup_key(es.drop_last(), i);
    }
}

proof fn lemma_lookup_absent(es: Seq<(u64, u64)>, asn: u64)
    requires
        !has_key(es, asn),
    ensures
        lookup(es, asn) == 0,
    decreases es.len(),
{
    if es.len() > 0 {
        assert(es.last() == es[es.len() - 1]);
        assert(es.last().0 != asn);
        assert forall|i: int| 0 <= i < es.len() - 1 implies es.drop_last()[i].0 != asn by {
            assert(es.drop_last()[i] == es[i]);
        }
        lemma_lookup_absent(es.drop_last(), asn);
    }
}

proof fn lemma_lookup_update(es: Seq<(u64, u64)>, i: int, v: u64)
    requires
        unique_keys(es),
        0 <= i < es.len(),
    ensures
        lookup(es.update(i, (es[i].0, v)), es[i].0) == v,
        forall|a: u64| a != es[i].0 ==> lookup(es.update(i, (es[i].0, v)), a) == lookup(es, a),
        unique_keys(es.update(i, (es[i].0, v))),
        forall|a: u64| has_key(es.update(i, (es[i].0, v)), a) <==> has_key(es, a),
        sum_counts(es.update(i, (es[i].0, v))) == sum_counts(es) - es[i].1 + v,
    decreases es.len(),
{
    let es2 = es.update(i, (es[i].0, v));
    assert forall|a: u64| has_key(es2, a) <==> has_key(es, a) by {
        if has_key(es2, a) {
            let w = choose|w: int| 0 <= w < es2.len() && es2[w].0 == a;
            assert(es[w].0 == a);
        }
        if has_key(es, a) {
            let w = choose|w: int| 0 <= w < es.len() && es[w].0 == a;
            assert(es2[w].0 == a);
        }
    }
    if i == es.len() - 1 {
        assert(es2.last() == (es[i].0, v));
        assert(es2.drop_last() =~= es.drop_last());
        assert forall|a: u64| a != es[i].0 implies lookup(es2, a) == lookup(es, a) by {
            assert(es.last().0 == es[i].0);
        }
    } else {
        assert(es2.last() == es.last());
        assert(es2.drop_last() =~= es.drop_last().update(i, (es[i].0, v)));
        assert(es.drop_last()[i] == es[i]);
        assert(es.last().0 != es[i].0);
        lemma_lookup_update(es.drop_last(), i, v);
        assert(lookup(es2, es[i].0) == lookup(es2.drop_last(), es[i].0));
        assert forall|a: u64| a != es[i].0 implies lookup(es2, a) == lookup(es, a) by {
            if es.last().0 == a {
                assert(lookup(es2, a) == es2.last().1);
            } else {
                assert(lookup(es2, a) == lookup(es2.drop_last(), a));
                assert(lookup(es, a) == lookup(es.drop_last(), a));
            }
        }
    }
}

/// Raises the count of `asn` by one, starting it at one when the table has
/// no row for it yet; every other count, and the set of keyed ASNs but for
/// `asn` itself, stays as it was.
fn bump(es: &mut Vec<(u64, u64)>, asn: u64)
    requires
        unique_keys(old(es)@),
        lookup(old(es)@, asn) < u64::MAX,
    ensures
        unique_keys(final(es)@),
        lookup(final(es)@, asn) == lookup(old(es)@, asn) + 1,
        forall|a: u64| a != asn ==> lookup(final(es)@, a) == lookup(old(es)@, a),
        forall|a: u64| has_key(final(es)@, a) <==> (has_key(old(es)@, a) || a == asn),
        sum_counts(final(es)@) == sum_counts(old(es)@) + 1,
{
    let ghost orig = es@;
    let mut i: usize = 0;
    while i < es.len()
        invariant
            0 <= i <= es@.len(),
            es@ == orig,
            orig == old(es)@,
            unique_keys(orig),
            lookup(orig, asn) < u64::MAX,
            forall|j: int| 0 <= j < i ==> orig[j].0 != asn,
        decreases es@.len() - i,
    {
        let (k, c) = es[i];
        if k == asn {
            proof {
                assert(orig[i as int].0 == asn && orig[i as int].1 == c);
                lemma_lookup_key(orig, i as int);
                assert(lookup(orig, asn) == c);
                lemma_lookup_update(orig, i as int, (c + 1) as u64);
            }
            es.set(i, (asn, c + 1));
            proof {
                assert(es@ == orig.update(i as int, (orig[i as int].0, (c + 1) as u64)));
            }
            return ;
        }
        i = i + 1;
    }
    proof {
        lemma_lookup_absent(orig, asn);
    }
    es.push((asn, 1));
    proof {
        assert(es@.drop_last() =~= orig);
        assert(es@.last() == (asn, 1u64));
        assert forall|a: u64| has_key(es@, a) <==> (has_key(orig, a) || a == asn) by {
            if has_key(es@, a) {
                let w = choose|w: int| 0 <= w < es@.len() && es@[w].0 == a;
                if w < orig.len() {
                    assert(orig[w].0 == a);
                }
            }
            if has_key(orig, a) {
                let w = choose|w: int| 0 <= w < orig.len() && orig[w].0 == a;
                assert(es@[w].0 == a);
            }
        }
        assert forall|i2: int, j2: int|
            0 <= i2 < j2 < es@.len() implies es@[i2].0 != es@[j2].0 by {
            if j2 == es@.len() - 1 {
                assert(orig[i2].0 != asn);
            } else {
                assert(orig[i2] == es@[i2] && orig[j2] == es@[j2]);
            }
        }
    }
}

/// Replacing one row changes the counts' sum by the difference of the
/// counts swapped in and out.
pub proof fn lemma_sum_update(es: Seq<(u64, u64)>, i: int, e: (u64, u64))
    requires
        0 <= i < es.len(),
    ensures
        sum_counts(es.update(i, e)) == sum_counts(es) - es[i].1 + e.1,
    decreases es.len(),
{
    let es2 = es.update(i, e);
    if i == es.len() - 1 {
        assert(es2.drop_last() =~= es.drop_last());
        assert(es2.last() == e);
    } else {
        assert(es2.last() == es.last());
        assert(es2.drop_last() =~= es.drop_last().update(i, e));
        assert(es.drop_last()[i] == es[i]);
        lemma_sum_update(es.drop_last(), i, e);
    }
}

/// Rearranging a uniquely keyed count table leaves every recorded count,
/// and the set of keyed ASNs, as it was.
pub proof fn lemma_table_perm(orig: Seq<(u64, u64)>, perm: Seq<(u64, u64)>)
    requires
        unique_keys(orig),
        orig.to_multiset() == perm.to_multiset(),
    ensures
        unique_keys(perm),
        perm.len() == orig.len(),
        forall|a: u64| #[trigger] lookup(perm, a) == lookup(orig, a),
        forall|a: u64| #[trigger] has_key(perm, a) <==> has_key(orig, a),
        forall|k: int| 0 <= k < perm.len() ==> perm[k].1 == lookup(orig, perm[k].0),
    decreases orig.len(),
{
    broadcast use vstd::seq_lib::group_to_multiset_ensures;
    broadcast use vstd::multiset::group_multiset_axioms;

    assert(perm.len() == orig.len()) by {
        perm.to_multiset_ensures();
        orig.to_multiset_ensures();
        assert(perm.to_multiset().len() == orig.to_multiset().len());
    }
    assert forall|k: int| 0 <= k < perm.len() implies orig.contains(#[trigger] perm[k]) by {
        assert(perm.to_multiset().count(perm[k]) > 0);
    }
    assert forall|k: int| 0 <= k < orig.len() implies perm.contains(#[trigger] orig[k]) by {
        assert(orig.to_multiset().count(orig[k]) > 0);
    }
    assert forall|k1: int, k2: int| 0 <= k1 < k2 < perm.len() implies perm[k1].0
        != perm[k2].0 by {
        if perm[k1].0 == perm[k2].0 {
            let i1 = choose|i: int| 0 <= i < orig.len() && orig[i] == perm[k1];
            let i2 = choose|i: int| 0 <= i < orig.len() && orig[i] == perm[k2];
            if perm[k1] == perm[k2] {
                // The same row twice: the multiset holds it twice, but a
                // uniquely keyed table holds no row twice.
                assert(orig.no_duplicates());
                orig.lemma_multiset_has_no_duplicates();
                assert(perm.to_multiset().count(perm[k1]) >= 2) by {
                    let sub = perm.remove(k1);
                    assert(sub[k2 - 1] == perm[k2]);
                    assert(sub.contains(perm[k2]));
                    assert(sub.to_multiset().count(perm[k2]) > 0);
                    assert(perm.to_multiset() =~= sub.to_multiset().insert(perm[k1]));
                }
            }
        }
    }
    assert forall|a: u64| #[trigger] has_key(perm, a) <==> has_key(orig, a) by {
        if has_key(perm, a) {
            let k = choose|k: int| 0 <= k < perm.len() && perm[k].0 == a;
            let i = choose|i: int| 0 <= i < orig.len() && orig[i] == perm[k];
            assert(orig[i].0 == a);
        }
        if has_key(orig, a) {
            let i = choose|i: int| 0 <= i < orig.len() && orig[i].0 == a;
            let k = choose|k: int| 0 <= k < perm.len() && perm[k] == orig[i];
            assert(perm[k].0 == a);
        }
    }
    assert forall|a: u64| #[trigger] lookup(perm, a) == lookup(orig, a) by {
        if has_key(perm, a) {
            let k = choose|k: int| 0 <= k < perm.len() && perm[k].0 == a;
            let i = choose|i: int| 0 <= i < orig.len() && orig[i] == perm[k];
            lemma_lookup_key(perm, k);
            lemma_lookup_key(orig, i);
        } else {
            lemma_lookup_absent(perm, a);
            lemma_lookup_absent(orig, a);
        }
    }
    assert forall|k: int| 0 <= k < perm.len() implies perm[k].1 == lookup(
        orig,
        perm[k].0,
    ) by {
        lemma_lookup_key(perm, k);
    }
}

/// The hop sequences a vector of parsed paths denotes.
pub open spec fn hop_seqs(ps: Seq<Vec<u64>>) -> Seq<Seq<u64>> {
    ps.map_values(|p: Vec<u64>| p@)
}

/// Whether a path traverses any ASN besides the target origin.
pub open spec fn has_transit(p: Seq<u64>, origin: u64) -> bool {
    exists|j: int| 0 <= j < p.len() && p[j] != origin
}

/// Number of paths that traverse some ASN besides the target origin.
pub open spec fn count_transit(pss: Seq<Seq<u64>>, origin: u64) -> nat
    decreases pss.len(),
{
    if pss.len() == 0 {
        0
    } else {
        count_transit(pss.drop_last(), origin) + if has_transit(pss.last(), origin) {
            1nat
        } else {
            0nat
        }
    }
}

/// When every path traverses some ASN besides the origin, every path is
/// counted: the per-ASN counts then sum to at least the number of paths.
pub proof fn lemma_all_paths_transit(pss: Seq<Seq<u64>>, origin: u64)
    requires
        forall|k: int| 0 <= k < pss.len() ==> has_transit(#[trigger] pss[k], origin),
    ensures
        count_transit(pss, origin) == pss.len(),
    decreases pss.len(),
{
    if pss.len() > 0 {
        assert(pss.last() == pss[pss.len() - 1]);
        assert forall|k: int|
            0 <= k < pss.len() - 1 implies has_transit(#[trigger] pss.drop_last()[k], origin) by {
            assert(pss.drop_last()[k] == pss[k]);
        }
        lemma_all_paths_transit(pss.drop_last(), origin);
    }
}

/// Whether `h` occurs among the first `j` hops of `p`.
fn hop_seen_before(p: &Vec<u64>, h: u64, j: usize) -> (r: bool)
    requires
        j <= p@.len(),
    ensures
        r == p@.take(j as int).contains(h),
{
    let mut i: usize = 0;
    while i < j
        invariant
            0 <= i <= j <= p@.len(),
            forall|k: int| 0 <= k < i ==> p@[k] != h,
        decreases j - i,
    {
        if p[i] == h {
            proof {
                assert(p@.take(j as int)[i as int] == h);
            }
            return true;
        }
        i = i + 1;
    }
    proof {
        if p@.take(j as int).contains(h) {
            let w = choose|w: int| 0 <= w < j && p@.take(j as int)[w] == h;
            assert(p@[w] == h);
        }
    }
    false
}

/// Counts, for every hop ASN but the target origin itself, the number of
/// paths in `parsed` that contain it at least once: a hop that recurs
/// within one path is counted once for that path, and the origin, though
/// it closes every path it originates, is no transit hop of its own routes
/// and is never counted. The table keys exactly the other ASNs that occur
/// in some path, and each path with a hop besides the origin raises at
/// least one count.
pub fn count_hops(parsed: &Vec<Vec<u64>>, origin: u64) -> (r: Vec<(u64, u64)>)
    requires
        forall|i: int| 0 <= i < parsed@.len() ==> (#[trigger] parsed@[i])@.len() >= 1,
    ensures
        unique_keys(r@),
        forall|a: u64|
            a != origin ==> #[trigger] lookup(r@, a) == count_containing(hop_seqs(parsed@), a),
        lookup(r@, origin) == 0,
        forall|a: u64|
            #[trigger] has_key(r@, a) <==> (a != origin && count_containing(hop_seqs(parsed@), a)
                > 0),
        sum_counts(r@) >= count_transit(hop_seqs(parsed@), origin),
{
    let ghost pss = hop_seqs(parsed@);
    let mut es: Vec<(u64, u64)> = Vec::new();
    let n = parsed.len();
    let mut i: usize = 0;
    while i < n
        invariant
            0 <= i <= n,
            n == parsed@.len(),
            pss == hop_seqs(parsed@),
            forall|k: int| 0 <= k < parsed@.len() ==> (#[trigger] parsed@[k])@.len() >= 1,
            unique_keys(es@),
            forall|a: u64|
                a != origin ==> #[trigger] lookup(es@, a) == count_containing(
                    pss.take(i as int),
                    a,
                ),
            forall|a: u64|
                #[trigger] has_key(es@, a) <==> (a != origin && count_containing(
                    pss.take(i as int),
                    a,
                ) > 0),
            sum_counts(es@) >= count_transit(pss.take(i as int), origin),
        decreases n - i,
    {
        let p = &parsed[i];
        let ghost pre = es@;
        let m = p.len();
        let mut j: usize = 0;
        while j < m
            invariant
                0 <= j <= m,
                m == p@.len(),
                m >= 1,
                0 <= i < n,
                n == parsed@.len(),
                pss == hop_seqs(parsed@),
                p == &parsed[i as int],
                p@ == pss[i as int],
                unique_keys(es@),
                forall|a: u64|
                    a != origin ==> #[trigger] lookup(es@, a) == count_containing(
                        pss.take(i as int),
                        a,
                    ) + (
                    if p@.take(j as int).contains(a) {
                        1nat
                    } else {
                        0nat
                    }),
                forall|a: u64|
                    #[trigger] has_key(es@, a) <==> (a != origin && (count_containing(
                        pss.take(i as int),
                        a,
                    ) > 0 || p@.take(j as int).contains(a))),
                sum_counts(es@) >= count_transit(pss.take(i as int), origin),
                has_transit(p@.take(j as int), origin) ==> sum_counts(es@) >= count_transit(
                    pss.take(i as int),
                    origin,
                ) + 1,
            decreases m - j,
        {
            let h = p[j];
            proof {
                assert(p@.take(j + 1).drop_last() =~= p@.take(j as int));
                assert(p@.take(j + 1).last() == p@[j as int]);
                assert forall|a: u64|
                    p@.take(j + 1).contains(a) <==> (p@.take(j as int).contains(a) || a
                        == h) by {
                    if p@.take(j + 1).contains(a) {
                        let w = choose|w: int|
                            0 <= w < j + 1 && #[trigger] p@.take(j + 1)[w] == a;
                        if w < j {
                            assert(p@.take(j as int)[w] == a);
                        }
                    }
                    if p@.take(j as int).contains(a) {
                        let w = choose|w: int| 0 <= w < j && p@.take(j as int)[w] == a;
                        assert(p@.take(j + 1)[w] == a);
                    }
                    if a == h {
                        assert(p@.take(j + 1)[j as int] == a);
                    }
                }
            }
            if h != origin && !hop_seen_before(p, h, j) {
                proof {
                    lemma_count_le_len(pss.take(i as int), h);
                }
                bump(&mut es, h);
                proof {
                    assert(p@.take(j + 1)[j as int] == h);
                    assert(has_transit(p@.take(j + 1), origin));
                }
            } else {
                proof {
                    if has_transit(p@.take(j + 1), origin) && !has_transit(
                        p@.take(j as int),
                        origin,
                    ) {
                        let w = choose|w: int|
                            0 <= w < p@.take(j + 1).len() && #[trigger] p@.take(j + 1)[w]
                                != origin;
                        assert(p@.take(j + 1)[w] == p@.take(j as int)[w]);
                    }
                }
            }
            j = j + 1;
        }
        proof {
            assert(p@.take(m as int) =~= p@);
            assert(pss.take(i + 1).drop_last() =~= pss.take(i as int));
            assert(pss.take(i + 1).last() == pss[i as int]);
        }
        i = i + 1;
    }
    proof {
        assert(pss.take(n as int) =~= pss);
        lemma_lookup_absent(es@, origin);
    }
    es
}

} // verus!
