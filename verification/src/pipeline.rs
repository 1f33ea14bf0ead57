//! The per-day pipeline: from the combined record stream of one day's
//! dumps to the ranked per-ASN hop-frequency table.
use vstd::prelude::*;
use vstd::relations::sorted_by;
use crate::paths::{hops_of, is_asn_token, parse_path, path_ok, tokens_of};
use crate::records::{build_path_set, spec_collect, RawRecord};
use crate::count::{
    count_containing, count_hops, count_transit, has_key, hop_seqs, lemma_count_le_len,
    lemma_table_perm, lookup, sum_counts, unique_keys,
};
use crate::rank::{rank_order, sort_rows, RankedRow};

verus! {

/// Why a day's run produced no table.
#[derive(Debug, PartialEq, Eq)]
pub enum PipelineError {
    /// The day had no admissible path at all: the fraction denominator
    /// would be zero, so the run fails rather than emit an empty table.
    NoAdmissiblePaths,
    /// A hop token of an admissible path is not a decimal ASN: a
    /// data-integrity fault that aborts the run, naming the path and the
    /// offending token.
    InvalidHopToken { path: Vec<u8>, token: Vec<u8> },
}

/// Every distinct admissible path parses hop by hop.
pub open spec fn all_paths_ok(paths: Seq<Seq<u8>>) -> bool {
    forall|i: int| 0 <= i < paths.len() ==> path_ok(#[trigger] paths[i])
}

/// The hop sequences of the distinct admissible paths.
pub open spec fn parsed_of(paths: Seq<Seq<u8>>) -> Seq<Seq<u64>> {
    paths.map_values(|p: Seq<u8>| hops_of(p))
}

/// The data-integrity fault a failed run names: `path` is the first
/// distinct admissible path (in order of first appearance) that does not
/// parse, and `token` is one of its hop tokens that is not a decimal ASN.
pub open spec fn faulty_path(
    path: Seq<u8>,
    token: Seq<u8>,
    records: Seq<RawRecord>,
    origin: u64,
) -> bool {
    let paths = spec_collect(records, origin);
    &&& exists|i: int|
        {
            &&& 0 <= i < paths.len()
            &&& #[trigger] paths[i] == path
            &&& !path_ok(paths[i])
            &&& forall|k: int| 0 <= k < i ==> path_ok(#[trigger] paths[k])
        }
    &&& !is_asn_token(token)
    &&& exists|t: int| 0 <= t < tokens_of(path).len() && #[trigger] tokens_of(path)[t] == token
}

/// What a successful day's table says, given the day's records: one row
/// per hop ASN, other than the target origin itself, that occurs in some
/// distinct admissible path, carrying the number of such paths containing
/// that ASN and the size of the whole path set, ranked by descending count
/// with ties broken by ascending ASN. The origin closes every path it
/// originates but is no transit hop of its own routes, so it never gets a
/// row.
pub open spec fn valid_output(rows: Seq<RankedRow>, records: Seq<RawRecord>, origin: u64) -> bool {
    let paths = spec_collect(records, origin);
    let parsed = parsed_of(paths);
    &&& sorted_by(rows.map_values(|r: RankedRow| (r.asn, r.count)), rank_order())
    &&& forall|k: int|
        0 <= k < rows.len() ==> {
            &&& (#[trigger] rows[k]).total == paths.len()
            &&& rows[k].asn != origin
            &&& rows[k].count == count_containing(parsed, rows[k].asn)
            &&& rows[k].count >= 1
        }
    &&& forall|a: u64|
        (a != origin && count_containing(parsed, a) > 0) <==> exists|k: int|
            0 <= k < rows.len() && (#[trigger] rows[k]).asn == a
    &&& forall|k1: int, k2: int| 0 <= k1 < k2 < rows.len() ==> rows[k1].asn != rows[k2].asn
}

/// Sum of the counts a ranked table shows.
pub open spec fn sum_row_counts(rows: Seq<RankedRow>) -> nat
    decreases rows.len(),
{
    if rows.len() == 0 {
        0
    } else {
        sum_row_counts(rows.drop_last()) + (rows.last().count as nat)
    }
}

proof fn lemma_sum_rows_eq(rows: Seq<RankedRow>, table: Seq<(u64, u64)>)
    requires
        rows.len() == table.len(),
        forall|j: int| 0 <= j < rows.len() ==> (#[trigger] rows[j]).count == table[j].1,
    ensures
        sum_row_counts(rows) == sum_counts(table),
    decreases rows.len(),
{
    if rows.len() > 0 {
        assert forall|j: int|
            0 <= j < rows.len() - 1 implies (#[trigger] rows.drop_last()[j]).count
            == table.drop_last()[j].1 by {
            assert(rows.drop_last()[j] == rows[j] && table.drop_last()[j] == table[j]);
        }
        lemma_sum_rows_eq(rows.drop_last(), table.drop_last());
    }
}

fn copy_bytes(s: &[u8]) -> (r: Vec<u8>)
    ensures
        r@ == s@,
{
    let mut out: Vec<u8> = Vec::new();
    let mut i: usize = 0;
    while i < s.len()
        invariant
            0 <= i <= s.len(),
            out@ == s@.take(i as int),
        decreases s.len() - i,
    {
        out.push(s[i]);
        proof {
            assert(out@ =~= s@.take(i + 1));
        }
        i = i + 1;
    }
    proof {
        assert(s@.take(s@.len() as int) =~= s@);
    }
    out
}

/// Runs one day's pipeline over the combined record stream: keep the
/// admissible paths for `origin_asn`, deduplicate them, count per-ASN hop
/// occurrence across the distinct paths — the origin itself excluded from
/// the counts — and rank the result. Fails when the day has no admissible
/// path, or when a hop token of the first faulty path (in order of first
/// appearance) is not a decimal ASN.
#[verifier::rlimit(60)]
pub fn run_date(origin_asn: u64, records: Vec<RawRecord>) -> (r: Result<
    Vec<RankedRow>,
    PipelineError,
>)
    requires
        origin_asn >= 1,
    ensures
        ({
            let paths = spec_collect(records@, origin_asn);
            match r {
                Ok(rows) => {
                    &&& paths.len() >= 1
                    &&& all_paths_ok(paths)
                    &&& valid_output(rows@, records@, origin_asn)
                    &&& forall|k: int| 0 <= k < rows@.len() ==> (#[trigger] rows@[k]).wf()
                    &&& sum_row_counts(rows@) >= count_transit(parsed_of(paths), origin_asn)
                },
                Err(PipelineError::NoAdmissiblePaths) => paths.len() == 0,
                Err(PipelineError::InvalidHopToken { path, token }) => faulty_path(
                    path@,
                    token@,
                    records@,
                    origin_asn,
                ),
            }
        }),
{
    let ghost paths_spec = spec_collect(records@, origin_asn);
    let set = build_path_set(records, origin_asn);
    let total = set.len();
    if total == 0 {
        return Err(PipelineError::NoAdmissiblePaths);
    }
    let ghost views = set.view_seq();
    let mut parsed: Vec<Vec<u64>> = Vec::new();
    let n = set.paths.len();
    let mut i: usize = 0;
    while i < n
        invariant
            0 <= i <= n,
            n == set.paths@.len(),
            views == set.view_seq(),
            views == paths_spec,
            paths_spec == spec_collect(records@, origin_asn),
            hop_seqs(parsed@) =~= parsed_of(views.take(i as int)),
            forall|k: int| 0 <= k < i ==> path_ok(#[trigger] views[k]),
            forall|k: int| 0 <= k < parsed@.len() ==> (#[trigger] parsed@[k])@.len() >= 1,
            parsed@.len() == i,
        decreases n - i,
    {
        proof {
            assert(views[i as int] == set.paths@[i as int]@);
        }
        let ghost pp = parsed@;
        match parse_path(set.paths[i].as_slice()) {
            Ok(hops) => {
                let ghost hvec = hops;
                parsed.push(hops);
                proof {
                    assert(parsed@ == pp.push(hvec));
                    assert forall|j: int|
                        0 <= j < i + 1 implies #[trigger] hop_seqs(parsed@)[j] == parsed_of(
                        views.take(i + 1),
                    )[j] by {
                        assert(parsed_of(views.take(i + 1))[j] == hops_of(views.take(i + 1)[j]));
                        if j < i {
                            assert(parsed@[j] == pp[j]);
                            assert(hop_seqs(pp)[j] == parsed_of(views.take(i as int))[j]);
                            assert(views.take(i as int)[j] == views.take(i + 1)[j]);
                        } else {
                            assert(parsed@[j] == hvec);
                            assert(views.take(i + 1)[j] == views[i as int]);
                        }
                    }
                    assert(hop_seqs(parsed@) =~= parsed_of(views.take(i + 1)));
                }
            },
            Err(token) => {
                let path = copy_bytes(set.paths[i].as_slice());
                proof {
                    assert((exists|w: int|
                        {
                            &&& 0 <= w < spec_collect(records@, origin_asn).len()
                            &&& #[trigger] spec_collect(records@, origin_asn)[w] == path@
                            &&& !path_ok(spec_collect(records@, origin_asn)[w])
                            &&& forall|k: int|
                                0 <= k < w ==> path_ok(
                                    #[trigger] spec_collect(records@, origin_asn)[k],
                                )
                        })) by {
                        assert(spec_collect(records@, origin_asn)[i as int] == path@);
                        assert(!path_ok(spec_collect(records@, origin_asn)[i as int]));
                        assert forall|k: int|
                            0 <= k < i implies path_ok(
                            #[trigger] spec_collect(records@, origin_asn)[k],
                        ) by {
                            assert(spec_collect(records@, origin_asn)[k] == views[k]);
                        }
                    }
                    let t = choose|t: int|
                        0 <= t < tokens_of(set.paths@[i as int]@).len() && #[trigger] tokens_of(
                            set.paths@[i as int]@,
                        )[t] == token@;
                    assert(tokens_of(path@)[t] == token@);
                    assert(faulty_path(path@, token@, records@, origin_asn));
                }
                return Err(PipelineError::InvalidHopToken { path, token });
            },
        }
        i = i + 1;
    }
    proof {
        assert(views.take(n as int) =~= views);
    }
    let mut table = count_hops(&parsed, origin_asn);
    let ghost unsorted = table@;
    sort_rows(&mut table);
    proof {
        lemma_table_perm(unsorted, table@);
    }
    let ghost parsed_spec = parsed_of(views);
    let mut rows: Vec<RankedRow> = Vec::new();
    let m = table.len();
    let mut k: usize = 0;
    while k < m
        invariant
            0 <= k <= m,
            m == table@.len(),
            total == views.len(),
            total > 0,
            parsed_spec == parsed_of(views),
            hop_seqs(parsed@) == parsed_spec,
            sorted_by(table@, rank_order()),
            unique_keys(table@),
            forall|a: u64|
                a != origin_asn ==> #[trigger] lookup(table@, a) == count_containing(
                    parsed_spec,
                    a,
                ),
            forall|a: u64|
                #[trigger] has_key(table@, a) <==> (a != origin_asn && count_containing(
                    parsed_spec,
                    a,
                ) > 0),
            rows@.len() == k,
            forall|j: int| 0 <= j < k ==> {
                &&& (#[trigger] rows@[j]).asn == table@[j].0
                &&& rows@[j].count == table@[j].1
                &&& rows@[j].total == total
            },
        decreases m - k,
    {
        let (asn, count) = table[k];
        proof {
            crate::count::lemma_lookup_key(table@, k as int);
            assert(has_key(table@, asn));
            lemma_count_le_len(parsed_spec, asn);
        }
        rows.push(RankedRow { asn, count, total: total as u64 });
        k = k + 1;
    }
    proof {
        lemma_sum_rows_eq(rows@, table@);
        assert(rows@.map_values(|r: RankedRow| (r.asn, r.count)) =~= table@);
        assert forall|j: int| 0 <= j < rows@.len() implies (#[trigger] rows@[j]).wf() by {
            crate::count::lemma_lookup_key(table@, j);
            lemma_count_le_len(parsed_spec, rows@[j].asn);
            assert(rows@[j].count == count_containing(parsed_spec, rows@[j].asn));
        }
        assert forall|a: u64|
            (a != origin_asn && count_containing(parsed_spec, a) > 0) <==> exists|j: int|
                0 <= j < rows@.len() && (#[trigger] rows@[j]).asn == a by {
            if a != origin_asn && count_containing(parsed_spec, a) > 0 {
                assert(has_key(table@, a));
                let w = choose|w: int| 0 <= w < table@.len() && #[trigger] table@[w].0 == a;
                assert(rows@[w].asn == a);
            }
            if exists|j: int| 0 <= j < rows@.len() && (#[trigger] rows@[j]).asn == a {
                let j = choose|j: int| 0 <= j < rows@.len() && (#[trigger] rows@[j]).asn == a;
                assert(table@[j].0 == a);
                assert(has_key(table@, a));
            }
        }
        assert forall|j: int| 0 <= j < rows@.len() implies (#[trigger] rows@[j]).asn
            != origin_asn by {
            assert(table@[j].0 == rows@[j].asn);
            assert(has_key(table@, rows@[j].asn));
        }
    }
    Ok(rows)
}

/// Running the pipeline twice over the same records gives the same table:
/// the ranked output is the unique rank-ordered arrangement of the day's
/// per-ASN counts.
pub proof fn lemma_run_deterministic(
    rows1: Seq<RankedRow>,
    rows2: Seq<RankedRow>,
    records: Seq<RawRecord>,
    origin: u64,
)
    requires
        valid_output(rows1, records, origin),
        valid_output(rows2, records, origin),
    ensures
        rows1 == rows2,
{
    broadcast use vstd::seq_lib::group_to_multiset_ensures;
    broadcast use vstd::multiset::group_multiset_axioms;

    let paths = spec_collect(records, origin);
    let parsed = parsed_of(paths);
    let p1 = rows1.map_values(|r: RankedRow| (r.asn, r.count));
    let p2 = rows2.map_values(|r: RankedRow| (r.asn, r.count));
    assert(p1.no_duplicates());
    assert(p2.no_duplicates());
    p1.lemma_multiset_has_no_duplicates();
    p2.lemma_multiset_has_no_duplicates();
    assert forall|x: (u64, u64)| p1.contains(x) implies p2.contains(x) by {
        let k = choose|k: int| 0 <= k < p1.len() && p1[k] == x;
        assert(rows1[k].asn == x.0 && rows1[k].count == x.1);
        assert(x.0 != origin && count_containing(parsed, x.0) > 0);
        let j = choose|j: int| 0 <= j < rows2.len() && (#[trigger] rows2[j]).asn == x.0;
        assert(p2[j] == x);
    }
    assert forall|x: (u64, u64)| p2.contains(x) implies p1.contains(x) by {
        let k = choose|k: int| 0 <= k < p2.len() && p2[k] == x;
        assert(rows2[k].asn == x.0 && rows2[k].count == x.1);
        assert(x.0 != origin && count_containing(parsed, x.0) > 0);
        let j = choose|j: int| 0 <= j < rows1.len() && (#[trigger] rows1[j]).asn == x.0;
        assert(p1[j] == x);
    }
    assert(p1.to_multiset() =~= p2.to_multiset()) by {
        assert forall|x: (u64, u64)| p1.to_multiset().count(x) == p2.to_multiset().count(
            x,
        ) by {
            if p1.contains(x) {
                assert(p2.contains(x));
            } else if p2.contains(x) {
                assert(p1.contains(x));
            } else {
                assert(p1.to_multiset().count(x) == 0);
                assert(p2.to_multiset().count(x) == 0);
            }
        }
    }
    crate::rank::lemma_ranked_unique(p1, p2);
    assert forall|k: int| 0 <= k < rows1.len() implies rows1[k] == rows2[k] by {
        assert(p1[k] == p2[k]);
        assert(rows1[k].total == paths.len() && rows2[k].total == paths.len());
    }
    assert(rows1 =~= rows2);
}

/// Every hop's count lies between one and the size of the path set: a hop
/// is counted only within paths that exist, so no single ASN's count can
/// exceed the fraction denominator, and every ranked hop occurs somewhere.
pub proof fn lemma_counts_cover_paths(rows: Seq<RankedRow>, records: Seq<RawRecord>, origin: u64)
    requires
        valid_output(rows, records, origin),
    ensures
        forall|k: int|
            0 <= k < rows.len() ==> 1 <= (#[trigger] rows[k]).count <= spec_collect(
                records,
                origin,
            ).len(),
{
    let paths = spec_collect(records, origin);
    let parsed = parsed_of(paths);
    assert forall|k: int|
        0 <= k < rows.len() implies 1 <= (#[trigger] rows[k]).count <= paths.len() by {
        lemma_count_le_len(parsed, rows[k].asn);
    }
}

/// A ranked table never rises in count from one row to the next, and each
/// row's fraction lies in the unit interval: its count is at least one and
/// at most its denominator, the size of the path set.
pub proof fn lemma_ranked_monotone(rows: Seq<RankedRow>, records: Seq<RawRecord>, origin: u64)
    requires
        valid_output(rows, records, origin),
    ensures
        forall|k1: int, k2: int|
            0 <= k1 <= k2 < rows.len() ==> (#[trigger] rows[k1]).count >= (
            #[trigger] rows[k2]).count,
        forall|k: int|
            0 <= k < rows.len() ==> 1 <= (#[trigger] rows[k]).count <= rows[k].total,
{
    let paths = spec_collect(records, origin);
    let parsed = parsed_of(paths);
    let pairs = rows.map_values(|r: RankedRow| (r.asn, r.count));
    let leq = rank_order();
    assert forall|k1: int, k2: int|
        0 <= k1 <= k2 < rows.len() implies (#[trigger] rows[k1]).count >= (
    #[trigger] rows[k2]).count by {
        if k1 < k2 {
            assert(leq(pairs[k1], pairs[k2]));
        }
    }
    assert forall|k: int|
        0 <= k < rows.len() implies 1 <= (#[trigger] rows[k]).count <= rows[k].total by {
        lemma_count_le_len(parsed, rows[k].asn);
    }
}

} // verus!

