use hopfreq::pipeline::{run_date, PipelineError};
use hopfreq::rank::RankedRow;
use hopfreq::records::{RawRecord, RecordKind};

fn rec(origin: u64, path: &str) -> RawRecord {
    RawRecord { origin_asn: origin, as_path: Some(path.as_bytes().to_vec()), kind: RecordKind::Announcement }
}

fn row(asn: u64, count: u64, total: u64) -> RankedRow {
    RankedRow { asn, count, total }
}

#[test]
fn single_path_counts_every_hop_once() {
    // A hop that recurs within one path raises its count once, not twice.
    let rows = run_date(64500, vec![rec(64500, "100 200 100 300")]).unwrap();
    assert_eq!(rows, vec![row(100, 1, 1), row(200, 1, 1), row(300, 1, 1)]);
}

#[test]
fn same_hops_in_other_order_are_two_paths() {
    // Distinctness is syntactic: reversed hop order makes another path.
    let rows = run_date(7, vec![rec(7, "100 200"), rec(7, "200 100")]).unwrap();
    assert_eq!(rows, vec![row(100, 2, 2), row(200, 2, 2)]);
}

#[test]
fn duplicate_records_collapse_to_one_path() {
    let rows = run_date(7, vec![rec(7, "100 200"), rec(7, "100 200")]).unwrap();
    assert_eq!(rows, vec![row(100, 1, 1), row(200, 1, 1)]);
}

#[test]
fn aggregation_marker_excludes_the_path() {
    // The marked path never enters the path set; the plain one does.
    let rows = run_date(7, vec![rec(7, "100 {200,300} 400"), rec(7, "100 500")]).unwrap();
    assert_eq!(rows, vec![row(100, 1, 1), row(500, 1, 1)]);
}

#[test]
fn only_marked_paths_leave_no_data() {
    let r = run_date(7, vec![rec(7, "100 {200,300} 400")]);
    assert_eq!(r, Err(PipelineError::NoAdmissiblePaths));
}

#[test]
fn end_to_end_three_records() {
    // Two identical paths collapse: two distinct paths in all. The shared
    // upstream hop covers the whole set, the others half of it, and the
    // origin itself — though it closes every path — gets no row.
    let rows = run_date(
        64500,
        vec![rec(64500, "100 200 64500"), rec(64500, "100 200 64500"), rec(64500, "100 300 64500")],
    )
    .unwrap();
    assert_eq!(rows, vec![row(100, 2, 2), row(200, 1, 2), row(300, 1, 2)]);
    let fractions: Vec<u64> = rows.iter().map(|r| r.fraction_hundredths()).collect();
    assert_eq!(fractions, vec![100, 50, 50]);
}

#[test]
fn origin_is_not_counted_as_its_own_hop() {
    // The origin may even recur mid-path; it still gets no row.
    let rows = run_date(64500, vec![rec(64500, "100 64500 200 64500")]).unwrap();
    assert_eq!(rows, vec![row(100, 1, 1), row(200, 1, 1)]);
}

#[test]
fn origin_only_path_yields_an_empty_table() {
    // One distinct path with no upstream hop: the run succeeds with a
    // nonzero denominator and an empty table.
    let rows = run_date(7, vec![rec(7, "7")]).unwrap();
    assert_eq!(rows, Vec::new());
}

#[test]
fn counts_bound_by_path_set_size_and_sum_covers_it() {
    let rows = run_date(
        9,
        vec![rec(9, "10 20"), rec(9, "10 30"), rec(9, "40 20")],
    )
    .unwrap();
    let total = rows[0].total;
    assert_eq!(total, 3);
    let sum: u64 = rows.iter().map(|r| r.count).sum();
    assert!(sum >= total);
    for r in &rows {
        assert!(1 <= r.count && r.count <= total);
    }
}

#[test]
fn ranked_rows_fall_in_count_and_fractions_stay_within_one() {
    let rows = run_date(
        9,
        vec![rec(9, "10 20 30"), rec(9, "10 40"), rec(9, "50 60")],
    )
    .unwrap();
    for w in rows.windows(2) {
        assert!(w[0].count >= w[1].count);
    }
    for r in &rows {
        assert!(r.fraction_hundredths() <= 100);
    }
}

#[test]
fn equal_counts_rank_by_ascending_asn() {
    let rows = run_date(9, vec![rec(9, "30 10 20")]).unwrap();
    assert_eq!(rows, vec![row(10, 1, 1), row(20, 1, 1), row(30, 1, 1)]);
}

#[test]
fn running_twice_gives_the_same_table() {
    let records = || vec![rec(5, "1 2 3"), rec(5, "2 1"), rec(5, "1 2 3")];
    let first = run_date(5, records()).unwrap();
    let second = run_date(5, records()).unwrap();
    assert_eq!(first, second);
}

#[test]
fn no_admissible_records_fail_explicitly() {
    // A withdrawal, a foreign origin, and a pathless record: no data.
    let withdrawal = RawRecord {
        origin_asn: 7,
        as_path: Some(b"100 200".to_vec()),
        kind: RecordKind::Withdrawal,
    };
    let foreign = rec(8, "100 200");
    let pathless = RawRecord { origin_asn: 7, as_path: None, kind: RecordKind::Announcement };
    let r = run_date(7, vec![withdrawal, foreign, pathless]);
    assert_eq!(r, Err(PipelineError::NoAdmissiblePaths));
}

#[test]
fn empty_record_stream_fails_explicitly() {
    assert_eq!(run_date(7, vec![]), Err(PipelineError::NoAdmissiblePaths));
}

#[test]
fn malformed_hop_token_aborts_with_diagnostic() {
    let r = run_date(7, vec![rec(7, "100 20x 300")]);
    match r {
        Err(PipelineError::InvalidHopToken { path, token }) => {
            assert_eq!(path, b"100 20x 300".to_vec());
            assert_eq!(token, b"20x".to_vec());
        },
        other => panic!("expected a hop-token fault, got {:?}", other),
    }
}

#[test]
fn oversized_hop_token_aborts() {
    let r = run_date(7, vec![rec(7, "100 99999999999999999999999999")]);
    assert!(matches!(r, Err(PipelineError::InvalidHopToken { .. })));
}

#[test]
fn empty_path_string_aborts() {
    let r = run_date(7, vec![rec(7, "")]);
    match r {
        Err(PipelineError::InvalidHopToken { path, token }) => {
            assert_eq!(path, Vec::<u8>::new());
            assert_eq!(token, Vec::<u8>::new());
        },
        other => panic!("expected a hop-token fault, got {:?}", other),
    }
}

#[test]
fn fraction_rounds_half_up_to_two_decimals() {
    assert_eq!(row(1, 1, 3).fraction_hundredths(), 33);
    assert_eq!(row(1, 2, 3).fraction_hundredths(), 67);
    assert_eq!(row(1, 1, 8).fraction_hundredths(), 13);
    assert_eq!(row(1, 1, 1).fraction_hundredths(), 100);
    assert_eq!(row(1, 1, 200).fraction_hundredths(), 1);
}
