use hopfreq::csv::render_table;
use hopfreq::driver::{days_to_process, validate_run};
use hopfreq::paths::parse_path;
use hopfreq::rank::RankedRow;

#[test]
fn two_day_range_runs_two_days() {
    // The end day is exclusive: two independent runs, for D and D + 1.
    let d: i64 = 19_000;
    assert_eq!(days_to_process(d, d + 2), vec![d, d + 1]);
}

#[test]
fn equal_dates_mean_a_single_day() {
    let d: i64 = 19_000;
    assert_eq!(days_to_process(d, d), vec![d]);
}

#[test]
fn longer_range_lists_every_day_once_in_order() {
    let d: i64 = -3;
    assert_eq!(days_to_process(d, d + 5), vec![-3, -2, -1, 0, 1]);
}

#[test]
fn validation_rejects_bad_ranges_and_zero_origin() {
    assert!(validate_run(64500, 10, 12));
    assert!(validate_run(1, 10, 10));
    assert!(!validate_run(0, 10, 12));
    assert!(!validate_run(64500, 12, 10));
}

#[test]
fn table_renders_as_csv_lines() {
    let rows = vec![
        RankedRow { asn: 100, count: 2, total: 2 },
        RankedRow { asn: 200, count: 1, total: 2 },
    ];
    let bytes = render_table(&rows);
    assert_eq!(bytes, b"100,2,1.00\n200,1,0.50\n".to_vec());
}

#[test]
fn table_renders_rounded_fractions() {
    let rows = vec![RankedRow { asn: 65000, count: 1, total: 3 }];
    assert_eq!(render_table(&rows), b"65000,1,0.33\n".to_vec());
}

#[test]
fn empty_table_renders_no_bytes() {
    assert_eq!(render_table(&Vec::new()), Vec::<u8>::new());
}

#[test]
fn path_parses_to_its_hops_in_order() {
    assert_eq!(parse_path(b"100 200 64500"), Ok(vec![100, 200, 64500]));
    assert_eq!(parse_path(b"4294967295"), Ok(vec![4_294_967_295]));
}

#[test]
fn path_parse_names_the_first_bad_token() {
    assert_eq!(parse_path(b"100  200"), Err(Vec::new()));
    assert_eq!(parse_path(b"1 -2 3"), Err(b"-2".to_vec()));
}
