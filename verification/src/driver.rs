//! Date-range driving: validating the requested run and listing the days
//! it covers. Days are counted as day numbers on a continuous calendar
//! scale, so consecutive days differ by one; the caller converts calendar
//! dates to and from day numbers.
use vstd::prelude::*;

verus! {

/// Whether a requested run is admissible: the origin ASN is positive and
/// the last day does not precede the first. Checked before any fetching.
pub fn validate_run(origin_asn: u64, start_day: i64, end_day: i64) -> (r: bool)
    ensures
        r == (origin_asn >= 1 && start_day <= end_day),
{
    origin_asn >= 1 && start_day <= end_day
}

/// The days a run covers, in order: every day from `start_day` up to but
/// not including `end_day`, and `start_day` alone when the two are equal.
/// Each day is processed independently, with nothing carried between days.
pub fn days_to_process(start_day: i64, end_day: i64) -> (r: Vec<i64>)
    requires
        start_day <= end_day,
        end_day - start_day <= i64::MAX,
        end_day - start_day <= usize::MAX,
    ensures
        end_day > start_day ==> r@.len() == end_day - start_day,
        end_day == start_day ==> r@.len() == 1,
        forall|k: int| 0 <= k < r@.len() ==> r@[k] == start_day + k,
{
    let span = end_day - start_day;
    let m: usize = if span > 0 {
        span as usize
    } else {
        1
    };
    let mut days: Vec<i64> = Vec::new();
    let mut k: usize = 0;
    while k < m
        invariant
            0 <= k <= m,
            start_day <= end_day,
            m == if end_day > start_day {
                (end_day - start_day) as int
            } else {
                1int
            },
            m <= i64::MAX,
            days@.len() == k,
            forall|j: int| 0 <= j < k ==> days@[j] == start_day + j,
        decreases m - k,
    {
        days.push(start_day + (k as i64));
        k = k + 1;
    }
    days
}

} // verus!
