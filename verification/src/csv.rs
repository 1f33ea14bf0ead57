//! The output table as bytes: one line per ranked row, `asn,count,fraction`
//! with the fraction fixed at two decimal places.
use vstd::prelude::*;
use crate::rank::{hundredths_of, RankedRow};

verus! {

/// The decimal digits of `n`, most significant first.
pub open spec fn dec_digits(n: nat) -> Seq<u8>
    decreases n,
{
    if n < 10 {
        seq![(48 + n) as u8]
    } else {
        dec_digits(n / 10).push((48 + (n % 10)) as u8)
    }
}

/// Appends the decimal rendering of `n`.
fn push_dec(out: &mut Vec<u8>, n: u64)
    ensures
        final(out)@ == old(out)@ + dec_digits(n as nat),
    decreases n,
{
    if n < 10 {
        out.push(48 + (n as u8));
        proof {
            assert(out@ =~= old(out)@ + dec_digits(n as nat));
        }
    } else {
        let ghost pre = out@;
        push_dec(out, n / 10);
        out.push(48 + ((n % 10) as u8));
        proof {
            assert(out@ =~= pre + dec_digits(n as nat));
        }
    }
}

/// One output line: the hop's ASN, its count of distinct paths, and the
/// fraction of all distinct paths it covers as `u.ht` (units, then two
/// decimal places), ending in a line feed.
pub open spec fn row_bytes(row: RankedRow) -> Seq<u8> {
    let h = hundredths_of(row.count, row.total);
    dec_digits(row.asn as nat) + seq![44u8] + dec_digits(row.count as nat) + seq![44u8]
        + dec_digits((h / 100) as nat) + seq![
        46u8,
        (48 + ((h / 10) % 10)) as u8,
        (48 + (h % 10)) as u8,
        10u8,
    ]
}

/// The whole table, one line per row, in table order.
pub open spec fn table_bytes(rows: Seq<RankedRow>) -> Seq<u8>
    decreases rows.len(),
{
    if rows.len() == 0 {
        Seq::empty()
    } else {
        table_bytes(rows.drop_last()) + row_bytes(rows.last())
    }
}

fn render_row(out: &mut Vec<u8>, row: &RankedRow)
    requires
        row.wf(),
    ensures
        final(out)@ == old(out)@ + row_bytes(*row),
{
    let ghost pre = out@;
    push_dec(out, row.asn);
    out.push(44);
    push_dec(out, row.count);
    out.push(44);
    let h = row.fraction_hundredths();
    push_dec(out, h / 100);
    out.push(46);
    out.push(48 + (((h / 10) % 10) as u8));
    out.push(48 + ((h % 10) as u8));
    out.push(10);
    proof {
        assert(out@ =~= pre + row_bytes(*row));
    }
}

/// Renders the ranked table to its byte form, row order kept.
pub fn render_table(rows: &Vec<RankedRow>) -> (r: Vec<u8>)
    requires
        forall|k: int| 0 <= k < rows@.len() ==> (#[trigger] rows@[k]).wf(),
    ensures
        r@ == table_bytes(rows@),
{
    let mut out: Vec<u8> = Vec::new();
    let n = rows.len();
    let mut i: usize = 0;
    while i < n
        invariant
            0 <= i <= n,
            n == rows@.len(),
            forall|k: int| 0 <= k < rows@.len() ==> (#[trigger] rows@[k]).wf(),
            out@ == table_bytes(rows@.take(i as int)),
        decreases n - i,
    {
        proof {
            assert(rows@.take(i + 1).drop_last() =~= rows@.take(i as int));
            assert(rows@.take(i + 1).last() == rows@[i as int]);
        }
        render_row(&mut out, &rows[i]);
        i = i + 1;
    }
    proof {
        assert(rows@.take(n as int) =~= rows@);
    }
    out
}

} // verus!
