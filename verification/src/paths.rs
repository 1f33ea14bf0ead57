//! Raw AS-path strings: hop tokens, the aggregation marker, and parsing
//! a path into its sequence of hop ASNs.
//!
//! A raw path is a byte string of hop tokens separated by single spaces,
//! as a routing-table dump renders it. A token is a decimal ASN; a path
//! holding an AS-SET aggregation marker is never admitted, and a token
//! that is not a decimal ASN is a fatal data-integrity fault for the run.
use vstd::prelude::*;

verus! {

/// The byte that separates hop tokens in a raw path string (a space).
pub const SEPARATOR: u8 = 32;

/// The byte that opens an AS-SET aggregation marker in a raw path string.
pub const MARKER: u8 = 123;

pub open spec fn is_digit(b: u8) -> bool {
    48 <= b && b <= 57
}

pub open spec fn all_digits(t: Seq<u8>) -> bool {
    forall|i: int| 0 <= i < t.len() ==> is_digit(#[trigger] t[i])
}

/// The number a sequence of decimal digit bytes denotes.
pub open spec fn digits_value(t: Seq<u8>) -> nat
    decreases t.len(),
{
    if t.len() == 0 {
        0
    } else {
        digits_value(t.drop_last()) * 10 + ((t.last() - 48) as nat)
    }
}

/// A hop token is admissible as an ASN when it is a non-empty run of
/// decimal digits whose value fits the hop identifier type.
pub open spec fn is_asn_token(t: Seq<u8>) -> bool {
    &&& t.len() > 0
    &&& all_digits(t)
    &&& digits_value(t) <= u64::MAX
}

/// Index of the first separator byte in `s`, or `s.len()` if there is none.
pub open spec fn first_sep(s: Seq<u8>) -> nat
    decreases s.len(),
{
    if s.len() == 0 {
        0
    } else if s[0] == SEPARATOR {
        0
    } else {
        1 + first_sep(s.skip(1))
    }
}

/// The hop tokens of a raw path, in order: maximal separator-free runs.
pub open spec fn tokens_of(s: Seq<u8>) -> Seq<Seq<u8>>
    decreases s.len(),
{
    let i = first_sep(s) as int;
    if i >= s.len() {
        seq![s]
    } else {
        seq![s.take(i)] + tokens_of(s.skip(i + 1))
    }
}

/// Every hop token of the path parses as an ASN.
pub open spec fn path_ok(s: Seq<u8>) -> bool
    decreases s.len(),
{
    let i = first_sep(s) as int;
    if i >= s.len() {
        is_asn_token(s)
    } else {
        is_asn_token(s.take(i)) && path_ok(s.skip(i + 1))
    }
}

/// The hop ASNs of the path, in path order (meaningful when `path_ok` holds).
pub open spec fn hops_of(s: Seq<u8>) -> Seq<u64>
    decreases s.len(),
{
    let i = first_sep(s) as int;
    if i >= s.len() {
        seq![digits_value(s) as u64]
    } else {
        seq![digits_value(s.take(i)) as u64] + hops_of(s.skip(i + 1))
    }
}

pub proof fn lemma_first_sep(s: Seq<u8>)
    ensures
        first_sep(s) <= s.len(),
        forall|j: int| 0 <= j < first_sep(s) ==> s[j] != SEPARATOR,
        first_sep(s) < s.len() ==> s[first_sep(s) as int] == SEPARATOR,
    decreases s.len(),
{
    if s.len() == 0 {
    } else if s[0] == SEPARATOR {
    } else {
        lemma_first_sep(s.skip(1));
        assert forall|j: int| 0 <= j < first_sep(s) implies s[j] != SEPARATOR by {
            if j > 0 {
                assert(s.skip(1)[j - 1] == s[j]);
            }
        }
        if first_sep(s) < s.len() {
            assert(s.skip(1)[first_sep(s) as int - 1] == s[first_sep(s) as int]);
        }
    }
}

/// A position with no separator before it, and a separator (or the end)
/// at it, is exactly `first_sep`.
pub proof fn lemma_first_sep_at(s: Seq<u8>, k: int)
    requires
        0 <= k <= s.len(),
        forall|j: int| 0 <= j < k ==> s[j] != SEPARATOR,
        k < s.len() ==> s[k] == SEPARATOR,
    ensures
        first_sep(s) == k,
    decreases s.len(),
{
    if s.len() == 0 {
    } else if k == 0 {
        if s[0] != SEPARATOR {
            lemma_first_sep(s);
        }
    } else {
        assert(s[0] != SEPARATOR);
        assert forall|j: int| 0 <= j < k - 1 implies s.skip(1)[j] != SEPARATOR by {
            assert(s.skip(1)[j] == s[j + 1]);
        }
        if k - 1 < s.skip(1).len() {
            assert(s.skip(1)[k - 1] == s[k]);
        }
        lemma_first_sep_at(s.skip(1), k - 1);
    }
}

/// Extending an all-digit token cannot shrink its value.
pub proof fn lemma_digits_value_prefix(t: Seq<u8>, k: int)
    requires
        0 <= k <= t.len(),
    ensures
        digits_value(t) >= digits_value(t.take(k)),
    decreases t.len() - k,
{
    if k == t.len() {
        assert(t.take(k) =~= t);
    } else {
        lemma_digits_value_prefix(t, k + 1);
        let p = t.take(k + 1);
        assert(p.drop_last() =~= t.take(k));
        assert(digits_value(p) == digits_value(t.take(k)) * 10 + ((p.last() - 48) as nat));
        assert(digits_value(t.take(k)) * 10 >= digits_value(t.take(k))) by (nonlinear_arith);
    }
}

/// Whether the path holds an AS-SET aggregation marker byte.
pub fn contains_marker(s: &[u8]) -> (r: bool)
    ensures
        r == s@.contains(MARKER),
{
    let mut i: usize = 0;
    while i < s.len()
        invariant
            0 <= i <= s.len(),
            forall|j: int| 0 <= j < i ==> s@[j] != MARKER,
        decreases s.len() - i,
    {
        if s[i] == MARKER {
            return true;
        }
        i = i + 1;
    }
    assert(!s@.contains(MARKER)) by {
        if s@.contains(MARKER) {
            let w = choose|w: int| 0 <= w < s@.len() && s@[w] == MARKER;
            assert(s@[w] != MARKER);
        }
    }
    false
}

/// End of the hop token that starts at `start`: the next separator, or the
/// end of the path.
fn token_end(s: &[u8], start: usize) -> (end: usize)
    requires
        start <= s.len(),
    ensures
        start <= end <= s.len(),
        end - start == first_sep(s@.skip(start as int)),
{
    let mut end: usize = start;
    while end < s.len() && s[end] != SEPARATOR
        invariant
            start <= end <= s.len(),
            forall|j: int| start <= j < end ==> s@[j] != SEPARATOR,
        decreases s.len() - end,
    {
        end = end + 1;
    }
    proof {
        let ss = s@.skip(start as int);
        assert forall|j: int| 0 <= j < end - start implies ss[j] != SEPARATOR by {
            assert(ss[j] == s@[start + j]);
        }
        if end - start < ss.len() {
            assert(ss[end - start] == s@[end as int]);
        }
        lemma_first_sep_at(ss, end - start);
    }
    end
}

/// Parse the hop token `s[start..end]` as a decimal ASN.
fn parse_asn_token(s: &[u8], start: usize, end: usize) -> (r: Option<u64>)
    requires
        start <= end <= s.len(),
    ensures
        match r {
            Some(v) => is_asn_token(s@.subrange(start as int, end as int)) && v
                == digits_value(s@.subrange(start as int, end as int)),
            None => !is_asn_token(s@.subrange(start as int, end as int)),
        },
{
    let ghost t = s@.subrange(start as int, end as int);
    if start == end {
        return None;
    }
    let mut acc: u64 = 0;
    let mut j: usize = start;
    while j < end
        invariant
            start <= j <= end <= s.len(),
            t == s@.subrange(start as int, end as int),
            all_digits(t.take(j - start)),
            acc == digits_value(t.take(j - start)),
        decreases end - j,
    {
        let b = s[j];
        proof {
            assert(t[j - start] == s@[j as int]);
            assert(t.take(j - start + 1).drop_last() =~= t.take(j - start));
            assert(t.take(j - start + 1).last() == t[j - start]);
        }
        if b < 48 || b > 57 {
            proof {
                assert(!is_digit(t[j - start]));
            }
            return None;
        }
        let d = (b - 48) as u64;
        let shifted = match acc.checked_mul(10) {
            Some(x) => x,
            None => {
                proof {
                    lemma_overflow_means_invalid(t, j - start);
                }
                return None;
            },
        };
        let next = match shifted.checked_add(d) {
            Some(x) => x,
            None => {
                proof {
                    lemma_overflow_means_invalid(t, j - start);
                }
                return None;
            },
        };
        acc = next;
        j = j + 1;
    }
    proof {
        assert(t.take(end - start) =~= t);
    }
    Some(acc)
}

/// If the value of a token's digits already exceeds the hop type after
/// some prefix, the whole token is not an admissible ASN.
proof fn lemma_overflow_means_invalid(t: Seq<u8>, k: int)
    requires
        0 <= k < t.len(),
        is_digit(t[k]),
        all_digits(t.take(k)),
        digits_value(t.take(k)) * 10 + ((t[k] - 48) as nat) > u64::MAX,
    ensures
        !is_asn_token(t),
{
    if all_digits(t) {
        assert(t.take(k + 1).drop_last() =~= t.take(k));
        assert(t.take(k + 1).last() == t[k]);
        assert(digits_value(t.take(k + 1)) > u64::MAX);
        lemma_digits_value_prefix(t, k + 1);
    }
}

/// Parse every hop token of `s[start..]`; on the first token that is not
/// an ASN, return that token.
fn parse_path_from(s: &[u8], start: usize) -> (r: Result<Vec<u64>, Vec<u8>>)
    requires
        start <= s.len(),
    ensures
        match r {
            Ok(h) => path_ok(s@.skip(start as int)) && h@ == hops_of(s@.skip(start as int)),
            Err(t) => {
                &&& !path_ok(s@.skip(start as int))
                &&& !is_asn_token(t@)
                &&& exists|i: int|
                    0 <= i < tokens_of(s@.skip(start as int)).len() && tokens_of(
                        s@.skip(start as int),
                    )[i] == t@
            },
        },
    decreases s.len() - start,
{
    let ghost ss = s@.skip(start as int);
    let end = token_end(s, start);
    let ghost tok = s@.subrange(start as int, end as int);
    proof {
        assert(tok =~= ss.take(end - start));
        if end == s.len() {
            assert(tok =~= ss);
        }
    }
    match parse_asn_token(s, start, end) {
        None => {
            let mut bad: Vec<u8> = Vec::new();
            let mut j: usize = start;
            while j < end
                invariant
                    start <= j <= end <= s.len(),
                    bad@ == s@.subrange(start as int, j as int),
                decreases end - j,
            {
                bad.push(s[j]);
                proof {
                    assert(bad@ =~= s@.subrange(start as int, j + 1));
                }
                j = j + 1;
            }
            proof {
                if end == s.len() {
                    assert(tokens_of(ss)[0] == ss);
                } else {
                    assert(tokens_of(ss)[0] == ss.take(end - start));
                }
            }
            Err(bad)
        },
        Some(v) => {
            if end == s.len() {
                let mut h: Vec<u64> = Vec::new();
                h.push(v);
                proof {
                    assert(h@ =~= hops_of(ss));
                }
                Ok(h)
            } else {
                proof {
                    assert(ss.skip(end - start + 1) =~= s@.skip(end + 1));
                }
                match parse_path_from(s, end + 1) {
                    Ok(mut rest) => {
                        rest.insert(0, v);
                        proof {
                            assert(rest@ =~= hops_of(ss));
                        }
                        Ok(rest)
                    },
                    Err(t) => {
                        proof {
                            let i = choose|i: int|
                                0 <= i < tokens_of(s@.skip(end + 1)).len() && #[trigger] tokens_of(
                                    s@.skip(end + 1),
                                )[i] == t@;
                            assert(tokens_of(ss)[i + 1] == tokens_of(s@.skip(end + 1))[i]);
                        }
                        Err(t)
                    },
                }
            }
        },
    }
}

/// Parse a raw path into its hop ASNs, in path order. A path always has at
/// least one hop token; the first token that is not a decimal ASN is
/// returned as the fault, so a caller can surface it in a diagnostic.
pub fn parse_path(s: &[u8]) -> (r: Result<Vec<u64>, Vec<u8>>)
    ensures
        match r {
            Ok(h) => path_ok(s@) && h@ == hops_of(s@) && h@.len() >= 1,
            Err(t) => {
                &&& !path_ok(s@)
                &&& !is_asn_token(t@)
                &&& exists|i: int| 0 <= i < tokens_of(s@).len() && tokens_of(s@)[i] == t@
            },
        },
{
    proof {
        assert(s@.skip(0) =~= s@);
        lemma_hops_len(s@);
    }
    parse_path_from(s, 0)
}

/// A path always parses to at least one hop.
pub proof fn lemma_hops_len(s: Seq<u8>)
    ensures
        hops_of(s).len() >= 1,
    decreases s.len(),
{
    let i = first_sep(s) as int;
    if i < s.len() {
        lemma_hops_len(s.skip(i + 1));
    }
}

} // verus!
