//! Decoded routing-table records, admissibility for a target origin ASN,
//! and the per-day set of distinct admissible paths.
use vstd::prelude::*;
use crate::paths::MARKER;

verus! {

/// What a decoded routing-table entry announces.
#[derive(Clone, Copy, Debug, PartialEq, Eq)]
pub enum RecordKind {
    /// A full-table route announcement.
    Announcement,
    /// A route withdrawal.
    Withdrawal,
    /// Anything else a dump may carry.
    Other,
}

/// One decoded routing-table entry, reduced to the fields the pipeline
/// reads: the declared originator, the raw AS-path string if any, and the
/// kind of entry.
#[derive(Clone, Debug)]
pub struct RawRecord {
    pub origin_asn: u64,
    pub as_path: Option<Vec<u8>>,
    pub kind: RecordKind,
}

/// The raw path of a record, as a byte sequence (meaningful when present).
pub open spec fn path_view(rec: RawRecord) -> Seq<u8> {
    rec.as_path->0@
}

/// A record is admissible for `origin` when it is a full-table
/// announcement, declares `origin` as its originator, carries a path, and
/// that path holds no AS-SET aggregation marker.
pub open spec fn spec_admissible(rec: RawRecord, origin: u64) -> bool {
    &&& rec.kind is Announcement
    &&& rec.origin_asn == origin
    &&& rec.as_path is Some
    &&& !path_view(rec).contains(MARKER)
}

/// The distinct admissible paths of `records` for `origin`, in order of
/// first appearance.
pub open spec fn spec_collect(records: Seq<RawRecord>, origin: u64) -> Seq<Seq<u8>>
    decreases records.len(),
{
    if records.len() == 0 {
        Seq::empty()
    } else {
        let prev = spec_collect(records.drop_last(), origin);
        let rec = records.last();
        if spec_admissible(rec, origin) && !prev.contains(path_view(rec)) {
            prev.push(path_view(rec))
        } else {
            prev
        }
    }
}

/// Maps a record to its path when it is admissible for `origin`, and to
/// nothing otherwise; rejection is silent.
pub fn extract_path(rec: RawRecord, origin: u64) -> (r: Option<Vec<u8>>)
    ensures
        r is Some <==> spec_admissible(rec, origin),
        r matches Some(p) ==> p@ == path_view(rec),
{
    if rec.origin_asn != origin {
        return None;
    }
    match rec.kind {
        RecordKind::Announcement => (),
        _ => {
            return None;
        },
    }
    match rec.as_path {
        None => None,
        Some(p) => {
            if crate::paths::contains_marker(p.as_slice()) {
                None
            } else {
                Some(p)
            }
        },
    }
}

/// Whether two byte strings are equal.
fn bytes_eq(a: &[u8], b: &[u8]) -> (r: bool)
    ensures
        r == (a@ == b@),
{
    if a.len() != b.len() {
        return false;
    }
    let mut i: usize = 0;
    while i < a.len()
        invariant
            0 <= i <= a.len(),
            a.len() == b.len(),
            forall|j: int| 0 <= j < i ==> a@[j] == b@[j],
        decreases a.len() - i,
    {
        if a[i] != b[i] {
            return false;
        }
        i = i + 1;
    }
    proof {
        assert(a@ =~= b@);
    }
    true
}

/// The set of distinct admissible paths seen on one day. Distinctness is
/// exact: the same hops in another order are another path. No member holds
/// an aggregation marker, and every member is distinct from every other.
pub struct PathSet {
    pub paths: Vec<Vec<u8>>,
}

impl PathSet {
    /// The members, in order of first insertion.
    pub open spec fn view_seq(self) -> Seq<Seq<u8>> {
        self.paths@.map_values(|p: Vec<u8>| p@)
    }

    pub open spec fn spec_contains(self, p: Seq<u8>) -> bool {
        self.view_seq().contains(p)
    }

    /// Members are pairwise distinct and free of aggregation markers.
    pub open spec fn wf(self) -> bool {
        &&& forall|i: int, j: int|
            0 <= i < j < self.paths@.len() ==> self.paths@[i]@ != self.paths@[j]@
        &&& forall|i: int| 0 <= i < self.paths@.len() ==> !(#[trigger] self.paths@[i]@).contains(
            MARKER,
        )
    }

    pub fn new() -> (r: PathSet)
        ensures
            r.wf(),
            r.view_seq() == Seq::<Seq<u8>>::empty(),
    {
        let r = PathSet { paths: Vec::new() };
        proof {
            assert(r.view_seq() =~= Seq::<Seq<u8>>::empty());
        }
        r
    }

    pub fn len(&self) -> (r: usize)
        ensures
            r == self.view_seq().len(),
    {
        self.paths.len()
    }

    fn index_of(&self, p: &Vec<u8>) -> (r: Option<usize>)
        ensures
            r is Some <==> self.spec_contains(p@),
    {
        let mut i: usize = 0;
        while i < self.paths.len()
            invariant
                0 <= i <= self.paths@.len(),
                forall|j: int| 0 <= j < i ==> self.paths@[j]@ != p@,
            decreases self.paths@.len() - i,
        {
            if bytes_eq(self.paths[i].as_slice(), p.as_slice()) {
                proof {
                    assert(self.view_seq()[i as int] == p@);
                }
                return Some(i);
            }
            i = i + 1;
        }
        proof {
            if self.spec_contains(p@) {
                let w = choose|w: int|
                    0 <= w < self.view_seq().len() && self.view_seq()[w] == p@;
                assert(self.paths@[w]@ == p@);
            }
        }
        None
    }

    /// Inserts a path; a duplicate of a member collapses into it.
    pub fn insert(&mut self, p: Vec<u8>)
        requires
            old(self).wf(),
            !p@.contains(MARKER),
        ensures
            final(self).wf(),
            old(self).spec_contains(p@) ==> final(self).view_seq() == old(self).view_seq(),
            !old(self).spec_contains(p@) ==> final(self).view_seq() == old(self).view_seq().push(
                p@,
            ),
    {
        match self.index_of(&p) {
            Some(_) => (),
            None => {
                let ghost prev = self.view_seq();
                self.paths.push(p);
                proof {
                    assert(self.view_seq() =~= prev.push(p@));
                    assert forall|i: int, j: int|
                        0 <= i < j < self.paths@.len() implies self.paths@[i]@
                        != self.paths@[j]@ by {
                        if j == self.paths@.len() - 1 {
                            assert(prev[i] == self.paths@[i]@);
                        }
                    }
                }
            },
        }
    }
}

/// Builds the day's set of distinct admissible paths from the combined,
/// unordered record stream: exactly the distinct admissible paths of
/// `records` for `origin`, in order of first appearance.
pub fn build_path_set(records: Vec<RawRecord>, origin: u64) -> (r: PathSet)
    ensures
        r.wf(),
        r.view_seq() == spec_collect(records@, origin),
{
    let mut set = PathSet::new();
    let mut rest = records;
    let ghost all = rest@;
    proof {
        assert(all.take(0) =~= Seq::<RawRecord>::empty());
    }
    let n = rest.len();
    let mut i: usize = 0;
    // Consume the records front to back, keeping each admissible path.
    while i < n
        invariant
            0 <= i <= n,
            n == all.len(),
            rest@ =~= all.skip(i as int),
            set.wf(),
            set.view_seq() == spec_collect(all.take(i as int), origin),
        decreases n - i,
    {
        let rec = rest.remove(0);
        proof {
            assert(rec == all[i as int]);
            assert(rest@ =~= all.skip(i + 1));
            assert(all.take(i + 1).drop_last() =~= all.take(i as int));
            assert(all.take(i + 1).last() == all[i as int]);
        }
        match extract_path(rec, origin) {
            None => (),
            Some(p) => {
                set.insert(p);
            },
        }
        i = i + 1;
    }
    proof {
        assert(all.take(n as int) =~= all);
    }
    set
}

} // verus!
