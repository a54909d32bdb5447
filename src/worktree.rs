use vstd::prelude::*;

use crate::codec::{fingerprint, hash_object, ObjectKind};
use crate::index::{entries_view, latest_entry, latest_in, live, StagingEntry};
use crate::bytes::bytes_of;
use crate::repo::Repository;

verus! {

/// Working files whose path has no staged entry, in the order given.
pub open spec fn untracked_of(s: Seq<(Seq<u8>, Seq<u8>)>, w: Seq<(Seq<u8>, Seq<u8>)>) -> Seq<Seq<u8>>
    decreases w.len(),
{
    if w.len() == 0 {
        Seq::empty()
    } else if latest_in(s, w.last().1) is None {
        untracked_of(s, w.drop_last()).push(w.last().1)
    } else {
        untracked_of(s, w.drop_last())
    }
}

/// Working files whose content differs from their latest staged entry, in
/// the order given.
pub open spec fn modified_of(s: Seq<(Seq<u8>, Seq<u8>)>, w: Seq<(Seq<u8>, Seq<u8>)>) -> Seq<Seq<u8>>
    decreases w.len(),
{
    if w.len() == 0 {
        Seq::empty()
    } else if latest_in(s, w.last().1) is Some && latest_in(s, w.last().1) != Some(w.last().0) {
        modified_of(s, w.drop_last()).push(w.last().1)
    } else {
        modified_of(s, w.drop_last())
    }
}

/// Live staged entries whose working file exists with other content, in
/// index order.
pub open spec fn changed_of(l: Seq<(Seq<u8>, Seq<u8>)>, w: Seq<(Seq<u8>, Seq<u8>)>) -> Seq<Seq<u8>>
    decreases l.len(),
{
    if l.len() == 0 {
        Seq::empty()
    } else if latest_in(w, l.last().1) is Some && latest_in(w, l.last().1) != Some(l.last().0) {
        changed_of(l.drop_last(), w).push(l.last().1)
    } else {
        changed_of(l.drop_last(), w)
    }
}

pub open spec fn paths_view(v: Seq<Vec<u8>>) -> Seq<Seq<u8>> {
    Seq::new(v.len(), |i: int| v[i]@)
}

/// The state of the working directory against the index.
#[derive(Debug)]
pub struct Status {
    pub untracked: Vec<Vec<u8>>,
    pub modified: Vec<Vec<u8>>,
}

/// The blob id a file with this content gets.
pub fn compute_file_hash(content: &[u8]) -> (r: crate::object_id::ObjectId)
    ensures
        r@ == fingerprint(ObjectKind::Blob, content@),
{
    hash_object(ObjectKind::Blob, content)
}

impl Repository {
    /// Classifies working files, each given as its blob id and path: paths
    /// never staged are untracked; paths whose latest staged content differs
    /// are modified.
    pub fn status(&self, working: &Vec<StagingEntry>) -> (r: Status)
        ensures
            paths_view(r.untracked@) == untracked_of(self@.staged, entries_view(working@)),
            paths_view(r.modified@) == modified_of(self@.staged, entries_view(working@)),
    {
        let ghost w = entries_view(working@);
        let ghost s = self@.staged;
        let mut untracked: Vec<Vec<u8>> = Vec::new();
        let mut modified: Vec<Vec<u8>> = Vec::new();
        let mut i: usize = 0;
        while i < working.len()
            invariant
                w == entries_view(working@),
                s == self@.staged,
                i <= w.len(),
                paths_view(untracked@) == untracked_of(s, w.subrange(0, i as int)),
                paths_view(modified@) == modified_of(s, w.subrange(0, i as int)),
            decreases w.len() - i,
        {
            let e = &working[i];
            proof {
                assert(w.subrange(0, i + 1).drop_last() =~= w.subrange(0, i as int));
                assert(w[i as int] == e@);
            }
            let ghost u0 = paths_view(untracked@);
            let ghost m0 = paths_view(modified@);
            match self.index().get_latest_staged_hash(e.path.as_slice()) {
                None => {
                    untracked.push(bytes_of(e.path.as_slice()));
                    assert(paths_view(untracked@) =~= u0.push(e.path@));
                },
                Some(staged) => {
                    if !staged.same(&e.id) {
                        modified.push(bytes_of(e.path.as_slice()));
                        assert(paths_view(modified@) =~= m0.push(e.path@));
                    }
                },
            }
            i = i + 1;
        }
        assert(w.subrange(0, i as int) =~= w);
        Status { untracked, modified }
    }

    /// The paths of live staged entries whose working file, given as its blob
    /// id and path, now has other content.
    pub fn diff(&self, working: &Vec<StagingEntry>) -> (r: Vec<Vec<u8>>)
        ensures
            paths_view(r@) == changed_of(live(self@.staged), entries_view(working@)),
    {
        let entries = self.index().live_entries();
        let ghost l = entries_view(entries@);
        let ghost w = entries_view(working@);
        let mut out: Vec<Vec<u8>> = Vec::new();
        let mut i: usize = 0;
        while i < entries.len()
            invariant
                l == entries_view(entries@),
                l == live(self@.staged),
                w == entries_view(working@),
                i <= l.len(),
                paths_view(out@) == changed_of(l.subrange(0, i as int), w),
            decreases l.len() - i,
        {
            let e = &entries[i];
            proof {
                assert(l.subrange(0, i + 1).drop_last() =~= l.subrange(0, i as int));
                assert(l[i as int] == e@);
            }
            let ghost o0 = paths_view(out@);
            match latest_entry(working, e.path.as_slice()) {
                Some(current) => {
                    if !current.same(&e.id) {
                        out.push(bytes_of(e.path.as_slice()));
                        assert(paths_view(out@) =~= o0.push(e.path@));
                    }
                },
                None => {},
            }
            i = i + 1;
        }
        assert(l.subrange(0, i as int) =~= l);
        out
    }
}

} // verus!
