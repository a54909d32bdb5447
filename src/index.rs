use vstd::prelude::*;

use crate::bytes::{bytes_eq, bytes_of};
use crate::object_id::ObjectId;

verus! {

/// One staged file: the blob id of its content and its path.
#[derive(Debug)]
pub struct StagingEntry {
    pub id: ObjectId,
    pub path: Vec<u8>,
}

impl View for StagingEntry {
    type V = (Seq<u8>, Seq<u8>);

    open spec fn view(&self) -> (Seq<u8>, Seq<u8>) {
        (self.id@, self.path@)
    }
}

impl StagingEntry {
    /// An independent copy of this entry.
    pub fn duplicate(&self) -> (r: StagingEntry)
        ensures
            r@ == self@,
    {
        StagingEntry { id: self.id.duplicate(), path: bytes_of(self.path.as_slice()) }
    }
}

/// The views of a sequence of entries.
pub open spec fn entries_view(v: Seq<StagingEntry>) -> Seq<(Seq<u8>, Seq<u8>)> {
    Seq::new(v.len(), |i: int| v[i]@)
}

/// The id of the most recently appended entry for path `p`.
pub open spec fn latest_in(s: Seq<(Seq<u8>, Seq<u8>)>, p: Seq<u8>) -> Option<Seq<u8>>
    decreases s.len(),
{
    if s.len() == 0 {
        None
    } else if s.last().1 == p {
        Some(s.last().0)
    } else {
        latest_in(s.drop_last(), p)
    }
}

/// Some entry of `s` is for path `p`.
pub open spec fn has_path(s: Seq<(Seq<u8>, Seq<u8>)>, p: Seq<u8>) -> bool {
    exists|j: int| 0 <= j < s.len() && (#[trigger] s[j]).1 == p
}

/// The entries that no later entry overrides, in index order: for each path,
/// only its most recent entry.
pub open spec fn live(s: Seq<(Seq<u8>, Seq<u8>)>) -> Seq<(Seq<u8>, Seq<u8>)>
    decreases s.len(),
{
    if s.len() == 0 {
        Seq::empty()
    } else if has_path(s.drop_first(), s[0].1) {
        live(s.drop_first())
    } else {
        seq![s[0]] + live(s.drop_first())
    }
}

/// A path or ref name: non-empty, without spaces or control bytes.
pub open spec fn valid_name(p: Seq<u8>) -> bool {
    p.len() > 0 && forall|i: int| 0 <= i < p.len() ==> #[trigger] p[i] > 32 && p[i] != 127
}

/// Whether a byte string is a valid path or ref name.
pub fn is_valid_name(p: &[u8]) -> (r: bool)
    ensures
        r == valid_name(p@),
{
    if p.len() == 0 {
        return false;
    }
    let mut i: usize = 0;
    while i < p.len()
        invariant
            i <= p@.len(),
            forall|j: int| 0 <= j < i ==> #[trigger] p@[j] > 32 && p@[j] != 127,
        decreases p@.len() - i,
    {
        if p[i] <= 32 || p[i] == 127 {
            return false;
        }
        i = i + 1;
    }
    true
}

/// The id of the last entry of `v` for `path`, if any.
pub fn latest_entry(v: &Vec<StagingEntry>, path: &[u8]) -> (r: Option<ObjectId>)
    ensures
        r matches Some(id) ==> latest_in(entries_view(v@), path@) == Some(id@),
        r is None ==> latest_in(entries_view(v@), path@) is None,
{
    let mut found: Option<ObjectId> = None;
    let mut i: usize = 0;
    let ghost s = entries_view(v@);
    while i < v.len()
        invariant
            s == entries_view(v@),
            i <= s.len(),
            found matches Some(id) ==> latest_in(s.subrange(0, i as int), path@) == Some(id@),
            found is None ==> latest_in(s.subrange(0, i as int), path@) is None,
        decreases s.len() - i,
    {
        let e = &v[i];
        assert(s.subrange(0, i + 1).drop_last() =~= s.subrange(0, i as int));
        assert(s[i as int] == e@);
        if bytes_eq(e.path.as_slice(), path) {
            found = Some(e.id.duplicate());
        }
        i = i + 1;
    }
    assert(s.subrange(0, i as int) =~= s);
    found
}

/// The staging index: every entry appended in the current cycle, in order.
pub struct StagingIndex {
    entries: Vec<StagingEntry>,
}

impl View for StagingIndex {
    type V = Seq<(Seq<u8>, Seq<u8>)>;

    closed spec fn view(&self) -> Seq<(Seq<u8>, Seq<u8>)> {
        entries_view(self.entries@)
    }
}

impl StagingIndex {
    pub fn new() -> (r: StagingIndex)
        ensures
            r@ == Seq::<(Seq<u8>, Seq<u8>)>::empty(),
    {
        let r = StagingIndex { entries: Vec::new() };
        assert(r@ =~= Seq::<(Seq<u8>, Seq<u8>)>::empty());
        r
    }

    pub fn len(&self) -> (r: usize)
        ensures
            r == self@.len(),
    {
        self.entries.len()
    }

    pub fn is_empty(&self) -> (r: bool)
        ensures
            r == (self@.len() == 0),
    {
        self.entries.len() == 0
    }

    /// Adds an entry at the end.
    pub fn append(&mut self, id: ObjectId, path: Vec<u8>)
        ensures
            final(self)@ == old(self)@.push((id@, path@)),
    {
        self.entries.push(StagingEntry { id, path });
        assert(self@ =~= old(self)@.push((id@, path@)));
    }

    /// All entries, in the order they were appended.
    pub fn all_entries(&self) -> (r: &Vec<StagingEntry>)
        ensures
            entries_view(r@) == self@,
    {
        &self.entries
    }

    /// The id most recently staged for `path`, if any.
    pub fn get_latest_staged_hash(&self, path: &[u8]) -> (r: Option<ObjectId>)
        ensures
            r matches Some(id) ==> latest_in(self@, path@) == Some(id@),
            r is None ==> latest_in(self@, path@) is None,
    {
        latest_entry(&self.entries, path)
    }

    /// Whether some entry at or after position `from` is for path `p`.
    fn path_after(&self, from: usize, p: &[u8]) -> (r: bool)
        requires
            from <= self@.len(),
        ensures
            r == has_path(self@.subrange(from as int, self@.len() as int), p@),
    {
        let ghost s = self@.subrange(from as int, self@.len() as int);
        let mut i: usize = from;
        while i < self.entries.len()
            invariant
                from <= i <= self@.len(),
                s == self@.subrange(from as int, self@.len() as int),
                forall|j: int| from <= j < i ==> (#[trigger] self@[j]).1 != p@,
            decreases self@.len() - i,
        {
            if bytes_eq(self.entries[i].path.as_slice(), p) {
                assert(s[i - from] == self@[i as int]);
                return true;
            }
            i = i + 1;
        }
        assert forall|j: int| 0 <= j < s.len() implies (#[trigger] s[j]).1 != p@ by {
            assert(s[j] == self@[j + from]);
        }
        false
    }

    /// The most recent entry of each path, in index order.
    pub fn live_entries(&self) -> (r: Vec<StagingEntry>)
        ensures
            entries_view(r@) == live(self@),
    {
        let ghost s = self@;
        let n = self.entries.len();
        let mut out: Vec<StagingEntry> = Vec::new();
        let mut i: usize = 0;
        assert(s.subrange(0, n as int) =~= s);
        while i < n
            invariant
                s == self@,
                n == s.len(),
                i <= n,
                entries_view(out@) + live(s.subrange(i as int, n as int)) == live(s),
            decreases n - i,
        {
            let e = &self.entries[i];
            let dup = self.path_after(i + 1, e.path.as_slice());
            proof {
                let t = s.subrange(i as int, n as int);
                assert(t.drop_first() =~= s.subrange(i + 1, n as int));
                assert(t[0] == e@);
            }
            if !dup {
                let ghost before = entries_view(out@);
                out.push(e.duplicate());
                assert(entries_view(out@) =~= before.push(e@));
                assert(entries_view(out@) =~= before + seq![e@]);
                assert(before + seq![e@] + live(s.subrange(i + 1, n as int)) =~= before + (seq![e@]
                    + live(s.subrange(i + 1, n as int))));
            }
            i = i + 1;
        }
        assert(live(s.subrange(n as int, n as int)) =~= Seq::<(Seq<u8>, Seq<u8>)>::empty());
        assert(entries_view(out@) + Seq::<(Seq<u8>, Seq<u8>)>::empty() =~= entries_view(out@));
        out
    }
}

} // verus!
