use vstd::prelude::*;

use crate::bytes::{bytes_eq, bytes_of};

verus! {

/// A finite map from byte strings to byte strings, kept as two parallel
/// vectors with distinct keys.
pub struct ByteMap {
    keys: Vec<Vec<u8>>,
    vals: Vec<Vec<u8>>,
    model: Ghost<Map<Seq<u8>, Seq<u8>>>,
}

impl View for ByteMap {
    type V = Map<Seq<u8>, Seq<u8>>;

    closed spec fn view(&self) -> Map<Seq<u8>, Seq<u8>> {
        self.model@
    }
}

impl ByteMap {
    /// The vectors agree with the abstract map, and no key appears twice.
    pub closed spec fn wf(&self) -> bool {
        &&& self.keys@.len() == self.vals@.len()
        &&& self.model@.dom().finite()
        &&& self.model@.dom().len() == self.keys@.len()
        &&& forall|i: int, j: int|
            0 <= i < j < self.keys@.len() ==> #[trigger] self.keys@[i]@ != #[trigger] self.keys@[j]@
        &&& forall|i: int|
            0 <= i < self.keys@.len() ==> self.model@.contains_key(#[trigger] self.keys@[i]@)
                && self.model@[self.keys@[i]@] == self.vals@[i]@
        &&& forall|k: Seq<u8>|
            #[trigger] self.model@.contains_key(k) ==> exists|i: int|
                0 <= i < self.keys@.len() && #[trigger] self.keys@[i]@ == k
    }

    /// The number of entries.
    pub closed spec fn size(&self) -> nat {
        self.keys@.len()
    }

    pub fn new() -> (r: ByteMap)
        ensures
            r.wf(),
            r@ == Map::<Seq<u8>, Seq<u8>>::empty(),
            r.size() == 0,
    {
        ByteMap { keys: Vec::new(), vals: Vec::new(), model: Ghost(Map::empty()) }
    }

    pub fn len(&self) -> (r: usize)
        requires
            self.wf(),
        ensures
            r == self.size(),
            r == self@.dom().len(),
    {
        self.keys.len()
    }

    fn find(&self, k: &[u8]) -> (r: Option<usize>)
        requires
            self.wf(),
        ensures
            r matches Some(i) ==> i < self.keys@.len() && self.keys@[i as int]@ == k@,
            r is None ==> !self@.contains_key(k@),
    {
        let mut i: usize = 0;
        while i < self.keys.len()
            invariant
                self.wf(),
                i <= self.keys@.len(),
                forall|j: int| 0 <= j < i ==> self.keys@[j]@ != k@,
            decreases self.keys@.len() - i,
        {
            if bytes_eq(self.keys[i].as_slice(), k) {
                return Some(i);
            }
            i = i + 1;
        }
        None
    }

    pub fn contains(&self, k: &[u8]) -> (r: bool)
        requires
            self.wf(),
        ensures
            r == self@.contains_key(k@),
    {
        match self.find(k) {
            Some(_) => true,
            None => false,
        }
    }

    pub fn get(&self, k: &[u8]) -> (r: Option<&Vec<u8>>)
        requires
            self.wf(),
        ensures
            r matches Some(v) ==> self@.contains_key(k@) && self@[k@] == v@,
            r is None ==> !self@.contains_key(k@),
    {
        match self.find(k) {
            Some(i) => Some(&self.vals[i]),
            None => None,
        }
    }

    pub fn insert(&mut self, k: &[u8], v: Vec<u8>)
        requires
            old(self).wf(),
        ensures
            final(self).wf(),
            final(self)@ == old(self)@.insert(k@, v@),
    {
        match self.find(k) {
            Some(i) => {
                self.vals[i] = v;
                self.model = Ghost(self.model@.insert(k@, self.vals@[i as int]@));
            },
            None => {
                self.keys.push(bytes_of(k));
                self.vals.push(v);
                self.model = Ghost(self.model@.insert(k@, self.vals@.last()@));
                assert forall|i: int, j: int|
                    0 <= i < j < self.keys@.len() implies #[trigger] self.keys@[i]@
                    != #[trigger] self.keys@[j]@ by {
                    if j == self.keys@.len() - 1 {
                        assert(old(self)@.contains_key(self.keys@[i]@));
                    }
                }
                assert forall|key: Seq<u8>| #[trigger]
                    self.model@.contains_key(key) implies exists|i: int|
                    0 <= i < self.keys@.len() && #[trigger] self.keys@[i]@ == key by {
                    if key == k@ {
                        assert(self.keys@[self.keys@.len() - 1]@ == key);
                    } else {
                        assert(old(self)@.contains_key(key));
                        let i = choose|i: int|
                            0 <= i < old(self).keys@.len() && #[trigger] old(self).keys@[i]@ == key;
                        assert(self.keys@[i]@ == key);
                    }
                }
            },
        }
        assert(self.model@ =~= old(self)@.insert(k@, v@));
    }

    pub fn remove(&mut self, k: &[u8])
        requires
            old(self).wf(),
        ensures
            final(self).wf(),
            final(self)@ == old(self)@.remove(k@),
    {
        match self.find(k) {
            Some(i) => {
                self.keys.remove(i);
                self.vals.remove(i);
                self.model = Ghost(self.model@.remove(k@));
                let ghost ok = old(self).keys@;
                assert forall|a: int, b: int|
                    0 <= a < b < self.keys@.len() implies #[trigger] self.keys@[a]@
                    != #[trigger] self.keys@[b]@ by {
                    let oa = if a < i { a } else { a + 1 };
                    let ob = if b < i { b } else { b + 1 };
                    assert(self.keys@[a] == ok[oa]);
                    assert(self.keys@[b] == ok[ob]);
                }
                assert forall|a: int| 0 <= a < self.keys@.len() implies self.model@.contains_key(
                    #[trigger] self.keys@[a]@,
                ) && self.model@[self.keys@[a]@] == self.vals@[a]@ by {
                    let oa = if a < i { a } else { a + 1 };
                    assert(self.keys@[a] == ok[oa]);
                    assert(self.vals@[a] == old(self).vals@[oa]);
                    assert(ok[oa]@ != ok[i as int]@);
                }
                assert forall|key: Seq<u8>| #[trigger]
                    self.model@.contains_key(key) implies exists|a: int|
                    0 <= a < self.keys@.len() && #[trigger] self.keys@[a]@ == key by {
                    let oa = choose|oa: int| 0 <= oa < ok.len() && #[trigger] ok[oa]@ == key;
                    assert(oa != i);
                    let a = if oa < i { oa } else { oa - 1 };
                    assert(self.keys@[a] == ok[oa]);
                }
            },
            None => {
                assert(self.model@ =~= old(self)@.remove(k@));
            },
        }
    }

    /// Every key, each once.
    pub fn keys(&self) -> (r: Vec<Vec<u8>>)
        requires
            self.wf(),
        ensures
            r@.len() == self.size(),
            forall|i: int| 0 <= i < r@.len() ==> self@.contains_key(#[trigger] r@[i]@),
            forall|k: Seq<u8>| #[trigger] self@.contains_key(k) ==> exists|i: int|
                0 <= i < r@.len() && #[trigger] r@[i]@ == k,
    {
        let mut r: Vec<Vec<u8>> = Vec::new();
        let mut i: usize = 0;
        while i < self.keys.len()
            invariant
                self.wf(),
                i <= self.keys@.len(),
                r@.len() == i,
                forall|j: int| 0 <= j < i ==> #[trigger] r@[j]@ == self.keys@[j]@,
            decreases self.keys@.len() - i,
        {
            r.push(bytes_of(self.keys[i].as_slice()));
            i = i + 1;
        }
        assert forall|k: Seq<u8>| #[trigger] self@.contains_key(k) implies exists|j: int|
            0 <= j < r@.len() && #[trigger] r@[j]@ == k by {
            let j = choose|j: int| 0 <= j < self.keys@.len() && #[trigger] self.keys@[j]@ == k;
            assert(r@[j]@ == k);
        }
        r
    }

    /// The entry at a position of the underlying vectors.
    pub fn entry_at(&self, i: usize) -> (r: (&[u8], &[u8]))
        requires
            self.wf(),
            i < self.size(),
        ensures
            self@.contains_key(r.0@),
            self@[r.0@] == r.1@,
    {
        (self.keys[i].as_slice(), self.vals[i].as_slice())
    }
}

} // verus!
