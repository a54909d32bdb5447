use vstd::prelude::*;

use crate::bytemap::ByteMap;
use crate::bytes::bytes_of;
use crate::codec::{
    decode, deflated, fingerprint, fingerprint_and_encode, framed, hash_object, inflated,
    lemma_unframe_framed, unframe, unframe_bytes, ObjectKind,
};
use crate::error::RepoError;
use crate::object_id::{ObjectId, DIGEST_LEN};

verus! {

/// The store after putting an object: unchanged when its id is present,
/// otherwise holding the compressed object under its id.
pub open spec fn stored_after(m: Map<Seq<u8>, Seq<u8>>, k: ObjectKind, p: Seq<u8>) -> Map<
    Seq<u8>,
    Seq<u8>,
> {
    let id = fingerprint(k, p);
    if m.contains_key(id) {
        m
    } else {
        m.insert(id, deflated(framed(k, p)))
    }
}

/// What reading object `id` as kind `k` gives: its payload, or the error.
pub open spec fn read_object(m: Map<Seq<u8>, Seq<u8>>, id: Seq<u8>, k: ObjectKind) -> Result<
    Seq<u8>,
    RepoError,
> {
    if !m.contains_key(id) {
        Err(RepoError::ObjectNotFound)
    } else {
        match inflated(m[id]) {
            None => Err(RepoError::CorruptObject),
            Some(raw) => match unframe(raw, k) {
                Some(p) => Ok(p),
                None => Err(RepoError::CorruptObject),
            },
        }
    }
}

/// The view of a byte-vector result.
pub open spec fn bytes_result(r: Result<Vec<u8>, RepoError>) -> Result<Seq<u8>, RepoError> {
    match r {
        Ok(v) => Ok(v@),
        Err(e) => Err(e),
    }
}

/// Putting the same object twice stores it once: the second put changes
/// nothing, and both return the same id.
pub proof fn lemma_put_idempotent(m: Map<Seq<u8>, Seq<u8>>, k: ObjectKind, p: Seq<u8>)
    ensures
        stored_after(stored_after(m, k, p), k, p) == stored_after(m, k, p),
        stored_after(m, k, p).contains_key(fingerprint(k, p)),
{
}

/// Content-addressed store: object id to compressed header and payload.
pub struct ObjectStore {
    objects: ByteMap,
}

impl View for ObjectStore {
    type V = Map<Seq<u8>, Seq<u8>>;

    closed spec fn view(&self) -> Map<Seq<u8>, Seq<u8>> {
        self.objects@
    }
}

impl ObjectStore {
    pub closed spec fn wf(&self) -> bool {
        &&& self.objects.wf()
        &&& forall|k: Seq<u8>| #[trigger] self.objects@.contains_key(k) ==> k.len() == DIGEST_LEN
    }

    pub fn new() -> (r: ObjectStore)
        ensures
            r.wf(),
            r@ == Map::<Seq<u8>, Seq<u8>>::empty(),
    {
        ObjectStore { objects: ByteMap::new() }
    }

    /// Whether an object is stored under `id`.
    pub fn contains(&self, id: &ObjectId) -> (r: bool)
        requires
            self.wf(),
        ensures
            r == self@.contains_key(id@),
    {
        self.objects.contains(id.digest())
    }

    /// Stores an object and returns its id. Storing content whose id is
    /// present already writes nothing and returns the same id.
    pub fn hash_and_store_obj(&mut self, k: ObjectKind, payload: &[u8]) -> (r: Result<
        ObjectId,
        RepoError,
    >)
        requires
            old(self).wf(),
        ensures
            final(self).wf(),
            r matches Ok(id) ==> id@ == fingerprint(k, payload@) && final(self)@ == stored_after(
                old(self)@,
                k,
                payload@,
            ),
            r is Ok,
    {
        let id = hash_object(k, payload);
        if self.contains(&id) {
            return Ok(id);
        }
        match fingerprint_and_encode(k, payload) {
            Ok((id, enc)) => {
                self.objects.insert(id.digest(), enc);
                Ok(id)
            },
            Err(e) => Err(e),
        }
    }

    /// Reads object `id`, which must be of kind `k`, and returns its payload.
    /// A stored object that decodes to a header of kind `k` and the
    /// payload's length gives that payload back.
    pub fn get(&self, id: &ObjectId, k: ObjectKind) -> (r: Result<Vec<u8>, RepoError>)
        requires
            self.wf(),
        ensures
            bytes_result(r) == read_object(self@, id@, k),
            forall|p: Seq<u8>|
                self@.contains_key(id@) && self@[id@] == #[trigger] deflated(framed(k, p)) ==> (r is Ok
                    && r.unwrap()@ == p),
    {
        match self.objects.get(id.digest()) {
            None => Err(RepoError::ObjectNotFound),
            Some(enc) => {
                let res = decode(enc.as_slice());
                proof {
                    assert forall|p: Seq<u8>| enc@ == #[trigger] deflated(framed(k, p)) implies unframe(
                        framed(k, p),
                        k,
                    ) == Some(p) by {
                        lemma_unframe_framed(k, p);
                    }
                }
                match res {
                    Err(_) => Err(RepoError::CorruptObject),
                    Ok(raw) => match unframe_bytes(raw.as_slice(), k) {
                        Some(p) => Ok(p),
                        None => Err(RepoError::CorruptObject),
                    },
                }
            },
        }
    }

    /// Adds an already encoded object, as read back from storage.
    pub fn insert_encoded(&mut self, id: &ObjectId, encoded: Vec<u8>)
        requires
            old(self).wf(),
        ensures
            final(self).wf(),
            final(self)@ == old(self)@.insert(id@, encoded@),
    {
        self.objects.insert(id.digest(), encoded);
    }

    /// The encoded bytes stored under `id`.
    pub fn encoded(&self, id: &ObjectId) -> (r: Option<&Vec<u8>>)
        requires
            self.wf(),
        ensures
            r matches Some(v) ==> self@.contains_key(id@) && self@[id@] == v@,
            r is None ==> !self@.contains_key(id@),
    {
        self.objects.get(id.digest())
    }

    /// The number of stored objects.
    pub fn len(&self) -> (r: usize)
        requires
            self.wf(),
        ensures
            r == self@.dom().len(),
    {
        self.objects.len()
    }

    /// Every stored id, each once.
    pub fn ids(&self) -> (r: Vec<ObjectId>)
        requires
            self.wf(),
        ensures
            forall|i: int| 0 <= i < r@.len() ==> self@.contains_key(#[trigger] r@[i]@),
            forall|k: Seq<u8>| #[trigger] self@.contains_key(k) ==> exists|i: int|
                0 <= i < r@.len() && #[trigger] r@[i]@ == k,
    {
        let keys = self.objects.keys();
        let mut r: Vec<ObjectId> = Vec::new();
        let mut i: usize = 0;
        while i < keys.len()
            invariant
                self.wf(),
                i <= keys@.len(),
                r@.len() == i,
                forall|j: int| 0 <= j < keys@.len() ==> self@.contains_key(#[trigger] keys@[j]@),
                forall|j: int| 0 <= j < i ==> #[trigger] r@[j]@ == keys@[j]@,
            decreases keys@.len() - i,
        {
            assert(self.objects@.contains_key(keys@[i as int]@));
            let id = ObjectId::from_digest(bytes_of(keys[i].as_slice()));
            r.push(id);
            i = i + 1;
        }
        assert forall|k: Seq<u8>| #[trigger] self@.contains_key(k) implies exists|j: int|
            0 <= j < r@.len() && #[trigger] r@[j]@ == k by {
            let j = choose|j: int| 0 <= j < keys@.len() && #[trigger] keys@[j]@ == k;
            assert(r@[j]@ == k);
        }
        r
    }
}

} // verus!
