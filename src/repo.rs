use vstd::prelude::*;

use crate::bytemap::ByteMap;
use crate::codec::{fingerprint, hash_object, ObjectKind};
use crate::error::RepoError;
use crate::index::{is_valid_name, latest_in, live, valid_name, StagingEntry, StagingIndex};
use crate::bytes::bytes_of;
use crate::object_id::{is_id_text, ObjectId, DIGEST_LEN};
use crate::objects::{
    commit_links, commit_payload, commit_text, id_of_text, parse_commit_links, tree_payload,
    tree_text,
};
use crate::store::{read_object, stored_after, ObjectStore};

verus! {

/// What HEAD points at, as a value of the model.
pub enum HeadView {
    Branch(Seq<u8>),
    Detached(Seq<u8>),
}

/// HEAD: the active branch, or a commit id held directly.
#[derive(Debug)]
pub enum Head {
    Branch(Vec<u8>),
    Detached(ObjectId),
}

impl View for Head {
    type V = HeadView;

    open spec fn view(&self) -> HeadView {
        match self {
            Head::Branch(b) => HeadView::Branch(b@),
            Head::Detached(id) => HeadView::Detached(id@),
        }
    }
}

/// What staging a file did.
#[derive(Debug)]
pub enum StageOutcome {
    /// The content was stored and a new index entry appended.
    Staged(ObjectId),
    /// The path's latest entry already has this content; nothing changed.
    Unchanged(ObjectId),
}

impl StageOutcome {
    pub open spec fn id_view(&self) -> Seq<u8> {
        match self {
            StageOutcome::Staged(id) => id@,
            StageOutcome::Unchanged(id) => id@,
        }
    }
}

/// One commit met while walking history.
#[derive(Debug)]
pub struct CommitRecord {
    pub id: ObjectId,
    pub tree: ObjectId,
    pub parent: Option<ObjectId>,
    /// The commit object's payload.
    pub payload: Vec<u8>,
}

/// The whole repository as a mathematical value.
pub struct RepoState {
    pub objects: Map<Seq<u8>, Seq<u8>>,
    pub staged: Seq<(Seq<u8>, Seq<u8>)>,
    pub branches: Map<Seq<u8>, Seq<u8>>,
    pub tags: Map<Seq<u8>, Seq<u8>>,
    pub head: HeadView,
}

pub open spec fn opt_view(o: Option<ObjectId>) -> Option<Seq<u8>> {
    match o {
        Some(id) => Some(id@),
        None => None,
    }
}

/// `"master"`, the branch a new repository starts on.
pub open spec fn default_branch() -> Seq<u8> {
    seq![109u8, 97u8, 115u8, 116u8, 101u8, 114u8]
}

/// The payload of the tree built from the index.
pub open spec fn tree_payload_of(s: RepoState) -> Seq<u8> {
    tree_text(live(s.staged))
}

/// The id of the tree built from the index.
pub open spec fn tree_id(s: RepoState) -> Seq<u8> {
    fingerprint(ObjectKind::Tree, tree_payload_of(s))
}

/// The state after the tree of the index has been stored.
pub open spec fn after_tree(s: RepoState) -> RepoState {
    RepoState { objects: stored_after(s.objects, ObjectKind::Tree, tree_payload_of(s)), ..s }
}

pub open spec fn map_get(m: Map<Seq<u8>, Seq<u8>>, k: Seq<u8>) -> Option<Seq<u8>> {
    if m.contains_key(k) {
        Some(m[k])
    } else {
        None
    }
}

/// The branch HEAD names, if it is not detached.
pub open spec fn current_branch(s: RepoState) -> Option<Seq<u8>> {
    match s.head {
        HeadView::Branch(b) => Some(b),
        HeadView::Detached(_) => None,
    }
}

/// The tip of the active branch; `None` when HEAD is detached.
pub open spec fn branch_tip(s: RepoState) -> Option<Seq<u8>> {
    match s.head {
        HeadView::Branch(b) => map_get(s.branches, b),
        HeadView::Detached(_) => None,
    }
}

/// The commit HEAD stands on: the active branch's tip, or the detached id.
pub open spec fn head_commit(s: RepoState) -> Option<Seq<u8>> {
    match s.head {
        HeadView::Branch(b) => map_get(s.branches, b),
        HeadView::Detached(id) => Some(id),
    }
}

/// The payload of the commit made on branch `b`.
pub open spec fn commit_text_of(
    s: RepoState,
    b: Seq<u8>,
    author: Seq<u8>,
    timestamp: nat,
    message: Seq<u8>,
) -> Seq<u8> {
    commit_text(tree_id(s), map_get(s.branches, b), author, timestamp, message)
}

/// The id of the commit made on branch `b`.
pub open spec fn commit_id(
    s: RepoState,
    b: Seq<u8>,
    author: Seq<u8>,
    timestamp: nat,
    message: Seq<u8>,
) -> Seq<u8> {
    fingerprint(ObjectKind::Commit, commit_text_of(s, b, author, timestamp, message))
}

/// The state after committing on branch `b`: tree and commit stored, `b` advanced.
pub open spec fn after_commit(
    s: RepoState,
    b: Seq<u8>,
    author: Seq<u8>,
    timestamp: nat,
    message: Seq<u8>,
) -> RepoState {
    RepoState {
        objects: stored_after(
            after_tree(s).objects,
            ObjectKind::Commit,
            commit_text_of(s, b, author, timestamp, message),
        ),
        branches: s.branches.insert(b, commit_id(s, b, author, timestamp, message)),
        ..s
    }
}

/// `t` is `s` after a commit with id `id` on the branch HEAD names.
pub open spec fn committed(
    s: RepoState,
    t: RepoState,
    id: Seq<u8>,
    author: Seq<u8>,
    timestamp: nat,
    message: Seq<u8>,
) -> bool {
    match s.head {
        HeadView::Branch(b) => id == commit_id(s, b, author, timestamp, message) && t
            == after_commit(s, b, author, timestamp, message),
        HeadView::Detached(_) => false,
    }
}

/// What a name resolves to: a branch tip, a tag target, or the id spelled by
/// the name when that object is stored.
pub open spec fn resolve_name(s: RepoState, name: Seq<u8>) -> Option<Seq<u8>> {
    if s.branches.contains_key(name) {
        Some(s.branches[name])
    } else if s.tags.contains_key(name) {
        Some(s.tags[name])
    } else if is_id_text(name) && s.objects.contains_key(id_of_text(name)) {
        Some(id_of_text(name))
    } else {
        None
    }
}

/// The commit that checking out a name which is no branch detaches HEAD at.
pub open spec fn detach_target(s: RepoState, name: Seq<u8>) -> Option<Seq<u8>> {
    match resolve_name(s, name) {
        Some(id) => if read_object(s.objects, id, ObjectKind::Commit) is Ok {
            Some(id)
        } else {
            None
        },
        None => None,
    }
}

/// Prepends ids to a walk's result.
pub open spec fn prepend(xs: Seq<Seq<u8>>, r: Result<Seq<Seq<u8>>, RepoError>) -> Result<
    Seq<Seq<u8>>,
    RepoError,
> {
    match r {
        Ok(ys) => Ok(xs + ys),
        Err(e) => Err(e),
    }
}

/// The ids met walking first parents from `id`, newest first, meeting at most
/// `fuel` commits. A missing start is `ObjectNotFound`; a missing parent, or a
/// chain longer than the fuel, is `CorruptHistory`.
pub open spec fn walk(m: Map<Seq<u8>, Seq<u8>>, id: Seq<u8>, fuel: nat, first: bool) -> Result<
    Seq<Seq<u8>>,
    RepoError,
>
    decreases fuel,
{
    match read_object(m, id, ObjectKind::Commit) {
        Err(e) => if e == RepoError::ObjectNotFound && !first {
            Err(RepoError::CorruptHistory)
        } else {
            Err(e)
        },
        Ok(p) => match commit_links(p) {
            None => Err(RepoError::CorruptObject),
            Some((_, None)) => Ok(seq![id]),
            Some((_, Some(q))) => if fuel <= 1 {
                Err(RepoError::CorruptHistory)
            } else {
                prepend(seq![id], walk(m, q, (fuel - 1) as nat, false))
            },
        },
    }
}

pub proof fn lemma_prepend_assoc(
    xs: Seq<Seq<u8>>,
    ys: Seq<Seq<u8>>,
    r: Result<Seq<Seq<u8>>, RepoError>,
)
    ensures
        prepend(xs, prepend(ys, r)) == prepend(xs + ys, r),
{
    if let Ok(zs) = r {
        assert(xs + (ys + zs) =~= (xs + ys) + zs);
    }
}

pub open spec fn record_ids(v: Seq<CommitRecord>) -> Seq<Seq<u8>> {
    Seq::new(v.len(), |i: int| v[i].id@)
}

pub open spec fn records_result(r: Result<Vec<CommitRecord>, RepoError>) -> Result<
    Seq<Seq<u8>>,
    RepoError,
> {
    match r {
        Ok(v) => Ok(record_ids(v@)),
        Err(e) => Err(e),
    }
}

/// Each record holds the payload stored under its id, and the tree and parent
/// that payload names.
pub open spec fn records_faithful(m: Map<Seq<u8>, Seq<u8>>, v: Seq<CommitRecord>) -> bool {
    forall|i: int|
        0 <= i < v.len() ==> read_object(m, (#[trigger] v[i]).id@, ObjectKind::Commit) == Ok::<
            Seq<u8>,
            RepoError,
        >(v[i].payload@) && commit_links(v[i].payload@) == Some((v[i].tree@, opt_view(v[i].parent)))
}

/// A repository: object store, staging index, branches, tags and HEAD.
pub struct Repository {
    store: ObjectStore,
    index: StagingIndex,
    branches: ByteMap,
    tags: ByteMap,
    head: Head,
}

impl View for Repository {
    type V = RepoState;

    closed spec fn view(&self) -> RepoState {
        RepoState {
            objects: self.store@,
            staged: self.index@,
            branches: self.branches@,
            tags: self.tags@,
            head: self.head@,
        }
    }
}

impl Repository {
    pub closed spec fn wf(&self) -> bool {
        &&& self.store.wf()
        &&& self.branches.wf()
        &&& self.tags.wf()
        &&& forall|k: Seq<u8>| #[trigger]
            self.branches@.contains_key(k) ==> self.branches@[k].len() == DIGEST_LEN
        &&& forall|k: Seq<u8>| #[trigger]
            self.tags@.contains_key(k) ==> self.tags@[k].len() == DIGEST_LEN
    }

    /// The number of stored objects, which bounds any walk through history.
    pub open spec fn object_count(&self) -> nat {
        self@.objects.dom().len()
    }

    /// An empty repository on branch `master`.
    pub fn init() -> (r: Repository)
        ensures
            r.wf(),
            r@.objects == Map::<Seq<u8>, Seq<u8>>::empty(),
            r@.staged == Seq::<(Seq<u8>, Seq<u8>)>::empty(),
            r@.branches == Map::<Seq<u8>, Seq<u8>>::empty(),
            r@.tags == Map::<Seq<u8>, Seq<u8>>::empty(),
            r@.head == HeadView::Branch(default_branch()),
    {
        let master = vec![109u8, 97u8, 115u8, 116u8, 101u8, 114u8];
        assert(master@ =~= default_branch());
        Repository {
            store: ObjectStore::new(),
            index: StagingIndex::new(),
            branches: ByteMap::new(),
            tags: ByteMap::new(),
            head: Head::Branch(master),
        }
    }

    fn tip_of(map: &ByteMap, name: &[u8]) -> (r: Option<ObjectId>)
        requires
            map.wf(),
            forall|k: Seq<u8>| #[trigger] map@.contains_key(k) ==> map@[k].len() == DIGEST_LEN,
        ensures
            opt_view(r) == map_get(map@, name@),
    {
        match map.get(name) {
            Some(v) => Some(ObjectId::from_digest(bytes_of(v.as_slice()))),
            None => None,
        }
    }

    /// Stages `content` for `path`. Content equal to the path's latest staged
    /// entry is reported as unchanged and leaves everything as it was;
    /// otherwise the blob is stored and a new entry appended.
    pub fn add(&mut self, path: &[u8], content: &[u8]) -> (r: Result<StageOutcome, RepoError>)
        requires
            old(self).wf(),
        ensures
            final(self).wf(),
            !valid_name(path@) ==> r == Err::<StageOutcome, RepoError>(RepoError::InvalidName),
            r matches Ok(o) ==> valid_name(path@) && o.id_view() == fingerprint(
                ObjectKind::Blob,
                content@,
            ),
            valid_name(path@) && latest_in(old(self)@.staged, path@) == Some(
                fingerprint(ObjectKind::Blob, content@),
            ) ==> r matches Ok(StageOutcome::Unchanged(_)),
            r matches Ok(StageOutcome::Unchanged(_)) ==> latest_in(old(self)@.staged, path@) == Some(
                fingerprint(ObjectKind::Blob, content@),
            ),
            r matches Ok(StageOutcome::Staged(_)) ==> latest_in(old(self)@.staged, path@) != Some(
                fingerprint(ObjectKind::Blob, content@),
            ) && final(self)@ == (RepoState {
                objects: stored_after(old(self)@.objects, ObjectKind::Blob, content@),
                staged: old(self)@.staged.push((fingerprint(ObjectKind::Blob, content@), path@)),
                ..old(self)@
            }),
            !(r matches Ok(StageOutcome::Staged(_))) ==> final(self)@ == old(self)@,
            valid_name(path@) ==> r is Ok,
    {
        if !is_valid_name(path) {
            return Err(RepoError::InvalidName);
        }
        let id = hash_object(ObjectKind::Blob, content);
        match self.index.get_latest_staged_hash(path) {
            Some(latest) => {
                if latest.same(&id) {
                    return Ok(StageOutcome::Unchanged(id));
                }
            },
            None => {},
        }
        match self.store.hash_and_store_obj(ObjectKind::Blob, content) {
            Ok(stored) => {
                self.index.append(stored.duplicate(), bytes_of(path));
                Ok(StageOutcome::Staged(stored))
            },
            Err(e) => Err(e),
        }
    }

    /// Builds the tree of the index (the latest entry of each path, in index
    /// order), stores it and returns its id. The index is left as it was.
    pub fn create_tree(&mut self) -> (r: Result<ObjectId, RepoError>)
        requires
            old(self).wf(),
        ensures
            final(self).wf(),
            r matches Ok(id) ==> id@ == tree_id(old(self)@) && final(self)@ == after_tree(old(self)@),
            r is Ok,
    {
        let entries = self.index.live_entries();
        let payload = tree_payload(&entries);
        self.store.hash_and_store_obj(ObjectKind::Tree, payload.as_slice())
    }

    /// Points branch `name` at commit `id`, creating the branch if needed.
    pub fn advance_branch(&mut self, name: &[u8], id: &ObjectId)
        requires
            old(self).wf(),
        ensures
            final(self).wf(),
            final(self)@ == (RepoState {
                branches: old(self)@.branches.insert(name@, id@),
                ..old(self)@
            }),
    {
        self.branches.insert(name, bytes_of(id.digest()));
    }

    /// Records the index as a commit on the active branch and advances the
    /// branch to it. The branch's previous tip, if any, becomes the parent.
    /// Fails with `EmptyStagingArea` when nothing is staged and with
    /// `DetachedHead` when HEAD names no branch.
    pub fn commit(&mut self, message: &[u8], author: &[u8], timestamp: u64) -> (r: Result<
        ObjectId,
        RepoError,
    >)
        requires
            old(self).wf(),
        ensures
            final(self).wf(),
            old(self)@.staged.len() == 0 ==> r == Err::<ObjectId, RepoError>(
                RepoError::EmptyStagingArea,
            ) && final(self)@ == old(self)@,
            old(self)@.staged.len() > 0 && old(self)@.head is Detached ==> r == Err::<
                ObjectId,
                RepoError,
            >(RepoError::DetachedHead) && final(self)@ == old(self)@,
            r matches Ok(id) ==> old(self)@.staged.len() > 0 && committed(
                old(self)@,
                final(self)@,
                id@,
                author@,
                timestamp as nat,
                message@,
            ),
            old(self)@.staged.len() > 0 && old(self)@.head is Branch ==> r is Ok,
            old(self)@.objects.submap_of(final(self)@.objects),
    {
        if self.index.is_empty() {
            return Err(RepoError::EmptyStagingArea);
        }
        let branch = match &self.head {
            Head::Branch(b) => bytes_of(b.as_slice()),
            Head::Detached(_) => {
                return Err(RepoError::DetachedHead);
            },
        };
        let ghost s = self@;
        let tree = match self.create_tree() {
            Ok(t) => t,
            Err(e) => {
                return Err(e);
            },
        };
        let parent = Self::tip_of(&self.branches, branch.as_slice());
        let payload = commit_payload(&tree, &parent, author, timestamp, message);
        assert(payload@ == commit_text_of(s, branch@, author@, timestamp as nat, message@));
        let id = match self.store.hash_and_store_obj(ObjectKind::Commit, payload.as_slice()) {
            Ok(id) => id,
            Err(e) => {
                return Err(e);
            },
        };
        self.advance_branch(branch.as_slice(), &id);
        Ok(id)
    }

    /// The branch HEAD names; `None` when HEAD is detached.
    pub fn get_current_ref_branch(&self) -> (r: Option<Vec<u8>>)
        ensures
            r matches Some(b) ==> current_branch(self@) == Some(b@),
            r is None ==> current_branch(self@) is None,
    {
        match &self.head {
            Head::Branch(b) => Some(bytes_of(b.as_slice())),
            Head::Detached(_) => None,
        }
    }

    /// The tip of the active branch, which a new commit takes as parent;
    /// `None` when HEAD is detached or the branch has no commit yet.
    pub fn get_parent_commit(&self) -> (r: Option<ObjectId>)
        requires
            self.wf(),
        ensures
            opt_view(r) == branch_tip(self@),
    {
        match &self.head {
            Head::Branch(b) => Self::tip_of(&self.branches, b.as_slice()),
            Head::Detached(_) => None,
        }
    }

    /// The commit HEAD stands on: the active branch's tip, or the detached
    /// commit.
    pub fn head_commit_id(&self) -> (r: Option<ObjectId>)
        requires
            self.wf(),
        ensures
            opt_view(r) == head_commit(self@),
    {
        match &self.head {
            Head::Branch(b) => Self::tip_of(&self.branches, b.as_slice()),
            Head::Detached(id) => Some(id.duplicate()),
        }
    }

    /// Resolves a branch name, a tag name, or the text of a stored object id.
    pub fn resolve(&self, name: &[u8]) -> (r: Option<ObjectId>)
        requires
            self.wf(),
        ensures
            opt_view(r) == resolve_name(self@, name@),
    {
        if self.branches.contains(name) {
            return Self::tip_of(&self.branches, name);
        }
        if self.tags.contains(name) {
            return Self::tip_of(&self.tags, name);
        }
        match ObjectId::from_hex(name) {
            Some(id) => {
                proof {
                    crate::object_id::lemma_hex_len(id@);
                    crate::objects::lemma_id_of_text(id@);
                }
                if self.store.contains(&id) {
                    Some(id)
                } else {
                    None
                }
            },
            None => None,
        }
    }

    /// Switches HEAD: to branch `name` when it exists; otherwise, detached, to
    /// the commit that `name` resolves to. Fails with `RefNotFound` when it is
    /// neither. The index is left as it was.
    pub fn checkout(&mut self, name: &[u8]) -> (r: Result<(), RepoError>)
        requires
            old(self).wf(),
        ensures
            final(self).wf(),
            old(self)@.branches.contains_key(name@) ==> r is Ok && final(self)@ == (RepoState {
                head: HeadView::Branch(name@),
                ..old(self)@
            }),
            !old(self)@.branches.contains_key(name@) && detach_target(old(self)@, name@) is Some ==> r is Ok
                && final(self)@ == (RepoState {
                head: HeadView::Detached(detach_target(old(self)@, name@).unwrap()),
                ..old(self)@
            }),
            !old(self)@.branches.contains_key(name@) && detach_target(old(self)@, name@) is None ==> r
                == Err::<(), RepoError>(RepoError::RefNotFound) && final(self)@ == old(self)@,
    {
        if self.branches.contains(name) {
            self.head = Head::Branch(bytes_of(name));
            return Ok(());
        }
        match self.resolve(name) {
            Some(id) => {
                match self.store.get(&id, ObjectKind::Commit) {
                    Ok(_) => {
                        self.head = Head::Detached(id);
                        Ok(())
                    },
                    Err(_) => Err(RepoError::RefNotFound),
                }
            },
            None => Err(RepoError::RefNotFound),
        }
    }

    /// Creates branch `name` at the commit HEAD stands on.
    pub fn branch(&mut self, name: &[u8]) -> (r: Result<(), RepoError>)
        requires
            old(self).wf(),
        ensures
            final(self).wf(),
            !valid_name(name@) ==> r == Err::<(), RepoError>(RepoError::InvalidName),
            valid_name(name@) && old(self)@.branches.contains_key(name@) ==> r == Err::<(), RepoError>(
                RepoError::AlreadyExists,
            ),
            valid_name(name@) && !old(self)@.branches.contains_key(name@) && head_commit(old(self)@)
                is None ==> r == Err::<(), RepoError>(RepoError::NoCommitsYet),
            valid_name(name@) && !old(self)@.branches.contains_key(name@) && head_commit(old(self)@)
                is Some ==> r is Ok && final(self)@ == (RepoState {
                branches: old(self)@.branches.insert(name@, head_commit(old(self)@).unwrap()),
                ..old(self)@
            }),
            r is Err ==> final(self)@ == old(self)@,
    {
        if !is_valid_name(name) {
            return Err(RepoError::InvalidName);
        }
        if self.branches.contains(name) {
            return Err(RepoError::AlreadyExists);
        }
        match self.head_commit_id() {
            Some(c) => {
                self.branches.insert(name, bytes_of(c.digest()));
                Ok(())
            },
            None => Err(RepoError::NoCommitsYet),
        }
    }

    /// Deletes branch `name`.
    pub fn delete_branch(&mut self, name: &[u8]) -> (r: Result<(), RepoError>)
        requires
            old(self).wf(),
        ensures
            final(self).wf(),
            !old(self)@.branches.contains_key(name@) ==> r == Err::<(), RepoError>(
                RepoError::RefNotFound,
            ) && final(self)@ == old(self)@,
            old(self)@.branches.contains_key(name@) ==> r is Ok && final(self)@ == (RepoState {
                branches: old(self)@.branches.remove(name@),
                ..old(self)@
            }),
    {
        if !self.branches.contains(name) {
            return Err(RepoError::RefNotFound);
        }
        self.branches.remove(name);
        Ok(())
    }

    /// Creates tag `name` at the commit HEAD stands on. Tags never move.
    pub fn tag(&mut self, name: &[u8]) -> (r: Result<(), RepoError>)
        requires
            old(self).wf(),
        ensures
            final(self).wf(),
            !valid_name(name@) ==> r == Err::<(), RepoError>(RepoError::InvalidName),
            valid_name(name@) && old(self)@.tags.contains_key(name@) ==> r == Err::<(), RepoError>(
                RepoError::AlreadyExists,
            ),
            valid_name(name@) && !old(self)@.tags.contains_key(name@) && head_commit(old(self)@)
                is None ==> r == Err::<(), RepoError>(RepoError::NoCommitsYet),
            valid_name(name@) && !old(self)@.tags.contains_key(name@) && head_commit(old(self)@)
                is Some ==> r is Ok && final(self)@ == (RepoState {
                tags: old(self)@.tags.insert(name@, head_commit(old(self)@).unwrap()),
                ..old(self)@
            }),
            r is Err ==> final(self)@ == old(self)@,
    {
        if !is_valid_name(name) {
            return Err(RepoError::InvalidName);
        }
        if self.tags.contains(name) {
            return Err(RepoError::AlreadyExists);
        }
        match self.head_commit_id() {
            Some(c) => {
                self.tags.insert(name, bytes_of(c.digest()));
                Ok(())
            },
            None => Err(RepoError::NoCommitsYet),
        }
    }

    /// Deletes tag `name`.
    pub fn delete_tag(&mut self, name: &[u8]) -> (r: Result<(), RepoError>)
        requires
            old(self).wf(),
        ensures
            final(self).wf(),
            !old(self)@.tags.contains_key(name@) ==> r == Err::<(), RepoError>(RepoError::RefNotFound)
                && final(self)@ == old(self)@,
            old(self)@.tags.contains_key(name@) ==> r is Ok && final(self)@ == (RepoState {
                tags: old(self)@.tags.remove(name@),
                ..old(self)@
            }),
    {
        if !self.tags.contains(name) {
            return Err(RepoError::RefNotFound);
        }
        self.tags.remove(name);
        Ok(())
    }

    /// The history of the commit HEAD stands on, newest first. Fails with
    /// `NoCommitsYet` when there is none.
    pub fn log(&self) -> (r: Result<Vec<CommitRecord>, RepoError>)
        requires
            self.wf(),
        ensures
            head_commit(self@) is None ==> r == Err::<Vec<CommitRecord>, RepoError>(
                RepoError::NoCommitsYet,
            ),
            head_commit(self@) is Some ==> records_result(r) == walk(
                self@.objects,
                head_commit(self@).unwrap(),
                self.object_count(),
                true,
            ),
            r matches Ok(v) ==> records_faithful(self@.objects, v@),
    {
        match self.head_commit_id() {
            Some(c) => self.history_from(&c),
            None => Err(RepoError::NoCommitsYet),
        }
    }

    /// The names of all tags, each once.
    pub fn list_tags(&self) -> (r: Vec<Vec<u8>>)
        requires
            self.wf(),
        ensures
            forall|i: int| 0 <= i < r@.len() ==> self@.tags.contains_key(#[trigger] r@[i]@),
            forall|k: Seq<u8>| #[trigger] self@.tags.contains_key(k) ==> exists|i: int|
                0 <= i < r@.len() && #[trigger] r@[i]@ == k,
    {
        self.tags.keys()
    }

    /// The names of all branches, each once.
    pub fn list_branches(&self) -> (r: Vec<Vec<u8>>)
        requires
            self.wf(),
        ensures
            forall|i: int| 0 <= i < r@.len() ==> self@.branches.contains_key(#[trigger] r@[i]@),
            forall|k: Seq<u8>| #[trigger] self@.branches.contains_key(k) ==> exists|i: int|
                0 <= i < r@.len() && #[trigger] r@[i]@ == k,
    {
        self.branches.keys()
    }

    /// The commit branch `name` points at.
    pub fn branch_target(&self, name: &[u8]) -> (r: Option<ObjectId>)
        requires
            self.wf(),
        ensures
            opt_view(r) == map_get(self@.branches, name@),
    {
        Self::tip_of(&self.branches, name)
    }

    /// The commit tag `name` points at.
    pub fn tag_target(&self, name: &[u8]) -> (r: Option<ObjectId>)
        requires
            self.wf(),
        ensures
            opt_view(r) == map_get(self@.tags, name@),
    {
        Self::tip_of(&self.tags, name)
    }

    /// The object store.
    pub fn store(&self) -> (r: &ObjectStore)
        requires
            self.wf(),
        ensures
            r.wf(),
            r@ == self@.objects,
    {
        &self.store
    }

    /// The staging index.
    pub fn index(&self) -> (r: &StagingIndex)
        ensures
            r@ == self@.staged,
    {
        &self.index
    }

    /// HEAD.
    pub fn head(&self) -> (r: &Head)
        ensures
            r@ == self@.head,
    {
        &self.head
    }

    /// Adds an object read back from storage, as it was encoded there.
    pub fn load_object(&mut self, id: &ObjectId, encoded: Vec<u8>)
        requires
            old(self).wf(),
        ensures
            final(self).wf(),
            final(self)@ == (RepoState { objects: old(self)@.objects.insert(id@, encoded@), ..old(self)@ }),
    {
        self.store.insert_encoded(id, encoded);
    }

    /// Appends an index entry read back from storage.
    pub fn load_entry(&mut self, entry: StagingEntry)
        requires
            old(self).wf(),
        ensures
            final(self).wf(),
            final(self)@ == (RepoState { staged: old(self)@.staged.push(entry@), ..old(self)@ }),
    {
        self.index.append(entry.id, entry.path);
    }

    /// Sets a tag read back from storage.
    pub fn load_tag(&mut self, name: &[u8], id: &ObjectId)
        requires
            old(self).wf(),
        ensures
            final(self).wf(),
            final(self)@ == (RepoState { tags: old(self)@.tags.insert(name@, id@), ..old(self)@ }),
    {
        self.tags.insert(name, bytes_of(id.digest()));
    }

    /// Sets HEAD as read back from storage.
    pub fn load_head(&mut self, head: Head)
        requires
            old(self).wf(),
        ensures
            final(self).wf(),
            final(self)@ == (RepoState { head: head@, ..old(self)@ }),
    {
        self.head = head;
    }

    /// Walks first parents from `start`, newest first.
    pub fn history_from(&self, start: &ObjectId) -> (r: Result<Vec<CommitRecord>, RepoError>)
        requires
            self.wf(),
        ensures
            records_result(r) == walk(self@.objects, start@, self.object_count(), true),
            r matches Ok(v) ==> records_faithful(self@.objects, v@),
    {
        let ghost m = self@.objects;
        let mut out: Vec<CommitRecord> = Vec::new();
        let mut cur = start.duplicate();
        let mut first = true;
        let mut fuel: usize = self.store.len();
        loop
            invariant
                self.wf(),
                m == self@.objects,
                prepend(record_ids(out@), walk(m, cur@, fuel as nat, first)) == walk(
                    m,
                    start@,
                    self.object_count(),
                    true,
                ),
                records_faithful(m, out@),
            decreases fuel,
        {
            let payload = match self.store.get(&cur, ObjectKind::Commit) {
                Ok(p) => p,
                Err(e) => {
                    if e == RepoError::ObjectNotFound && !first {
                        return Err(RepoError::CorruptHistory);
                    }
                    return Err(e);
                },
            };
            let (tree, parent) = match parse_commit_links(payload.as_slice()) {
                Some(links) => links,
                None => {
                    return Err(RepoError::CorruptObject);
                },
            };
            let next = match &parent {
                Some(q) => Some(q.duplicate()),
                None => None,
            };
            let ghost before = out@;
            let ghost cur_id = cur@;
            out.push(CommitRecord { id: cur, tree, parent, payload });
            proof {
                assert(record_ids(out@) =~= record_ids(before) + seq![cur_id]);
                assert(record_ids(before) + seq![cur_id] =~= record_ids(before).push(cur_id));
            }
            match next {
                None => {
                    return Ok(out);
                },
                Some(q) => {
                    if fuel <= 1 {
                        return Err(RepoError::CorruptHistory);
                    }
                    proof {
                        let w = walk(m, q@, (fuel - 1) as nat, false);
                        assert(walk(m, cur_id, fuel as nat, first) == prepend(seq![cur_id], w));
                        lemma_prepend_assoc(record_ids(before), seq![cur_id], w);
                    }
                    cur = q;
                    first = false;
                    fuel = fuel - 1;
                },
            }
        }
    }
}

} // verus!
