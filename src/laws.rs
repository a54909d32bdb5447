use vstd::prelude::*;

use crate::codec::ObjectKind;
use crate::index::{has_path, latest_in, live};
use crate::object_id::{hex_of, lemma_hex_injective, lemma_hex_is_id_text};
use crate::objects::{commit_text, id_of_text};
use crate::repo::{
    after_commit, after_tree, commit_id, commit_text_of, current_branch, detach_target, map_get,
    resolve_name, tree_id, HeadView, RepoState,
};
use crate::store::read_object;

verus! {

/// Every live entry is an entry of the index.
pub proof fn lemma_live_subset(s: Seq<(Seq<u8>, Seq<u8>)>)
    ensures
        forall|i: int|
            0 <= i < live(s).len() ==> exists|j: int| 0 <= j < s.len() && s[j] == #[trigger] live(s)[i],
    decreases s.len(),
{
    if s.len() > 0 {
        let rest = s.drop_first();
        lemma_live_subset(rest);
        assert forall|i: int| 0 <= i < live(s).len() implies exists|j: int|
            0 <= j < s.len() && s[j] == #[trigger] live(s)[i] by {
            if has_path(rest, s[0].1) {
                let j = choose|j: int| 0 <= j < rest.len() && rest[j] == live(rest)[i];
                assert(s[j + 1] == live(s)[i]);
            } else if i == 0 {
                assert(s[0] == live(s)[0]);
            } else {
                assert(live(s)[i] == live(rest)[i - 1]);
                let j = choose|j: int| 0 <= j < rest.len() && rest[j] == live(rest)[i - 1];
                assert(s[j + 1] == live(s)[i]);
            }
        }
    }
}

/// No two live entries are for the same path.
pub proof fn lemma_live_unique(s: Seq<(Seq<u8>, Seq<u8>)>)
    ensures
        forall|i: int, j: int|
            0 <= i < j < live(s).len() ==> (#[trigger] live(s)[i]).1 != (#[trigger] live(s)[j]).1,
    decreases s.len(),
{
    if s.len() > 0 {
        let rest = s.drop_first();
        lemma_live_unique(rest);
        lemma_live_subset(rest);
        if !has_path(rest, s[0].1) {
            assert forall|i: int, j: int| 0 <= i < j < live(s).len() implies (
            #[trigger] live(s)[i]).1 != (#[trigger] live(s)[j]).1 by {
                assert(live(s)[j] == live(rest)[j - 1]);
                if i == 0 {
                    let k = choose|k: int| 0 <= k < rest.len() && rest[k] == live(rest)[j - 1];
                    assert(rest[k].1 != s[0].1);
                } else {
                    assert(live(s)[i] == live(rest)[i - 1]);
                }
            }
        }
    }
}

/// The entry appended last is always live, as the index's last live entry.
pub proof fn lemma_live_last(s: Seq<(Seq<u8>, Seq<u8>)>, e: (Seq<u8>, Seq<u8>))
    ensures
        live(s.push(e)).len() > 0,
        live(s.push(e)).last() == e,
    decreases s.len(),
{
    let t = s.push(e);
    if s.len() == 0 {
        assert(t.drop_first() =~= Seq::<(Seq<u8>, Seq<u8>)>::empty());
        assert(!has_path(t.drop_first(), t[0].1));
        assert(live(t.drop_first()).len() == 0);
        assert(t[0] == e);
        assert(live(t) =~= seq![e]);
    } else {
        assert(t.drop_first() =~= s.drop_first().push(e));
        lemma_live_last(s.drop_first(), e);
        let r = live(t.drop_first());
        assert(r == live(s.drop_first().push(e)));
        assert(r.last() == e);
        if !has_path(t.drop_first(), t[0].1) {
            let c = seq![t[0]] + r;
            assert(live(t) == c);
            assert(c[c.len() - 1] == r[r.len() - 1]);
        } else {
            assert(live(t) == r);
        }
    }
}

/// Staging the same content for a path twice: after the first stage the
/// path's latest entry is that content, which makes the second stage a
/// no-op; and the index then has exactly one live entry for the path, the
/// one just staged.
pub proof fn lemma_restage_no_op(s: Seq<(Seq<u8>, Seq<u8>)>, id: Seq<u8>, path: Seq<u8>)
    ensures
        latest_in(s.push((id, path)), path) == Some(id),
        exists|i: int|
            0 <= i < live(s.push((id, path))).len() && #[trigger] live(s.push((id, path)))[i] == (
            id,
            path,
        ),
        forall|i: int, j: int|
            0 <= i < live(s.push((id, path))).len() && 0 <= j < live(s.push((id, path))).len()
                && (#[trigger] live(s.push((id, path)))[i]).1 == path && (#[trigger] live(
                s.push((id, path)),
            )[j]).1 == path ==> i == j,
{
    let t = s.push((id, path));
    assert(t.drop_last() =~= s);
    lemma_live_last(s, (id, path));
    lemma_live_unique(t);
    let l = live(t);
    assert(l[l.len() - 1] == (id, path));
    assert forall|i: int, j: int|
        0 <= i < l.len() && 0 <= j < l.len() && (#[trigger] l[i]).1 == path && (#[trigger] l[j]).1
            == path implies i == j by {
        if i < j {
            assert(l[i].1 != l[j].1);
        } else if j < i {
            assert(l[j].1 != l[i].1);
        }
    }
}

/// Building the tree twice against the same index stores nothing the second
/// time and gives the same id.
pub proof fn lemma_build_tree_twice(s: RepoState)
    ensures
        after_tree(after_tree(s)) == after_tree(s),
        tree_id(after_tree(s)) == tree_id(s),
{
}

/// Commits chain: the first commit on a branch without a tip has no parent,
/// and the next commit on it takes the first as parent.
pub proof fn lemma_commit_chain(
    s: RepoState,
    b: Seq<u8>,
    author: Seq<u8>,
    t1: nat,
    m1: Seq<u8>,
    t2: nat,
    m2: Seq<u8>,
)
    requires
        s.head == HeadView::Branch(b),
        !s.branches.contains_key(b),
    ensures
        commit_text_of(s, b, author, t1, m1) == commit_text(tree_id(s), None, author, t1, m1),
        after_commit(s, b, author, t1, m1).head == s.head,
        commit_text_of(after_commit(s, b, author, t1, m1), b, author, t2, m2) == commit_text(
            tree_id(after_commit(s, b, author, t1, m1)),
            Some(commit_id(s, b, author, t1, m1)),
            author,
            t2,
            m2,
        ),
{
}

/// Branches are isolated: from branch `main` at tip `c1`, creating `dev`,
/// checking it out and committing advances `dev` only; `main` stays at `c1`
/// and the new commit's parent is `c1`.
pub proof fn lemma_branch_isolation(
    s: RepoState,
    main: Seq<u8>,
    dev: Seq<u8>,
    author: Seq<u8>,
    timestamp: nat,
    message: Seq<u8>,
)
    requires
        s.head == HeadView::Branch(main),
        s.branches.contains_key(main),
        main != dev,
        !s.branches.contains_key(dev),
    ensures
        ({
            let created = RepoState { branches: s.branches.insert(dev, s.branches[main]), ..s };
            let switched = RepoState { head: HeadView::Branch(dev), ..created };
            let done = after_commit(switched, dev, author, timestamp, message);
            &&& done.branches[main] == s.branches[main]
            &&& done.branches[dev] == commit_id(switched, dev, author, timestamp, message)
            &&& map_get(switched.branches, dev) == Some(s.branches[main])
        }),
{
}

/// Checking out the text of a stored commit id that names no branch or tag
/// detaches HEAD at exactly that id, after which there is no current branch.
pub proof fn lemma_checkout_detaches(s: RepoState, id: Seq<u8>)
    requires
        id.len() == 20,
        !s.branches.contains_key(hex_of(id)),
        !s.tags.contains_key(hex_of(id)),
        read_object(s.objects, id, ObjectKind::Commit) is Ok,
    ensures
        detach_target(s, hex_of(id)) == Some(id),
        current_branch(RepoState { head: HeadView::Detached(id), ..s }) is None,
{
    lemma_hex_is_id_text(id);
    let t = hex_of(id);
    let d = id_of_text(t);
    assert(id.len() == 20 && hex_of(id) == t);
    lemma_hex_injective(d, id);
    assert(s.objects.contains_key(id));
    assert(resolve_name(s, t) == Some(id));
}

} // verus!
