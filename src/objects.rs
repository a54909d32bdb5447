use vstd::prelude::*;

use crate::codec::{decimal, push_decimal};
use crate::bytes::push_all;
use crate::index::{entries_view, StagingEntry};
use crate::object_id::{
    hex_of, is_id_text, lemma_hex_injective, lemma_hex_is_id_text, lemma_hex_len, ObjectId,
};

verus! {

/// `"100644 blob "`, the start of every tree line.
pub open spec fn tree_line_prefix() -> Seq<u8> {
    seq![49u8, 48u8, 48u8, 54u8, 52u8, 52u8, 32u8, 98u8, 108u8, 111u8, 98u8, 32u8]
}

/// `"<mode> blob <id>\t<path>"` for one staged entry.
pub open spec fn tree_line(e: (Seq<u8>, Seq<u8>)) -> Seq<u8> {
    tree_line_prefix() + hex_of(e.0) + seq![9u8] + e.1
}

/// The payload of a tree object: one line per entry, in order, joined by
/// newlines (no newline after the last line).
pub open spec fn tree_text(s: Seq<(Seq<u8>, Seq<u8>)>) -> Seq<u8>
    decreases s.len(),
{
    if s.len() == 0 {
        Seq::empty()
    } else if s.len() == 1 {
        tree_line(s[0])
    } else {
        tree_text(s.drop_last()) + seq![10u8] + tree_line(s.last())
    }
}

/// `"tree "`
pub open spec fn tree_key() -> Seq<u8> {
    seq![116u8, 114u8, 101u8, 101u8, 32u8]
}

/// `"parent "`
pub open spec fn parent_key() -> Seq<u8> {
    seq![112u8, 97u8, 114u8, 101u8, 110u8, 116u8, 32u8]
}

/// `"author "`
pub open spec fn author_key() -> Seq<u8> {
    seq![97u8, 117u8, 116u8, 104u8, 111u8, 114u8, 32u8]
}

/// `"committer "`
pub open spec fn committer_key() -> Seq<u8> {
    seq![99u8, 111u8, 109u8, 109u8, 105u8, 116u8, 116u8, 101u8, 114u8, 32u8]
}

/// `"<key><identity> <timestamp>\n"`
pub open spec fn identity_line(key: Seq<u8>, author: Seq<u8>, timestamp: nat) -> Seq<u8> {
    key + author + seq![32u8] + decimal(timestamp) + seq![10u8]
}

/// The payload of a commit object:
/// `tree <id>\n`, then `parent <id>\n` when there is a parent, the author
/// and committer lines, a blank line and the message ending in a newline.
pub open spec fn commit_text(
    tree: Seq<u8>,
    parent: Option<Seq<u8>>,
    author: Seq<u8>,
    timestamp: nat,
    message: Seq<u8>,
) -> Seq<u8> {
    let parent_line = match parent {
        Some(p) => parent_key() + hex_of(p) + seq![10u8],
        None => Seq::empty(),
    };
    tree_key() + hex_of(tree) + seq![10u8] + parent_line + identity_line(
        author_key(),
        author,
        timestamp,
    ) + identity_line(committer_key(), author, timestamp) + seq![10u8] + message + seq![10u8]
}

/// The digest whose text is `t`.
pub open spec fn id_of_text(t: Seq<u8>) -> Seq<u8> {
    choose|d: Seq<u8>| d.len() == 20 && hex_of(d) == t
}

/// The tree line of a commit payload is well formed.
pub open spec fn has_tree_line(p: Seq<u8>) -> bool {
    p.len() >= 46 && p.subrange(0, 5) == tree_key() && is_id_text(p.subrange(5, 45)) && p[45] == 10
}

/// The commit payload has a well-formed parent line right after its tree line.
pub open spec fn has_parent_line(p: Seq<u8>) -> bool {
    p.len() >= 94 && p.subrange(46, 53) == parent_key() && is_id_text(p.subrange(53, 93)) && p[93]
        == 10
}

/// The tree and parent that a commit payload names; `None` when its first
/// line is no tree line.
pub open spec fn commit_links(p: Seq<u8>) -> Option<(Seq<u8>, Option<Seq<u8>>)> {
    if !has_tree_line(p) {
        None
    } else if has_parent_line(p) {
        Some((id_of_text(p.subrange(5, 45)), Some(id_of_text(p.subrange(53, 93)))))
    } else {
        Some((id_of_text(p.subrange(5, 45)), None))
    }
}

pub proof fn lemma_id_of_text(d: Seq<u8>)
    requires
        d.len() == 20,
    ensures
        id_of_text(hex_of(d)) == d,
{
    let t = hex_of(d);
    assert(d.len() == 20 && hex_of(d) == t);
    let e = id_of_text(t);
    lemma_hex_injective(e, d);
}

/// Reading the links back from a commit payload gives the tree and parent
/// it was written with.
pub proof fn lemma_commit_links(
    tree: Seq<u8>,
    parent: Option<Seq<u8>>,
    author: Seq<u8>,
    timestamp: nat,
    message: Seq<u8>,
)
    requires
        tree.len() == 20,
        parent matches Some(q) ==> q.len() == 20,
    ensures
        commit_links(commit_text(tree, parent, author, timestamp, message)) == Some((tree, parent)),
{
    let p = commit_text(tree, parent, author, timestamp, message);
    lemma_hex_is_id_text(tree);
    lemma_id_of_text(tree);
    assert(p.subrange(0, 5) =~= tree_key());
    assert(p.subrange(5, 45) =~= hex_of(tree));
    assert(p[45] == 10);
    match parent {
        Some(q) => {
            lemma_hex_is_id_text(q);
            lemma_id_of_text(q);
            assert(p.subrange(46, 53) =~= parent_key());
            assert(p.subrange(53, 93) =~= hex_of(q));
            assert(p[93] == 10);
        },
        None => {
            assert(p.subrange(46, 53) =~= author_key());
            assert(author_key() != parent_key()) by {
                assert(author_key()[0] != parent_key()[0]);
            }
        },
    }
}

/// Serialises entries as tree lines.
pub fn tree_payload(entries: &Vec<StagingEntry>) -> (r: Vec<u8>)
    ensures
        r@ == tree_text(entries_view(entries@)),
{
    let ghost s = entries_view(entries@);
    let mut out: Vec<u8> = Vec::new();
    let mut i: usize = 0;
    while i < entries.len()
        invariant
            s == entries_view(entries@),
            i <= entries@.len(),
            out@ == tree_text(s.subrange(0, i as int)),
        decreases entries@.len() - i,
    {
        let e = &entries[i];
        let hex = e.id.to_hex();
        if i > 0 {
            out.push(10u8);
        }
        let ghost before = out@;
        push_all(&mut out, &[49u8, 48u8, 48u8, 54u8, 52u8, 52u8, 32u8, 98u8, 108u8, 111u8, 98u8, 32u8]);
        push_all(&mut out, hex.as_slice());
        out.push(9u8);
        push_all(&mut out, e.path.as_slice());
        proof {
            assert(s.subrange(0, i + 1).drop_last() =~= s.subrange(0, i as int));
            assert(s[i as int] == e@);
            assert(s.subrange(0, i + 1)[i as int] == e@);
            assert(out@ =~= before + tree_line(e@));
        }
        i = i + 1;
    }
    assert(s.subrange(0, i as int) =~= s);
    out
}

fn push_identity(out: &mut Vec<u8>, key: &[u8], author: &[u8], timestamp: u64)
    ensures
        final(out)@ == old(out)@ + identity_line(key@, author@, timestamp as nat),
{
    push_all(out, key);
    push_all(out, author);
    out.push(32u8);
    push_decimal(out, timestamp);
    out.push(10u8);
    assert(out@ =~= old(out)@ + identity_line(key@, author@, timestamp as nat));
}

/// Serialises a commit object's payload.
pub fn commit_payload(
    tree: &ObjectId,
    parent: &Option<ObjectId>,
    author: &[u8],
    timestamp: u64,
    message: &[u8],
) -> (r: Vec<u8>)
    ensures
        r@ == commit_text(
            tree@,
            match parent {
                Some(q) => Some(q@),
                None => None,
            },
            author@,
            timestamp as nat,
            message@,
        ),
{
    let mut out: Vec<u8> = Vec::new();
    push_all(&mut out, &[116u8, 114u8, 101u8, 101u8, 32u8]);
    push_all(&mut out, tree.to_hex().as_slice());
    out.push(10u8);
    let ghost after_tree = out@;
    match parent {
        Some(q) => {
            push_all(&mut out, &[112u8, 97u8, 114u8, 101u8, 110u8, 116u8, 32u8]);
            push_all(&mut out, q.to_hex().as_slice());
            out.push(10u8);
        },
        None => {},
    }
    let ghost after_parent = out@;
    push_identity(&mut out, &[97u8, 117u8, 116u8, 104u8, 111u8, 114u8, 32u8], author, timestamp);
    push_identity(
        &mut out,
        &[99u8, 111u8, 109u8, 109u8, 105u8, 116u8, 116u8, 101u8, 114u8, 32u8],
        author,
        timestamp,
    );
    out.push(10u8);
    push_all(&mut out, message);
    out.push(10u8);
    proof {
        let pv = match parent {
            Some(q) => Some(q@),
            None => None,
        };
        let parent_line = match pv {
            Some(p) => parent_key() + hex_of(p) + seq![10u8],
            None => Seq::<u8>::empty(),
        };
        assert(after_tree =~= tree_key() + hex_of(tree@) + seq![10u8]);
        assert(after_parent =~= after_tree + parent_line);
        assert(out@ =~= commit_text(tree@, pv, author@, timestamp as nat, message@));
    }
    out
}

fn slice_matches(p: &[u8], at: usize, key: &[u8]) -> (r: bool)
    requires
        at + key@.len() <= p@.len(),
    ensures
        r == (p@.subrange(at as int, at + key@.len()) == key@),
{
    let mut i: usize = 0;
    while i < key.len()
        invariant
            i <= key@.len(),
            at + key@.len() <= p@.len(),
            forall|j: int| 0 <= j < i ==> p@[at + j] == key@[j],
        decreases key@.len() - i,
    {
        let n = p.len();
        assert(at + i < n);
        if p[at + i] != key[i] {
            assert(p@.subrange(at as int, at + key@.len())[i as int] != key@[i as int]);
            return false;
        }
        i = i + 1;
    }
    assert(p@.subrange(at as int, at + key@.len()) =~= key@);
    true
}

fn id_at(p: &[u8], at: usize) -> (r: Option<ObjectId>)
    requires
        at + 40 <= p@.len(),
    ensures
        r is Some <==> is_id_text(p@.subrange(at as int, at + 40)),
        r matches Some(id) ==> id@ == id_of_text(p@.subrange(at as int, at + 40)),
{
    let (_, rest) = p.split_at(at);
    let (text, _) = rest.split_at(40);
    assert(text@ =~= p@.subrange(at as int, at + 40));
    let r = ObjectId::from_hex(text);
    proof {
        if let Some(ref id) = r {
            let d = id_of_text(text@);
            lemma_hex_len(id@);
            lemma_hex_injective(d, id@);
        }
    }
    r
}

/// The tree and parent named by a commit payload.
pub fn parse_commit_links(p: &[u8]) -> (r: Option<(ObjectId, Option<ObjectId>)>)
    ensures
        r is None ==> commit_links(p@) is None,
        r matches Some((t, q)) ==> commit_links(p@) == Some(
            (
                t@,
                match q {
                    Some(x) => Some(x@),
                    None => None,
                },
            ),
        ),
{
    if p.len() < 46 || !slice_matches(p, 0, &[116u8, 114u8, 101u8, 101u8, 32u8]) || p[45] != 10 {
        return None;
    }
    let tree = match id_at(p, 5) {
        Some(t) => t,
        None => return None,
    };
    if p.len() >= 94 && slice_matches(p, 46, &[112u8, 97u8, 114u8, 101u8, 110u8, 116u8, 32u8])
        && p[93] == 10 {
        match id_at(p, 53) {
            Some(q) => return Some((tree, Some(q))),
            None => {},
        }
    }
    Some((tree, None))
}

} // verus!
