use vstd::prelude::*;

use crate::index::{entries_view, is_valid_name, valid_name, StagingEntry, StagingIndex};
use crate::bytes::{bytes_of, push_all, trim_end, trimmed_len};
use crate::object_id::{
    hex_of, is_hex_char, is_id_text, lemma_hex_is_id_text, lemma_hex_len, ObjectId,
};
use crate::objects::{id_of_text, lemma_id_of_text};
use crate::repo::{opt_view, Head, HeadView};

verus! {

/// `"ref: refs/heads/"`, the start of a symbolic HEAD.
pub open spec fn head_ref_prefix() -> Seq<u8> {
    seq![
        114u8, 101u8, 102u8, 58u8, 32u8, 114u8, 101u8, 102u8, 115u8, 47u8, 104u8, 101u8, 97u8,
        100u8, 115u8, 47u8,
    ]
}

/// The stored text of HEAD.
pub open spec fn head_text(h: HeadView) -> Seq<u8> {
    match h {
        HeadView::Branch(b) => head_ref_prefix() + b,
        HeadView::Detached(id) => hex_of(id),
    }
}

/// What HEAD's stored text says, once trailing whitespace is dropped.
pub open spec fn head_of_text(text: Seq<u8>) -> Option<HeadView> {
    let t = trim_end(text);
    if t.len() > 16 && t.subrange(0, 16) == head_ref_prefix() && valid_name(t.subrange(16, t.len() as int)) {
        Some(HeadView::Branch(t.subrange(16, t.len() as int)))
    } else if is_id_text(t) {
        Some(HeadView::Detached(id_of_text(t)))
    } else {
        None
    }
}

/// The id a ref file's text holds, once trailing whitespace is dropped.
pub open spec fn ref_of_text(text: Seq<u8>) -> Option<Seq<u8>> {
    if is_id_text(trim_end(text)) {
        Some(id_of_text(trim_end(text)))
    } else {
        None
    }
}

/// One index line: `"<id> <path>\n"`.
pub open spec fn index_line(e: (Seq<u8>, Seq<u8>)) -> Seq<u8> {
    hex_of(e.0) + seq![32u8] + e.1 + seq![10u8]
}

/// The stored text of the index: one line per entry, in order.
pub open spec fn index_text(s: Seq<(Seq<u8>, Seq<u8>)>) -> Seq<u8>
    decreases s.len(),
{
    if s.len() == 0 {
        Seq::empty()
    } else {
        index_text(s.drop_last()) + index_line(s.last())
    }
}

/// The entry one index line holds, if it is well formed.
pub open spec fn entry_of_line(line: Seq<u8>) -> Option<(Seq<u8>, Seq<u8>)> {
    if line.len() >= 42 && is_id_text(line.subrange(0, 40)) && line[40] == 32 && valid_name(
        line.subrange(41, line.len() as int),
    ) {
        Some((id_of_text(line.subrange(0, 40)), line.subrange(41, line.len() as int)))
    } else {
        None
    }
}

pub open spec fn entries_of_line(line: Seq<u8>) -> Seq<(Seq<u8>, Seq<u8>)> {
    match entry_of_line(line) {
        Some(e) => seq![e],
        None => Seq::empty(),
    }
}

/// The entries of the index text from position `i` on, where the current
/// line began at `start`; malformed lines are skipped.
pub open spec fn scan_index(b: Seq<u8>, start: int, i: int) -> Seq<(Seq<u8>, Seq<u8>)>
    decreases b.len() - i,
{
    if i >= b.len() || i < start || start < 0 {
        if 0 <= start <= b.len() {
            entries_of_line(b.subrange(start, b.len() as int))
        } else {
            Seq::empty()
        }
    } else if b[i] == 10 {
        entries_of_line(b.subrange(start, i)) + scan_index(b, i + 1, i + 1)
    } else {
        scan_index(b, start, i + 1)
    }
}

/// The entries of an index text.
pub open spec fn index_of_text(b: Seq<u8>) -> Seq<(Seq<u8>, Seq<u8>)> {
    scan_index(b, 0, 0)
}

fn starts_with(s: &[u8], prefix: &[u8]) -> (r: bool)
    ensures
        r == (s@.len() >= prefix@.len() && s@.subrange(0, prefix@.len() as int) == prefix@),
{
    if s.len() < prefix.len() {
        return false;
    }
    let mut i: usize = 0;
    while i < prefix.len()
        invariant
            i <= prefix@.len() <= s@.len(),
            forall|j: int| 0 <= j < i ==> s@[j] == prefix@[j],
        decreases prefix@.len() - i,
    {
        if s[i] != prefix[i] {
            assert(s@.subrange(0, prefix@.len() as int)[i as int] != prefix@[i as int]);
            return false;
        }
        i = i + 1;
    }
    assert(s@.subrange(0, prefix@.len() as int) =~= prefix@);
    true
}

/// Reads an id from its text and relates it to `id_of_text`.
fn id_from_text(t: &[u8]) -> (r: Option<ObjectId>)
    ensures
        r is Some <==> is_id_text(t@),
        r matches Some(id) ==> id@ == id_of_text(t@),
{
    let r = ObjectId::from_hex(t);
    proof {
        if let Some(ref id) = r {
            lemma_hex_len(id@);
            lemma_id_of_text(id@);
        }
    }
    r
}

/// The stored text of HEAD.
pub fn render_head(h: &Head) -> (r: Vec<u8>)
    ensures
        r@ == head_text(h@),
{
    match h {
        Head::Branch(b) => {
            let mut out: Vec<u8> = Vec::new();
            push_all(
                &mut out,
                &[
                    114u8, 101u8, 102u8, 58u8, 32u8, 114u8, 101u8, 102u8, 115u8, 47u8, 104u8, 101u8,
                    97u8, 100u8, 115u8, 47u8,
                ],
            );
            push_all(&mut out, b.as_slice());
            assert(out@ =~= head_text(h@));
            out
        },
        Head::Detached(id) => id.to_hex(),
    }
}

/// Reads HEAD from its stored text.
pub fn parse_head(text: &[u8]) -> (r: Option<Head>)
    ensures
        r matches Some(h) ==> head_of_text(text@) == Some(h@),
        r is None ==> head_of_text(text@) is None,
{
    let n = trimmed_len(text);
    let (t, _) = text.split_at(n);
    assert(t@ =~= trim_end(text@));
    let prefix: [u8; 16] = [
        114u8, 101u8, 102u8, 58u8, 32u8, 114u8, 101u8, 102u8, 115u8, 47u8, 104u8, 101u8, 97u8,
        100u8, 115u8, 47u8,
    ];
    assert(prefix@ =~= head_ref_prefix());
    if t.len() > 16 && starts_with(t, &prefix) {
        let (_, name) = t.split_at(16);
        if is_valid_name(name) {
            return Some(Head::Branch(bytes_of(name)));
        }
    }
    match id_from_text(t) {
        Some(id) => Some(Head::Detached(id)),
        None => None,
    }
}

/// Reads the id a ref file holds.
pub fn parse_ref(text: &[u8]) -> (r: Option<ObjectId>)
    ensures
        opt_view(r) == ref_of_text(text@),
{
    let n = trimmed_len(text);
    let (t, _) = text.split_at(n);
    id_from_text(t)
}

/// The stored text of the index.
pub fn render_index(index: &StagingIndex) -> (r: Vec<u8>)
    ensures
        r@ == index_text(index@),
{
    let entries = index.all_entries();
    let ghost s = index@;
    let mut out: Vec<u8> = Vec::new();
    let mut i: usize = 0;
    while i < entries.len()
        invariant
            s == entries_view(entries@),
            i <= entries@.len(),
            out@ == index_text(s.subrange(0, i as int)),
        decreases entries@.len() - i,
    {
        let e = &entries[i];
        let ghost before = out@;
        push_all(&mut out, e.id.to_hex().as_slice());
        out.push(32u8);
        push_all(&mut out, e.path.as_slice());
        out.push(10u8);
        proof {
            assert(s.subrange(0, i + 1).drop_last() =~= s.subrange(0, i as int));
            assert(s[i as int] == e@);
            assert(out@ =~= before + index_line(e@));
        }
        i = i + 1;
    }
    assert(s.subrange(0, i as int) =~= s);
    out
}

/// Reads one index line.
fn parse_index_line(line: &[u8]) -> (r: Option<StagingEntry>)
    ensures
        r matches Some(e) ==> entry_of_line(line@) == Some(e@),
        r is None ==> entry_of_line(line@) is None,
{
    if line.len() < 42 || line[40] != 32 {
        return None;
    }
    let (hex, rest) = line.split_at(40);
    let (_, path) = rest.split_at(1);
    assert(path@ =~= line@.subrange(41, line@.len() as int));
    if !is_valid_name(path) {
        return None;
    }
    match id_from_text(hex) {
        Some(id) => Some(StagingEntry { id, path: bytes_of(path) }),
        None => None,
    }
}

/// Reads the entries of an index text, skipping malformed lines.
pub fn parse_index(text: &[u8]) -> (r: Vec<StagingEntry>)
    ensures
        entries_view(r@) == index_of_text(text@),
{
    let ghost b = text@;
    let mut out: Vec<StagingEntry> = Vec::new();
    let mut start: usize = 0;
    let mut i: usize = 0;
    while i < text.len()
        invariant
            b == text@,
            start <= i <= b.len(),
            entries_view(out@) + scan_index(b, start as int, i as int) == index_of_text(b),
        decreases b.len() - i,
    {
        if text[i] == 10 {
            let (head, _) = text.split_at(i);
            let (_, line) = head.split_at(start);
            assert(line@ =~= b.subrange(start as int, i as int));
            let ghost before = entries_view(out@);
            match parse_index_line(line) {
                Some(e) => {
                    out.push(e);
                    assert(entries_view(out@) =~= before + entries_of_line(line@));
                },
                None => {
                    assert(entries_view(out@) =~= before + entries_of_line(line@));
                },
            }
            assert(before + (entries_of_line(line@) + scan_index(b, i + 1, i + 1)) =~= (before
                + entries_of_line(line@)) + scan_index(b, i + 1, i + 1));
            start = i + 1;
        }
        i = i + 1;
    }
    let (_, line) = text.split_at(start);
    assert(line@ =~= b.subrange(start as int, b.len() as int));
    let ghost before = entries_view(out@);
    match parse_index_line(line) {
        Some(e) => {
            out.push(e);
            assert(entries_view(out@) =~= before + entries_of_line(line@));
        },
        None => {
            assert(entries_view(out@) =~= before + entries_of_line(line@));
        },
    }
    out
}

/// Writing HEAD and reading it back gives the same HEAD, for a branch with a
/// valid name or a twenty-byte commit id.
pub proof fn lemma_head_round_trip(h: HeadView)
    requires
        match h {
            HeadView::Branch(b) => valid_name(b),
            HeadView::Detached(id) => id.len() == 20,
        },
    ensures
        head_of_text(head_text(h)) == Some(h),
{
    let t = head_text(h);
    match h {
        HeadView::Branch(b) => {
            assert(t.last() == b.last());
            assert(trim_end(t) == t);
            assert(t.subrange(0, 16) =~= head_ref_prefix());
            assert(t.subrange(16, t.len() as int) =~= b);
        },
        HeadView::Detached(id) => {
            lemma_hex_is_id_text(id);
            lemma_id_of_text(id);
            assert(is_hex_char(t[t.len() - 1]));
            assert(trim_end(t) == t);
            assert(is_hex_char(t[3]));
            assert(t.subrange(0, 16)[3] != head_ref_prefix()[3]);
        },
    }
}

proof fn lemma_index_text_prefix(s: Seq<(Seq<u8>, Seq<u8>)>, j: int)
    requires
        0 <= j <= s.len(),
    ensures
        index_text(s.subrange(0, j)).len() <= index_text(s).len(),
        index_text(s).subrange(0, index_text(s.subrange(0, j)).len() as int) == index_text(
            s.subrange(0, j),
        ),
    decreases s.len(),
{
    if j == s.len() {
        assert(s.subrange(0, j) =~= s);
    } else {
        let d = s.drop_last();
        lemma_index_text_prefix(d, j);
        assert(d.subrange(0, j) =~= s.subrange(0, j));
        assert(index_text(s) == index_text(d) + index_line(s.last()));
        let n = index_text(s.subrange(0, j)).len() as int;
        assert(index_text(s).subrange(0, n) =~= index_text(d).subrange(0, n));
    }
}

proof fn lemma_index_scan_skip(b: Seq<u8>, start: int, i: int, j: int)
    requires
        0 <= start <= i <= j <= b.len(),
        forall|k: int| i <= k < j ==> b[k] != 10,
    ensures
        scan_index(b, start, i) == scan_index(b, start, j),
    decreases j - i,
{
    if i < j {
        lemma_index_scan_skip(b, start, i + 1, j);
    }
}

/// Reading back the line of an entry gives the entry.
proof fn lemma_entry_of_line(e: (Seq<u8>, Seq<u8>))
    requires
        e.0.len() == 20,
        valid_name(e.1),
    ensures
        entry_of_line(index_line(e).drop_last()) == Some(e),
        forall|k: int| 0 <= k < index_line(e).len() - 1 ==> index_line(e)[k] != 10,
        index_line(e).last() == 10,
{
    let line = index_line(e).drop_last();
    let h = hex_of(e.0);
    lemma_hex_is_id_text(e.0);
    lemma_id_of_text(e.0);
    assert(line =~= h + seq![32u8] + e.1);
    assert(line.subrange(0, 40) =~= h);
    assert(line.subrange(41, line.len() as int) =~= e.1);
    assert forall|k: int| 0 <= k < index_line(e).len() - 1 implies index_line(e)[k] != 10 by {
        if k < 40 {
            assert(index_line(e)[k] == h[k]);
            assert(is_hex_char(h[k]));
        } else if k > 40 {
            assert(index_line(e)[k] == e.1[k - 41]);
        }
    }
}

proof fn lemma_index_scan_from(s: Seq<(Seq<u8>, Seq<u8>)>, k: int)
    requires
        0 <= k <= s.len(),
        forall|i: int| 0 <= i < s.len() ==> (#[trigger] s[i]).0.len() == 20 && valid_name(s[i].1),
    ensures
        ({
            let p = index_text(s.subrange(0, k)).len() as int;
            scan_index(index_text(s), p, p) == s.subrange(k, s.len() as int)
        }),
    decreases s.len() - k,
{
    let b = index_text(s);
    lemma_index_text_prefix(s, k);
    let p = index_text(s.subrange(0, k)).len() as int;
    if k == s.len() {
        assert(s.subrange(0, k) =~= s);
        assert(b.subrange(p, b.len() as int).len() == 0);
        assert(entry_of_line(b.subrange(p, b.len() as int)) is None);
        assert(s.subrange(k, s.len() as int) =~= Seq::<(Seq<u8>, Seq<u8>)>::empty());
    } else {
        lemma_index_text_prefix(s, k + 1);
        let q = index_text(s.subrange(0, k + 1)).len() as int;
        assert(s.subrange(0, k + 1).drop_last() =~= s.subrange(0, k));
        let line = index_line(s[k]);
        assert(index_text(s.subrange(0, k + 1)) == index_text(s.subrange(0, k)) + line);
        assert(b.subrange(p, q) =~= line) by {
            assert(b.subrange(0, q) == index_text(s.subrange(0, k)) + line);
            assert(b.subrange(p, q) =~= b.subrange(0, q).subrange(p, q));
        }
        lemma_entry_of_line(s[k]);
        assert forall|i: int| p <= i < q - 1 implies b[i] != 10 by {
            assert(b[i] == b.subrange(p, q)[i - p]);
        }
        assert(b[q - 1] == b.subrange(p, q)[q - 1 - p]);
        lemma_index_scan_skip(b, p, p, q - 1);
        assert(b.subrange(p, q - 1) =~= line.drop_last());
        lemma_index_scan_from(s, k + 1);
        assert(s.subrange(k, s.len() as int) =~= seq![s[k]] + s.subrange(k + 1, s.len() as int));
    }
}

/// Writing the index and reading it back gives the same entries, when every
/// id is twenty bytes and every path a valid name.
pub proof fn lemma_index_round_trip(s: Seq<(Seq<u8>, Seq<u8>)>)
    requires
        forall|i: int| 0 <= i < s.len() ==> (#[trigger] s[i]).0.len() == 20 && valid_name(s[i].1),
    ensures
        index_of_text(index_text(s)) == s,
{
    lemma_index_scan_from(s, 0);
    assert(s.subrange(0, 0) =~= Seq::<(Seq<u8>, Seq<u8>)>::empty());
    assert(s.subrange(0, s.len() as int) =~= s);
}

} // verus!
