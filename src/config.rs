use vstd::prelude::*;

use crate::bytes::{bytes_eq, bytes_of, push_all, trim, trim_bounds, trim_end, trim_start};
use crate::index::valid_name;

verus! {

/// A section header line such as `[user]`.
pub open spec fn is_header(t: Seq<u8>) -> bool {
    t.len() >= 2 && t[0] == 91 && t.last() == 93
}

/// `" = "` stands at position `j` of `t`.
pub open spec fn sep_at(t: Seq<u8>, j: int) -> bool {
    0 <= j && j + 3 <= t.len() && t[j] == 32 && t[j + 1] == 61 && t[j + 2] == 32
}

/// The first position at or after `j` where `" = "` stands, or -1.
pub open spec fn first_sep_from(t: Seq<u8>, j: int) -> int
    decreases t.len() - j,
{
    if j < 0 || j + 3 > t.len() {
        -1
    } else if sep_at(t, j) {
        j
    } else {
        first_sep_from(t, j + 1)
    }
}

/// The key and value of a trimmed `key = value` line, split at the first `" = "`.
pub open spec fn entry_of(t: Seq<u8>) -> Option<(Seq<u8>, Seq<u8>)> {
    let j = first_sep_from(t, 0);
    if j >= 0 {
        Some((t.subrange(0, j), t.subrange(j + 3, t.len() as int)))
    } else {
        None
    }
}

/// The lines of `b` from position `i` on, where the current line began at
/// `start`. A final newline ends the last line; it does not start an empty one.
pub open spec fn split_scan(b: Seq<u8>, start: int, i: int) -> Seq<Seq<u8>>
    decreases b.len() - i,
{
    if i >= b.len() || i < start || start < 0 {
        if 0 <= start < b.len() {
            seq![b.subrange(start, b.len() as int)]
        } else {
            Seq::empty()
        }
    } else if b[i] == 10 {
        seq![b.subrange(start, i)] + split_scan(b, i + 1, i + 1)
    } else {
        split_scan(b, start, i + 1)
    }
}

/// The lines of a text.
pub open spec fn lines_of(b: Seq<u8>) -> Seq<Seq<u8>> {
    split_scan(b, 0, 0)
}

/// Lines written out, each followed by a newline.
pub open spec fn join_lines(ls: Seq<Seq<u8>>) -> Seq<u8>
    decreases ls.len(),
{
    if ls.len() == 0 {
        Seq::empty()
    } else {
        join_lines(ls.drop_last()) + ls.last() + seq![10u8]
    }
}

/// Whether `section` is the current section just before line `i`: the last
/// header line before it is that section.
pub open spec fn in_section(ls: Seq<Seq<u8>>, i: int, section: Seq<u8>) -> bool
    decreases i,
{
    if i <= 0 || i > ls.len() {
        false
    } else if is_header(trim(ls[i - 1])) {
        trim(ls[i - 1]) == section
    } else {
        in_section(ls, i - 1, section)
    }
}

/// Line `i` is a `key = value` entry of `section`.
pub open spec fn is_key_line(ls: Seq<Seq<u8>>, i: int, section: Seq<u8>, key: Seq<u8>) -> bool {
    &&& 0 <= i < ls.len()
    &&& !is_header(trim(ls[i]))
    &&& in_section(ls, i, section)
    &&& entry_of(trim(ls[i])) is Some
    &&& entry_of(trim(ls[i])).unwrap().0 == key
}

/// The first entry line of `key` in `section` at or after `j`, or -1.
pub open spec fn first_key_line(ls: Seq<Seq<u8>>, section: Seq<u8>, key: Seq<u8>, j: int) -> int
    decreases ls.len() - j,
{
    if j < 0 || j >= ls.len() {
        -1
    } else if is_key_line(ls, j, section, key) {
        j
    } else {
        first_key_line(ls, section, key, j + 1)
    }
}

/// The first header line of `section` at or after `j`, or -1.
pub open spec fn first_header(ls: Seq<Seq<u8>>, section: Seq<u8>, j: int) -> int
    decreases ls.len() - j,
{
    if j < 0 || j >= ls.len() {
        -1
    } else if is_header(trim(ls[j])) && trim(ls[j]) == section {
        j
    } else {
        first_header(ls, section, j + 1)
    }
}

/// The value of the first entry of `key` in `section`.
pub open spec fn lookup_lines(ls: Seq<Seq<u8>>, section: Seq<u8>, key: Seq<u8>) -> Option<Seq<u8>> {
    let k = first_key_line(ls, section, key, 0);
    if k >= 0 {
        Some(entry_of(trim(ls[k])).unwrap().1)
    } else {
        None
    }
}

/// The value of `key` in `section` of a configuration text.
pub open spec fn config_value(b: Seq<u8>, section: Seq<u8>, key: Seq<u8>) -> Option<Seq<u8>> {
    lookup_lines(lines_of(b), section, key)
}

/// `"    <key> = <value>"`
pub open spec fn entry_line(key: Seq<u8>, value: Seq<u8>) -> Seq<u8> {
    seq![32u8, 32u8, 32u8, 32u8] + key + seq![32u8, 61u8, 32u8] + value
}

/// The lines after setting `key` to `value` in `section`: the first entry of
/// the key in the section is replaced; failing that, the entry goes right
/// after the section's first header; failing that, the header and the entry
/// are added at the end. Every other line is kept, in order.
pub open spec fn set_lines(ls: Seq<Seq<u8>>, section: Seq<u8>, key: Seq<u8>, value: Seq<u8>) -> Seq<
    Seq<u8>,
> {
    let k = first_key_line(ls, section, key, 0);
    let h = first_header(ls, section, 0);
    if k >= 0 {
        ls.update(k, entry_line(key, value))
    } else if h >= 0 {
        ls.insert(h + 1, entry_line(key, value))
    } else {
        ls.push(section).push(entry_line(key, value))
    }
}

/// The configuration text after setting `key` to `value` in `section`.
pub open spec fn config_set_text(b: Seq<u8>, section: Seq<u8>, key: Seq<u8>, value: Seq<u8>) -> Seq<u8> {
    join_lines(set_lines(lines_of(b), section, key, value))
}

proof fn lemma_in_section_prefix(a: Seq<Seq<u8>>, b: Seq<Seq<u8>>, i: int, section: Seq<u8>)
    requires
        0 <= i <= a.len(),
        i <= b.len(),
        forall|j: int| 0 <= j < i ==> a[j] == b[j],
    ensures
        in_section(a, i, section) == in_section(b, i, section),
    decreases i,
{
    if i > 0 {
        lemma_in_section_prefix(a, b, i - 1, section);
    }
}

proof fn lemma_first_key_line(ls: Seq<Seq<u8>>, section: Seq<u8>, key: Seq<u8>, j: int)
    requires
        0 <= j <= ls.len(),
    ensures
        ({
            let r = first_key_line(ls, section, key, j);
            &&& r == -1 || (j <= r < ls.len() && is_key_line(ls, r, section, key))
            &&& forall|i: int| j <= i < ls.len() && (r == -1 || i < r) ==> !is_key_line(ls, i, section, key)
        }),
    decreases ls.len() - j,
{
    if j < ls.len() {
        lemma_first_key_line(ls, section, key, j + 1);
    }
}

proof fn lemma_first_key_line_at(ls: Seq<Seq<u8>>, section: Seq<u8>, key: Seq<u8>, j: int, r: int)
    requires
        0 <= j <= r < ls.len(),
        is_key_line(ls, r, section, key),
        forall|i: int| j <= i < r ==> !is_key_line(ls, i, section, key),
    ensures
        first_key_line(ls, section, key, j) == r,
    decreases r - j,
{
    if j < r {
        lemma_first_key_line_at(ls, section, key, j + 1, r);
    }
}

proof fn lemma_first_header(ls: Seq<Seq<u8>>, section: Seq<u8>, j: int)
    requires
        0 <= j <= ls.len(),
    ensures
        ({
            let r = first_header(ls, section, j);
            r == -1 || (j <= r < ls.len() && is_header(trim(ls[r])) && trim(ls[r]) == section)
        }),
    decreases ls.len() - j,
{
    if j < ls.len() {
        lemma_first_header(ls, section, j + 1);
    }
}

proof fn lemma_first_sep_after_key(m: Seq<u8>, lk: int, j: int)
    requires
        0 <= j <= lk,
        lk + 3 <= m.len(),
        forall|k: int| 0 <= k < lk ==> m[k] > 32,
        m[lk] == 32 && m[lk + 1] == 61 && m[lk + 2] == 32,
    ensures
        first_sep_from(m, j) == lk,
    decreases lk - j,
{
    if j < lk {
        lemma_first_sep_after_key(m, lk, j + 1);
    }
}

/// An entry line is no header and reads back as its key and value.
proof fn lemma_entry_line(key: Seq<u8>, value: Seq<u8>)
    requires
        valid_name(key),
        key[0] != 91,
        value.len() > 0,
        value.last() > 32,
    ensures
        !is_header(trim(entry_line(key, value))),
        entry_of(trim(entry_line(key, value))) == Some((key, value)),
{
    let lk = key.len() as int;
    let m = key + seq![32u8, 61u8, 32u8] + value;
    let line = entry_line(key, value);
    assert(line.last() == value.last());
    assert(trim_end(line) == line);
    assert(line.drop_first().drop_first().drop_first().drop_first() =~= m);
    assert(m[0] == key[0]);
    assert(trim_start(m) == m);
    assert(trim_start(line.drop_first().drop_first().drop_first()) == trim_start(m));
    assert(trim_start(line.drop_first().drop_first()) == trim_start(m));
    assert(trim_start(line.drop_first()) == trim_start(m));
    assert(trim(line) == m);
    assert forall|k: int| 0 <= k < lk implies m[k] > 32 by {
        assert(m[k] == key[k]);
    }
    lemma_first_sep_after_key(m, lk, 0);
    assert(m.subrange(0, lk) =~= key);
    assert(m.subrange(lk + 3, m.len() as int) =~= value);
}

/// Setting a key and reading it back, on lines: after `set_lines`, the
/// lookup of the same section and key gives the value set. The section is a
/// header line, the key a name without spaces that does not start with `[`,
/// and the value non-empty, not ending in whitespace.
pub proof fn lemma_set_then_lookup(ls: Seq<Seq<u8>>, section: Seq<u8>, key: Seq<u8>, value: Seq<u8>)
    requires
        is_header(section),
        valid_name(key),
        key[0] != 91,
        value.len() > 0,
        value.last() > 32,
    ensures
        lookup_lines(set_lines(ls, section, key, value), section, key) == Some(value),
{
    let e = entry_line(key, value);
    lemma_entry_line(key, value);
    assert(trim_end(section) == section);
    assert(trim_start(section) == section);
    let k = first_key_line(ls, section, key, 0);
    let h = first_header(ls, section, 0);
    lemma_first_key_line(ls, section, key, 0);
    lemma_first_header(ls, section, 0);
    let out = set_lines(ls, section, key, value);
    if k >= 0 {
        assert(out == ls.update(k, e));
        lemma_in_section_prefix(ls, out, k, section);
        assert forall|i: int| 0 <= i < k implies !is_key_line(out, i, section, key) by {
            assert(!is_key_line(ls, i, section, key));
            assert(out[i] == ls[i]);
            lemma_in_section_prefix(ls, out, i, section);
        }
        lemma_first_key_line_at(out, section, key, 0, k);
    } else if h >= 0 {
        assert(out == ls.insert(h + 1, e));
        assert forall|i: int| 0 <= i <= h implies !is_key_line(out, i, section, key) by {
            assert(!is_key_line(ls, i, section, key));
            assert(out[i] == ls[i]);
            lemma_in_section_prefix(ls, out, i, section);
        }
        lemma_in_section_prefix(ls, out, h, section);
        assert(out[h] == ls[h]);
        assert(out[h + 1] == e);
        assert(in_section(out, h + 1, section));
        lemma_first_key_line_at(out, section, key, 0, h + 1);
    } else {
        let n = ls.len() as int;
        assert(out == ls.push(section).push(e));
        assert forall|i: int| 0 <= i < n implies !is_key_line(out, i, section, key) by {
            assert(!is_key_line(ls, i, section, key));
            assert(out[i] == ls[i]);
            lemma_in_section_prefix(ls, out, i, section);
        }
        assert(out[n] == section);
        assert(!is_key_line(out, n, section, key));
        assert(out[n + 1] == e);
        assert(in_section(out, n + 1, section));
        lemma_first_key_line_at(out, section, key, 0, n + 1);
    }
}

proof fn lemma_split_skip(b: Seq<u8>, start: int, i: int, j: int)
    requires
        0 <= start <= i <= j <= b.len(),
        forall|k: int| i <= k < j ==> b[k] != 10,
    ensures
        split_scan(b, start, i) == split_scan(b, start, j),
    decreases j - i,
{
    if i < j {
        lemma_split_skip(b, start, i + 1, j);
    }
}

proof fn lemma_join_prefix(ls: Seq<Seq<u8>>, j: int)
    requires
        0 <= j <= ls.len(),
    ensures
        join_lines(ls.subrange(0, j)).len() <= join_lines(ls).len(),
        join_lines(ls).subrange(0, join_lines(ls.subrange(0, j)).len() as int) == join_lines(
            ls.subrange(0, j),
        ),
    decreases ls.len(),
{
    if j == ls.len() {
        assert(ls.subrange(0, j) =~= ls);
    } else {
        let d = ls.drop_last();
        lemma_join_prefix(d, j);
        assert(d.subrange(0, j) =~= ls.subrange(0, j));
        let n = join_lines(ls.subrange(0, j)).len() as int;
        assert(join_lines(ls).subrange(0, n) =~= join_lines(d).subrange(0, n));
    }
}

proof fn lemma_split_join_from(ls: Seq<Seq<u8>>, k: int)
    requires
        0 <= k <= ls.len(),
        forall|i: int, c: int| 0 <= i < ls.len() && 0 <= c < ls[i].len() ==> (#[trigger] ls[i][c]) != 10,
    ensures
        ({
            let p = join_lines(ls.subrange(0, k)).len() as int;
            split_scan(join_lines(ls), p, p) == ls.subrange(k, ls.len() as int)
        }),
    decreases ls.len() - k,
{
    let b = join_lines(ls);
    lemma_join_prefix(ls, k);
    let p = join_lines(ls.subrange(0, k)).len() as int;
    if k == ls.len() {
        assert(ls.subrange(0, k) =~= ls);
        assert(ls.subrange(k, ls.len() as int) =~= Seq::<Seq<u8>>::empty());
    } else {
        lemma_join_prefix(ls, k + 1);
        let q = join_lines(ls.subrange(0, k + 1)).len() as int;
        assert(ls.subrange(0, k + 1).drop_last() =~= ls.subrange(0, k));
        let line = ls[k] + seq![10u8];
        assert(join_lines(ls.subrange(0, k + 1)) == join_lines(ls.subrange(0, k)) + ls[k] + seq![10u8]);
        assert(b.subrange(p, q) =~= line) by {
            assert(b.subrange(0, q) =~= join_lines(ls.subrange(0, k)) + line);
            assert(b.subrange(p, q) =~= b.subrange(0, q).subrange(p, q));
        }
        assert forall|i: int| p <= i < q - 1 implies b[i] != 10 by {
            assert(b[i] == b.subrange(p, q)[i - p]);
            assert(line[i - p] == ls[k][i - p]);
        }
        assert(b[q - 1] == b.subrange(p, q)[q - 1 - p]);
        lemma_split_skip(b, p, p, q - 1);
        assert(b.subrange(p, q - 1) =~= ls[k]);
        lemma_split_join_from(ls, k + 1);
        assert(ls.subrange(k, ls.len() as int) =~= seq![ls[k]] + ls.subrange(k + 1, ls.len() as int));
    }
}

/// Writing lines that hold no newline and splitting the text again gives
/// the same lines.
pub proof fn lemma_split_join(ls: Seq<Seq<u8>>)
    requires
        forall|i: int, c: int| 0 <= i < ls.len() && 0 <= c < ls[i].len() ==> (#[trigger] ls[i][c]) != 10,
    ensures
        lines_of(join_lines(ls)) == ls,
{
    lemma_split_join_from(ls, 0);
    assert(ls.subrange(0, 0) =~= Seq::<Seq<u8>>::empty());
    assert(ls.subrange(0, ls.len() as int) =~= ls);
}

proof fn lemma_split_no_newline(b: Seq<u8>, start: int, i: int)
    requires
        0 <= start <= i <= b.len(),
        forall|k: int| start <= k < i ==> b[k] != 10,
    ensures
        forall|x: int, c: int|
            0 <= x < split_scan(b, start, i).len() && 0 <= c < split_scan(b, start, i)[x].len()
                ==> (#[trigger] split_scan(b, start, i)[x][c]) != 10,
    decreases b.len() - i,
{
    let r = split_scan(b, start, i);
    if i >= b.len() {
        if start < b.len() {
            assert(r == seq![b.subrange(start, b.len() as int)]);
            assert forall|x: int, c: int| 0 <= x < r.len() && 0 <= c < r[x].len() implies (
            #[trigger] r[x][c]) != 10 by {
                assert(r[x] == b.subrange(start, b.len() as int));
                assert(r[x][c] == b[start + c]);
            }
        }
    } else if b[i] == 10 {
        lemma_split_no_newline(b, i + 1, i + 1);
        let rest = split_scan(b, i + 1, i + 1);
        assert(r == seq![b.subrange(start, i)] + rest);
        assert forall|x: int, c: int| 0 <= x < r.len() && 0 <= c < r[x].len() implies (
        #[trigger] r[x][c]) != 10 by {
            if x == 0 {
                assert(r[0] == b.subrange(start, i));
                assert(r[0][c] == b[start + c]);
            } else {
                assert(r[x] == rest[x - 1]);
            }
        }
    } else {
        lemma_split_no_newline(b, start, i + 1);
        assert(r == split_scan(b, start, i + 1));
    }
}

/// Setting a key and reading it back: after `set_config`, `get_config` of
/// the same section and key gives the value set. The section is a header
/// line without newlines, the key a name without spaces that does not start
/// with `[`, and the value a non-empty line that does not end in whitespace.
pub proof fn lemma_set_then_get(b: Seq<u8>, section: Seq<u8>, key: Seq<u8>, value: Seq<u8>)
    requires
        is_header(section),
        forall|c: int| 0 <= c < section.len() ==> section[c] != 10,
        valid_name(key),
        key[0] != 91,
        value.len() > 0,
        value.last() > 32,
        forall|c: int| 0 <= c < value.len() ==> value[c] != 10,
    ensures
        config_value(config_set_text(b, section, key, value), section, key) == Some(value),
{
    let ls = lines_of(b);
    lemma_split_no_newline(b, 0, 0);
    let out = set_lines(ls, section, key, value);
    let e = entry_line(key, value);
    assert forall|c: int| 0 <= c < e.len() implies e[c] != 10 by {
        if 4 <= c < 4 + key.len() {
            assert(e[c] == key[c - 4]);
        } else if c >= 7 + key.len() {
            assert(e[c] == value[c - 7 - key.len()]);
        }
    }
    let k = first_key_line(ls, section, key, 0);
    let h = first_header(ls, section, 0);
    lemma_first_key_line(ls, section, key, 0);
    lemma_first_header(ls, section, 0);
    if k >= 0 {
        assert(out == ls.update(k, e));
    } else if h >= 0 {
        assert(out == ls.insert(h + 1, e));
    } else {
        assert(out == ls.push(section).push(e));
    }
    assert forall|i: int, c: int| 0 <= i < out.len() && 0 <= c < out[i].len() implies (
    #[trigger] out[i][c]) != 10 by {
        if k >= 0 {
            if i != k {
                assert(out[i] == ls[i]);
            }
        } else if h >= 0 {
            if i < h + 1 {
                assert(out[i] == ls[i]);
            } else if i > h + 1 {
                assert(out[i] == ls[i - 1]);
            }
        } else {
            if i < ls.len() {
                assert(out[i] == ls[i]);
            }
        }
    }
    lemma_split_join(out);
    lemma_set_then_lookup(ls, section, key, value);
}

/// The bytes of `line` without whitespace or control bytes at either end.
fn trimmed(line: &[u8]) -> (t: &[u8])
    ensures
        t@ == trim(line@),
{
    let (lo, hi) = trim_bounds(line);
    let (head, _) = line.split_at(hi);
    let (_, t) = head.split_at(lo);
    assert(t@ =~= trim(line@));
    t
}

fn find_sep(t: &[u8]) -> (r: Option<usize>)
    ensures
        r matches Some(j) ==> first_sep_from(t@, 0) == j && j + 3 <= t@.len(),
        r is None ==> first_sep_from(t@, 0) == -1,
{
    let n = t.len();
    let mut j: usize = 0;
    while n >= 3 && j <= n - 3
        invariant
            n == t@.len(),
            j <= t@.len(),
            first_sep_from(t@, 0) == first_sep_from(t@, j as int),
        decreases t@.len() - j,
    {
        if t[j] == 32 && t[j + 1] == 61 && t[j + 2] == 32 {
            return Some(j);
        }
        j = j + 1;
    }
    None
}

pub open spec fn lines_view(v: Seq<Vec<u8>>) -> Seq<Seq<u8>> {
    Seq::new(v.len(), |i: int| v[i]@)
}

pub open spec fn opt_bytes(o: Option<Vec<u8>>) -> Option<Seq<u8>> {
    match o {
        Some(v) => Some(v@),
        None => None,
    }
}

/// Splits a text into its lines.
fn split_lines(text: &[u8]) -> (r: Vec<Vec<u8>>)
    ensures
        lines_view(r@) == lines_of(text@),
{
    let ghost b = text@;
    let mut out: Vec<Vec<u8>> = Vec::new();
    let mut start: usize = 0;
    let mut i: usize = 0;
    while i < text.len()
        invariant
            b == text@,
            start <= i <= b.len(),
            lines_view(out@) + split_scan(b, start as int, i as int) == lines_of(b),
        decreases b.len() - i,
    {
        if text[i] == 10 {
            let (head, _) = text.split_at(i);
            let (_, line) = head.split_at(start);
            assert(line@ =~= b.subrange(start as int, i as int));
            let ghost before = lines_view(out@);
            out.push(bytes_of(line));
            assert(lines_view(out@) =~= before + seq![line@]);
            assert(before + (seq![line@] + split_scan(b, i + 1, i + 1)) =~= (before + seq![line@])
                + split_scan(b, i + 1, i + 1));
            start = i + 1;
        }
        i = i + 1;
    }
    let ghost before = lines_view(out@);
    if start < text.len() {
        let (_, line) = text.split_at(start);
        assert(line@ =~= b.subrange(start as int, b.len() as int));
        out.push(bytes_of(line));
        assert(lines_view(out@) =~= before + seq![line@]);
    } else {
        assert(lines_view(out@) =~= before + Seq::<Seq<u8>>::empty());
    }
    out
}

/// Writes lines out, each followed by a newline.
fn join(lines: &Vec<Vec<u8>>) -> (r: Vec<u8>)
    ensures
        r@ == join_lines(lines_view(lines@)),
{
    let ghost ls = lines_view(lines@);
    let mut out: Vec<u8> = Vec::new();
    let mut i: usize = 0;
    while i < lines.len()
        invariant
            ls == lines_view(lines@),
            i <= ls.len(),
            out@ == join_lines(ls.subrange(0, i as int)),
        decreases ls.len() - i,
    {
        let ghost before = out@;
        push_all(&mut out, lines[i].as_slice());
        out.push(10u8);
        assert(ls.subrange(0, i + 1).drop_last() =~= ls.subrange(0, i as int));
        assert(out@ =~= before + ls[i as int] + seq![10u8]);
        i = i + 1;
    }
    assert(ls.subrange(0, i as int) =~= ls);
    out
}

/// The position of the first entry line of `key` in `section`.
fn find_key_line(lines: &Vec<Vec<u8>>, section: &[u8], key: &[u8]) -> (r: Option<usize>)
    ensures
        r matches Some(k) ==> first_key_line(lines_view(lines@), section@, key@, 0) == k,
        r is None ==> first_key_line(lines_view(lines@), section@, key@, 0) == -1,
{
    let ghost ls = lines_view(lines@);
    let mut in_sec = false;
    let mut j: usize = 0;
    while j < lines.len()
        invariant
            ls == lines_view(lines@),
            j <= ls.len(),
            in_sec == in_section(ls, j as int, section@),
            forall|i: int| 0 <= i < j ==> !is_key_line(ls, i, section@, key@),
        decreases ls.len() - j,
    {
        let t = trimmed(lines[j].as_slice());
        assert(ls[j as int] == lines@[j as int]@);
        let header = t.len() >= 2 && t[0] == 91 && t[t.len() - 1] == 93;
        if header {
            in_sec = bytes_eq(t, section);
        } else if in_sec {
            match find_sep(t) {
                Some(s) => {
                    let (k, _) = t.split_at(s);
                    if bytes_eq(k, key) {
                        proof {
                            lemma_first_key_line_at(ls, section@, key@, 0, j as int);
                        }
                        return Some(j);
                    }
                },
                None => {},
            }
        }
        j = j + 1;
    }
    proof {
        lemma_first_key_line(ls, section@, key@, 0);
        if first_key_line(ls, section@, key@, 0) != -1 {
            let r = first_key_line(ls, section@, key@, 0);
            assert(is_key_line(ls, r, section@, key@));
        }
    }
    None
}

/// The position of the first header line of `section`.
fn find_header(lines: &Vec<Vec<u8>>, section: &[u8]) -> (r: Option<usize>)
    ensures
        r matches Some(h) ==> first_header(lines_view(lines@), section@, 0) == h && h < lines@.len(),
        r is None ==> first_header(lines_view(lines@), section@, 0) == -1,
{
    let ghost ls = lines_view(lines@);
    let mut j: usize = 0;
    while j < lines.len()
        invariant
            ls == lines_view(lines@),
            j <= ls.len(),
            first_header(ls, section@, 0) == first_header(ls, section@, j as int),
        decreases ls.len() - j,
    {
        let t = trimmed(lines[j].as_slice());
        assert(ls[j as int] == lines@[j as int]@);
        if t.len() >= 2 && t[0] == 91 && t[t.len() - 1] == 93 && bytes_eq(t, section) {
            return Some(j);
        }
        j = j + 1;
    }
    None
}

/// The value of the first entry of `key` in `section` (a header such as
/// `[user]`) of a configuration text.
pub fn get_config(text: &[u8], section: &[u8], key: &[u8]) -> (r: Option<Vec<u8>>)
    ensures
        opt_bytes(r) == config_value(text@, section@, key@),
{
    let lines = split_lines(text);
    match find_key_line(&lines, section, key) {
        Some(k) => {
            proof {
                lemma_first_key_line(lines_view(lines@), section@, key@, 0);
            }
            let t = trimmed(lines[k].as_slice());
            assert(lines_view(lines@)[k as int] == lines@[k as int]@);
            match find_sep(t) {
                Some(s) => {
                    let (_, rest) = t.split_at(s);
                    let (_, v) = rest.split_at(3);
                    assert(v@ =~= t@.subrange(s + 3, t@.len() as int));
                    Some(bytes_of(v))
                },
                None => None,
            }
        },
        None => None,
    }
}

/// The configuration text with `key` set to `value` in `section`: the key's
/// first entry in the section is replaced in place; a missing entry goes
/// right after the section's header, and a missing section is added at the
/// end. Every other line is kept, in order.
pub fn set_config(text: &[u8], section: &[u8], key: &[u8], value: &[u8]) -> (r: Vec<u8>)
    ensures
        r@ == config_set_text(text@, section@, key@, value@),
{
    let mut lines = split_lines(text);
    let ghost ls = lines_view(lines@);
    let mut entry: Vec<u8> = vec![32u8, 32u8, 32u8, 32u8];
    push_all(&mut entry, key);
    push_all(&mut entry, &[32u8, 61u8, 32u8]);
    push_all(&mut entry, value);
    assert(entry@ =~= entry_line(key@, value@));
    match find_key_line(&lines, section, key) {
        Some(k) => {
            proof {
                lemma_first_key_line(ls, section@, key@, 0);
            }
            lines[k] = entry;
            assert(lines_view(lines@) =~= ls.update(k as int, entry_line(key@, value@)));
        },
        None => match find_header(&lines, section) {
            Some(h) => {
                let n = lines.len();
                assert(h < n);
                lines.insert(h + 1, entry);
                assert(lines_view(lines@) =~= ls.insert(h + 1, entry_line(key@, value@)));
            },
            None => {
                lines.push(bytes_of(section));
                lines.push(entry);
                assert(lines_view(lines@) =~= ls.push(section@).push(entry_line(key@, value@)));
            },
        },
    }
    join(&lines)
}

} // verus!
