use vstd::prelude::*;

use crate::error::RepoError;
use crate::bytes::{bytes_eq, bytes_of};
use crate::object_id::{ObjectId, DIGEST_LEN};
use sha1::Digest;

verus! {

/// The three kinds of stored object.
#[derive(Debug, Clone, Copy, PartialEq, Eq, Structural)]
pub enum ObjectKind {
    Blob,
    Tree,
    Commit,
}

/// The type tag written in an object's header.
pub open spec fn kind_tag(k: ObjectKind) -> Seq<u8> {
    match k {
        ObjectKind::Blob => seq![98u8, 108u8, 111u8, 98u8],
        ObjectKind::Tree => seq![116u8, 114u8, 101u8, 101u8],
        ObjectKind::Commit => seq![99u8, 111u8, 109u8, 109u8, 105u8, 116u8],
    }
}

/// The decimal digits of a number, without leading zeros.
pub open spec fn decimal(n: nat) -> Seq<u8>
    decreases n,
{
    if n < 10 {
        seq![(48 + n) as u8]
    } else {
        decimal(n / 10).push((48 + n % 10) as u8)
    }
}

/// The canonical header `"<tag> <length>\0"`.
pub open spec fn header(k: ObjectKind, n: nat) -> Seq<u8> {
    kind_tag(k) + seq![32u8] + decimal(n) + seq![0u8]
}

/// Header followed by payload: the bytes that are fingerprinted and compressed.
pub open spec fn framed(k: ObjectKind, p: Seq<u8>) -> Seq<u8> {
    header(k, p.len()) + p
}

/// Position of the first zero byte, or the length when there is none.
pub open spec fn first_zero(s: Seq<u8>) -> int
    decreases s.len(),
{
    if s.len() == 0 {
        0
    } else if s[0] == 0 {
        0
    } else {
        1 + first_zero(s.drop_first())
    }
}

/// The payload of framed bytes whose header names kind `k` and the payload's
/// true length; `None` for anything else.
pub open spec fn unframe(raw: Seq<u8>, k: ObjectKind) -> Option<Seq<u8>> {
    let z = first_zero(raw);
    if z < raw.len() && raw.subrange(0, z + 1) == header(k, (raw.len() - z - 1) as nat) {
        Some(raw.subrange(z + 1, raw.len() as int))
    } else {
        None
    }
}

/// SHA-1 of the given bytes.
pub uninterp spec fn sha1_of(data: Seq<u8>) -> Seq<u8>;

/// zlib compression, at the default level, of the given bytes.
pub uninterp spec fn deflated(data: Seq<u8>) -> Seq<u8>;

/// zlib decompression of the given bytes: the data of the stream they start
/// with, or `None` where they start with no valid stream.
pub uninterp spec fn inflated(data: Seq<u8>) -> Option<Seq<u8>>;

/// The id of an object of kind `k` with payload `p`.
pub open spec fn fingerprint(k: ObjectKind, p: Seq<u8>) -> Seq<u8> {
    sha1_of(framed(k, p))
}

/// Relies on `sha1::Sha1` through `Digest::digest`: the digest depends on the
/// input alone and is twenty bytes long (its output size is `U20`).
#[verifier::external_body]
fn sha1_digest(data: &[u8]) -> (r: Vec<u8>)
    ensures
        r@ == sha1_of(data@),
        r@.len() == DIGEST_LEN,
{
    sha1::Sha1::digest(data).to_vec()
}

/// Relies on `flate2::write::ZlibEncoder` with `Compression::default()`:
/// the compressed stream depends on the input alone, and compressing into a
/// `Vec` cannot fail (writing to a `Vec` never errors, and deflate at the
/// default level into an output buffer reports no error).
#[verifier::external_body]
fn zlib_compress(data: &[u8]) -> (r: Option<Vec<u8>>)
    ensures
        r is Some,
        r matches Some(c) ==> c@ == deflated(data@),
{
    let mut encoder = flate2::write::ZlibEncoder::new(Vec::new(), flate2::Compression::default());
    match std::io::Write::write_all(&mut encoder, data) {
        Ok(()) => encoder.finish().ok(),
        Err(_) => None,
    }
}

/// Relies on `flate2::read::ZlibDecoder` read to the end: the outcome depends on
/// the input alone, and a stream made by `ZlibEncoder` decodes to exactly the
/// bytes that were compressed.
#[verifier::external_body]
fn zlib_decompress(data: &[u8]) -> (r: Option<Vec<u8>>)
    ensures
        r matches Some(v) ==> inflated(data@) == Some(v@),
        r is None ==> inflated(data@) is None,
        forall|x: Seq<u8>| data@ == #[trigger] deflated(x) ==> r is Some && r.unwrap()@ == x,
{
    let mut decoder = flate2::read::ZlibDecoder::new(data);
    let mut out: Vec<u8> = Vec::new();
    match std::io::Read::read_to_end(&mut decoder, &mut out) {
        Ok(_) => Some(out),
        Err(_) => None,
    }
}

fn tag_bytes(k: ObjectKind) -> (r: Vec<u8>)
    ensures
        r@ == kind_tag(k),
{
    let r = match k {
        ObjectKind::Blob => vec![98u8, 108u8, 111u8, 98u8],
        ObjectKind::Tree => vec![116u8, 114u8, 101u8, 101u8],
        ObjectKind::Commit => vec![99u8, 111u8, 109u8, 109u8, 105u8, 116u8],
    };
    assert(r@ =~= kind_tag(k));
    r
}

/// Appends the decimal digits of `n`.
pub fn push_decimal(out: &mut Vec<u8>, n: u64)
    ensures
        final(out)@ == old(out)@ + decimal(n as nat),
    decreases n,
{
    if n >= 10 {
        push_decimal(out, n / 10);
    }
    out.push(48 + (n % 10) as u8);
    assert(out@ =~= old(out)@ + decimal(n as nat));
}

pub proof fn lemma_decimal_digits(n: nat)
    ensures
        decimal(n).len() >= 1,
        forall|i: int| 0 <= i < decimal(n).len() ==> 48 <= #[trigger] decimal(n)[i] <= 57,
    decreases n,
{
    if n >= 10 {
        lemma_decimal_digits(n / 10);
    }
}

/// Builds the header for kind `k` and payload length `n`.
fn header_bytes(k: ObjectKind, n: u64) -> (r: Vec<u8>)
    ensures
        r@ == header(k, n as nat),
{
    let mut r = tag_bytes(k);
    r.push(32u8);
    push_decimal(&mut r, n);
    r.push(0u8);
    assert(r@ =~= header(k, n as nat));
    r
}

/// Header followed by payload.
pub fn frame(k: ObjectKind, payload: &[u8]) -> (r: Vec<u8>)
    ensures
        r@ == framed(k, payload@),
{
    let mut r = header_bytes(k, payload.len() as u64);
    let mut i: usize = 0;
    let ghost h = r@;
    while i < payload.len()
        invariant
            i <= payload@.len(),
            r@ == h + payload@.subrange(0, i as int),
        decreases payload@.len() - i,
    {
        r.push(payload[i]);
        i = i + 1;
        assert(r@ =~= h + payload@.subrange(0, i as int));
    }
    assert(payload@.subrange(0, i as int) =~= payload@);
    r
}

pub proof fn lemma_first_zero(s: Seq<u8>, i: int)
    requires
        0 <= i <= s.len(),
        forall|k: int| 0 <= k < i ==> s[k] != 0,
        i == s.len() || s[i] == 0,
    ensures
        first_zero(s) == i,
    decreases i,
{
    if i > 0 {
        lemma_first_zero(s.drop_first(), i - 1);
    }
}

/// The header is free of zero bytes but for its last one.
pub proof fn lemma_header_zero(k: ObjectKind, n: nat)
    ensures
        header(k, n).len() >= 1,
        header(k, n).last() == 0,
        forall|j: int| 0 <= j < header(k, n).len() - 1 ==> #[trigger] header(k, n)[j] != 0,
{
    lemma_decimal_digits(n);
    let h = header(k, n);
    let t = kind_tag(k);
    let d = decimal(n);
    assert forall|j: int| 0 <= j < h.len() - 1 implies #[trigger] h[j] != 0 by {
        if j < t.len() {
            assert(h[j] == t[j]);
        } else if j == t.len() {
            assert(h[j] == 32);
        } else {
            assert(h[j] == d[j - t.len() - 1]);
        }
    }
}

/// Reading back framed bytes gives the payload.
pub proof fn lemma_unframe_framed(k: ObjectKind, p: Seq<u8>)
    ensures
        unframe(framed(k, p), k) == Some(p),
{
    let h = header(k, p.len());
    let raw = framed(k, p);
    lemma_header_zero(k, p.len());
    assert forall|j: int| 0 <= j < h.len() - 1 implies raw[j] != 0 by {
        assert(raw[j] == h[j]);
    }
    lemma_first_zero(raw, h.len() - 1);
    assert(raw.subrange(0, h.len() as int) =~= h);
    assert(raw.subrange(h.len() as int, raw.len() as int) =~= p);
}

/// Framing is injective: objects of different kinds, or with different
/// payloads, are framed to different bytes, so their fingerprints are the
/// digests of different inputs.
pub proof fn lemma_framed_injective(k1: ObjectKind, p1: Seq<u8>, k2: ObjectKind, p2: Seq<u8>)
    requires
        framed(k1, p1) == framed(k2, p2),
    ensures
        k1 == k2,
        p1 == p2,
{
    let raw = framed(k1, p1);
    let h1 = header(k1, p1.len());
    let h2 = header(k2, p2.len());
    lemma_header_zero(k1, p1.len());
    lemma_header_zero(k2, p2.len());
    assert forall|j: int| 0 <= j < h1.len() - 1 implies raw[j] != 0 by {
        assert(raw[j] == h1[j]);
    }
    assert(raw[h1.len() - 1] == h1[h1.len() - 1]);
    lemma_first_zero(raw, h1.len() - 1);
    assert forall|j: int| 0 <= j < h2.len() - 1 implies raw[j] != 0 by {
        assert(raw == framed(k2, p2));
        assert(framed(k2, p2)[j] == h2[j]);
    }
    assert(framed(k2, p2)[h2.len() - 1] == h2[h2.len() - 1]);
    lemma_first_zero(raw, h2.len() - 1);
    assert(h1.len() == h2.len());
    assert(raw.subrange(0, h1.len() as int) =~= h1);
    assert(framed(k2, p2).subrange(0, h2.len() as int) =~= h2);
    assert(h1 == h2);
    assert(raw.subrange(h1.len() as int, raw.len() as int) =~= p1);
    assert(framed(k2, p2).subrange(h2.len() as int, raw.len() as int) =~= p2);
    if k1 != k2 {
        let t1 = kind_tag(k1);
        let t2 = kind_tag(k2);
        assert(h1[0] == t1[0] && h2[0] == t2[0]);
        assert(h1[4] == (if t1.len() == 4 { 32u8 } else { t1[4] }));
        assert(h2[4] == (if t2.len() == 4 { 32u8 } else { t2[4] }));
    }
}

/// Strips the header from framed bytes, checking that it names kind `k` and
/// the payload's true length.
pub fn unframe_bytes(raw: &[u8], k: ObjectKind) -> (r: Option<Vec<u8>>)
    ensures
        r matches Some(v) ==> unframe(raw@, k) == Some(v@),
        r is None ==> unframe(raw@, k) is None,
{
    let mut z: usize = 0;
    while z < raw.len() && raw[z] != 0
        invariant
            z <= raw@.len(),
            forall|j: int| 0 <= j < z ==> raw@[j] != 0,
        decreases raw@.len() - z,
    {
        z = z + 1;
    }
    proof {
        lemma_first_zero(raw@, z as int);
    }
    if z == raw.len() {
        return None;
    }
    let n: usize = raw.len() - z - 1;
    let h = header_bytes(k, n as u64);
    let (head, tail) = raw.split_at(z + 1);
    if !bytes_eq(head, h.as_slice()) {
        return None;
    }
    Some(bytes_of(tail))
}

/// The fingerprint of an object without encoding it.
pub fn hash_object(k: ObjectKind, payload: &[u8]) -> (r: ObjectId)
    ensures
        r@ == fingerprint(k, payload@),
{
    let raw = frame(k, payload);
    ObjectId::from_digest(sha1_digest(raw.as_slice()))
}

/// Fingerprints and compresses an object: the id is the SHA-1 of header and
/// payload, the encoding their zlib compression.
pub fn fingerprint_and_encode(k: ObjectKind, payload: &[u8]) -> (r: Result<(ObjectId, Vec<u8>), RepoError>)
    ensures
        r is Ok,
        r matches Ok((id, enc)) ==> id@ == fingerprint(k, payload@) && enc@ == deflated(framed(k, payload@)),
{
    let raw = frame(k, payload);
    let id = ObjectId::from_digest(sha1_digest(raw.as_slice()));
    match zlib_compress(raw.as_slice()) {
        Some(enc) => Ok((id, enc)),
        None => Err(RepoError::Codec),
    }
}

/// Decompresses an encoding back to header and payload. Whatever
/// `fingerprint_and_encode` produced decodes to exactly the framed object.
pub fn decode(encoded: &[u8]) -> (r: Result<Vec<u8>, RepoError>)
    ensures
        r matches Ok(v) ==> inflated(encoded@) == Some(v@),
        r is Err ==> r == Err::<Vec<u8>, RepoError>(RepoError::Codec) && inflated(encoded@) is None,
        forall|x: Seq<u8>| encoded@ == #[trigger] deflated(x) ==> (r matches Ok(v) && v@ == x),
{
    match zlib_decompress(encoded) {
        Some(v) => Ok(v),
        None => Err(RepoError::Codec),
    }
}

} // verus!
