use vstd::prelude::*;

use crate::bytes::{bytes_eq, bytes_of};

verus! {

/// Number of bytes in a SHA-1 digest.
pub const DIGEST_LEN: usize = 20;

/// Lower-case hexadecimal digit for a value below 16.
pub open spec fn hex_digit(v: u8) -> u8 {
    if v < 10 {
        (48 + v) as u8
    } else {
        (87 + v) as u8
    }
}

/// Two lower-case hexadecimal digits per byte, most significant nibble first.
pub open spec fn hex_of(b: Seq<u8>) -> Seq<u8>
    decreases b.len(),
{
    if b.len() == 0 {
        Seq::empty()
    } else {
        hex_of(b.drop_last()) + seq![hex_digit(b.last() / 16), hex_digit(b.last() % 16)]
    }
}

/// A byte that is a lower-case hexadecimal digit.
pub open spec fn is_hex_char(c: u8) -> bool {
    (48 <= c <= 57) || (97 <= c <= 102)
}

/// The value of a lower-case hexadecimal digit.
pub open spec fn hex_value(c: u8) -> u8 {
    if c <= 57 {
        (c - 48) as u8
    } else {
        (c - 87) as u8
    }
}

/// Text that spells an object id: forty lower-case hexadecimal digits.
pub open spec fn is_id_text(t: Seq<u8>) -> bool {
    t.len() == 2 * DIGEST_LEN && forall|i: int| 0 <= i < t.len() ==> is_hex_char(#[trigger] t[i])
}

pub proof fn lemma_hex_len(b: Seq<u8>)
    ensures
        hex_of(b).len() == 2 * b.len(),
    decreases b.len(),
{
    if b.len() > 0 {
        lemma_hex_len(b.drop_last());
    }
}

pub proof fn lemma_hex_chars(b: Seq<u8>)
    ensures
        forall|i: int| 0 <= i < hex_of(b).len() ==> is_hex_char(#[trigger] hex_of(b)[i]),
    decreases b.len(),
{
    if b.len() > 0 {
        lemma_hex_chars(b.drop_last());
        let h = hex_of(b.drop_last());
        let x = b.last();
        assert(x / 16 < 16 && x % 16 < 16);
        assert forall|i: int| 0 <= i < hex_of(b).len() implies is_hex_char(#[trigger] hex_of(b)[i]) by {
            if i < h.len() {
                assert(hex_of(b)[i] == h[i]);
            }
        }
    }
}

/// The text of an id is always forty hexadecimal digits.
pub proof fn lemma_hex_is_id_text(b: Seq<u8>)
    requires
        b.len() == DIGEST_LEN,
    ensures
        is_id_text(hex_of(b)),
{
    lemma_hex_len(b);
    lemma_hex_chars(b);
}

/// Hex rendering is injective: two digests with the same text are equal.
pub proof fn lemma_hex_injective(a: Seq<u8>, b: Seq<u8>)
    requires
        hex_of(a) == hex_of(b),
    ensures
        a == b,
    decreases a.len(),
{
    lemma_hex_len(a);
    lemma_hex_len(b);
    if a.len() > 0 {
        let ha = hex_of(a);
        let hb = hex_of(b);
        let n = ha.len();
        lemma_hex_len(a.drop_last());
        lemma_hex_len(b.drop_last());
        assert(ha.subrange(0, n - 2) == hex_of(a.drop_last()));
        assert(hb.subrange(0, n - 2) == hex_of(b.drop_last()));
        lemma_hex_injective(a.drop_last(), b.drop_last());
        let x = a.last();
        let y = b.last();
        assert(ha[n - 2] == hb[n - 2] && ha[n - 1] == hb[n - 1]);
        assert(hex_digit(x / 16) == hex_digit(y / 16));
        assert(hex_digit(x % 16) == hex_digit(y % 16));
        assert(x / 16 == y / 16 && x % 16 == y % 16);
        assert(x == 16 * (x / 16) + x % 16);
        assert(y == 16 * (y / 16) + y % 16);
        assert(a =~= a.drop_last().push(x));
        assert(b =~= b.drop_last().push(y));
    }
}

fn push_hex_digit(out: &mut Vec<u8>, v: u8)
    requires
        v < 16,
    ensures
        final(out)@ == old(out)@.push(hex_digit(v)),
{
    if v < 10 {
        out.push(48 + v);
    } else {
        out.push(87 + v);
    }
}

/// The fingerprint of an object: a twenty-byte SHA-1 digest.
#[derive(Debug)]
pub struct ObjectId {
    digest: Vec<u8>,
}

impl View for ObjectId {
    type V = Seq<u8>;

    closed spec fn view(&self) -> Seq<u8> {
        self.digest@
    }
}

impl ObjectId {
    #[verifier::type_invariant]
    spec fn inv(&self) -> bool {
        self.digest@.len() == DIGEST_LEN
    }

    /// Wraps a twenty-byte digest.
    pub fn from_digest(digest: Vec<u8>) -> (r: ObjectId)
        requires
            digest@.len() == DIGEST_LEN,
        ensures
            r@ == digest@,
    {
        ObjectId { digest }
    }

    /// The raw digest bytes.
    pub fn digest(&self) -> (r: &[u8])
        ensures
            r@ == self@,
            r@.len() == DIGEST_LEN,
    {
        proof {
            use_type_invariant(self);
        }
        self.digest.as_slice()
    }

    /// An independent copy of this id.
    pub fn duplicate(&self) -> (r: ObjectId)
        ensures
            r@ == self@,
    {
        proof {
            use_type_invariant(self);
        }
        ObjectId { digest: bytes_of(self.digest.as_slice()) }
    }

    /// Whether two ids are the same fingerprint.
    pub fn same(&self, other: &ObjectId) -> (r: bool)
        ensures
            r == (self@ == other@),
    {
        bytes_eq(self.digest.as_slice(), other.digest.as_slice())
    }

    /// The id as forty lower-case hexadecimal digits.
    pub fn to_hex(&self) -> (r: Vec<u8>)
        ensures
            r@ == hex_of(self@),
            is_id_text(r@),
    {
        proof {
            use_type_invariant(self);
            lemma_hex_is_id_text(self@);
        }
        let mut out: Vec<u8> = Vec::with_capacity(2 * DIGEST_LEN);
        let mut i: usize = 0;
        while i < self.digest.len()
            invariant
                i <= self.digest@.len(),
                out@ == hex_of(self.digest@.subrange(0, i as int)),
            decreases self.digest@.len() - i,
        {
            let b = self.digest[i];
            push_hex_digit(&mut out, b / 16);
            push_hex_digit(&mut out, b % 16);
            proof {
                let s = self.digest@.subrange(0, i + 1);
                assert(s.drop_last() =~= self.digest@.subrange(0, i as int));
            }
            i = i + 1;
        }
        assert(self.digest@.subrange(0, i as int) =~= self.digest@);
        out
    }

    /// Reads an id from its text: exactly forty lower-case hexadecimal digits.
    pub fn from_hex(text: &[u8]) -> (r: Option<ObjectId>)
        ensures
            r is Some <==> is_id_text(text@),
            r matches Some(id) ==> hex_of(id@) == text@,
    {
        if text.len() != 2 * DIGEST_LEN {
            return None;
        }
        let mut digest: Vec<u8> = Vec::with_capacity(DIGEST_LEN);
        let mut i: usize = 0;
        while i < DIGEST_LEN
            invariant
                i <= DIGEST_LEN,
                text@.len() == 2 * DIGEST_LEN,
                digest@.len() == i,
                hex_of(digest@) == text@.subrange(0, 2 * i),
                forall|k: int| 0 <= k < 2 * i ==> is_hex_char(#[trigger] text@[k]),
            decreases DIGEST_LEN - i,
        {
            let hi = text[2 * i];
            let lo = text[2 * i + 1];
            if !(48 <= hi && hi <= 57) && !(97 <= hi && hi <= 102) {
                assert(!is_hex_char(text@[2 * i as int]));
                return None;
            }
            if !(48 <= lo && lo <= 57) && !(97 <= lo && lo <= 102) {
                assert(!is_hex_char(text@[2 * i + 1]));
                return None;
            }
            let hv: u8 = if hi <= 57 { hi - 48 } else { hi - 87 };
            let lv: u8 = if lo <= 57 { lo - 48 } else { lo - 87 };
            let b: u8 = hv * 16 + lv;
            assert(b / 16 == hv && b % 16 == lv) by (nonlinear_arith)
                requires
                    b == hv * 16 + lv,
                    hv < 16,
                    lv < 16,
            ;
            let ghost old_digest = digest@;
            digest.push(b);
            proof {
                assert(digest@.drop_last() =~= old_digest);
                assert(hex_digit(hv) == hi);
                assert(hex_digit(lv) == lo);
                assert(text@.subrange(0, 2 * (i + 1)) =~= text@.subrange(0, 2 * i).push(hi).push(lo));
            }
            i = i + 1;
        }
        assert(text@.subrange(0, 2 * DIGEST_LEN as int) =~= text@);
        Some(ObjectId { digest })
    }

    /// The shard directory of the id: its first two hexadecimal digits.
    pub fn shard_dir(&self) -> (r: Vec<u8>)
        ensures
            r@ == hex_of(self@).subrange(0, 2),
    {
        proof {
            use_type_invariant(self);
            lemma_hex_len(self@);
        }
        let h = self.to_hex();
        let mut r: Vec<u8> = Vec::new();
        r.push(h[0]);
        r.push(h[1]);
        assert(r@ =~= hex_of(self@).subrange(0, 2));
        r
    }

    /// The file name of the id inside its shard: the remaining thirty-eight digits.
    pub fn shard_file(&self) -> (r: Vec<u8>)
        ensures
            r@ == hex_of(self@).subrange(2, 2 * DIGEST_LEN as int),
    {
        proof {
            use_type_invariant(self);
            lemma_hex_len(self@);
        }
        let h = self.to_hex();
        let r = bytes_of(h.as_slice().split_at(2).1);
        assert(r@ =~= hex_of(self@).subrange(2, 2 * DIGEST_LEN as int));
        r
    }
}

impl PartialEq for ObjectId {
    fn eq(&self, other: &ObjectId) -> (r: bool) {
        self.same(other)
    }
}

impl vstd::std_specs::cmp::PartialEqSpecImpl for ObjectId {
    open spec fn obeys_eq_spec() -> bool {
        true
    }

    open spec fn eq_spec(&self, other: &ObjectId) -> bool {
        self@ == other@
    }
}

impl Eq for ObjectId {}

impl Clone for ObjectId {
    fn clone(&self) -> (r: ObjectId)
        ensures
            r@ == self@,
    {
        self.duplicate()
    }
}

} // verus!
