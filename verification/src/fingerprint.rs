//! Fingerprints: 32-byte digests with an XOR combination.
//!
//! The fingerprint of a set of entries is the fingerprint of the empty set
//! XORed with the per-entry digests; XOR makes range fingerprints
//! incrementally computable and gives the homomorphism proved in
//! `lemma_xor_all_split`.

use vstd::prelude::*;

verus! {

/// What `blake3::hash` returns for a given byte string. The digest depends on
/// the input bytes alone, so naming it lets contracts relate digests of equal
/// inputs without stating the hash itself.
pub uninterp spec fn blake3_of(data: Seq<u8>) -> Seq<u8>;

/// The all-zero 32-byte string: the identity of `xor32`.
pub open spec fn zero32() -> Seq<u8> {
    Seq::new(32, |i: int| 0u8)
}

/// Componentwise XOR of two 32-byte strings.
pub open spec fn xor32(a: Seq<u8>, b: Seq<u8>) -> Seq<u8> {
    Seq::new(32, |i: int| a[i] ^ b[i])
}

/// The agreed fingerprint of the empty set: the hash of the empty byte string.
pub open spec fn empty_fp() -> Seq<u8> {
    blake3_of(Seq::empty())
}

/// Relies on blake3::hash: a 32-byte digest that is a function of the input
/// bytes alone.
#[verifier::external_body]
fn blake3_hash(data: &[u8]) -> (r: [u8; 32])
    ensures
        r@ == blake3_of(data@),
{
    *blake3::hash(data).as_bytes()
}

/// A 32-byte digest over a set of entries.
pub struct Fingerprint(pub [u8; 32]);

impl View for Fingerprint {
    type V = Seq<u8>;

    open spec fn view(&self) -> Seq<u8> {
        self.0@
    }
}

impl Clone for Fingerprint {
    fn clone(&self) -> (r: Self)
        ensures
            r@ == self@,
    {
        Fingerprint(self.0)
    }
}

impl Fingerprint {
    /// The fingerprint of the empty set; both peers compute the same constant.
    pub fn empty() -> (r: Fingerprint)
        ensures
            r@ == empty_fp(),
    {
        let data: Vec<u8> = Vec::new();
        let h = blake3_hash(data.as_slice());
        proof {
            assert(data@ =~= Seq::<u8>::empty());
        }
        Fingerprint(h)
    }

    /// Hash arbitrary bytes into a fingerprint.
    pub fn of_bytes(data: &Vec<u8>) -> (r: Fingerprint)
        ensures
            r@ == blake3_of(data@),
    {
        Fingerprint(blake3_hash(data.as_slice()))
    }

    /// Componentwise XOR of `other` into `self`.
    pub fn xor_assign(&mut self, other: &Fingerprint)
        ensures
            final(self)@ == xor32(old(self)@, other@),
    {
        let mut i: usize = 0;
        while i < 32
            invariant
                i <= 32,
                self.0@.len() == 32,
                forall|j: int| 0 <= j < i ==> self.0@[j] == xor32(old(self)@, other@)[j],
                forall|j: int| i <= j < 32 ==> self.0@[j] == old(self)@[j],
            decreases 32 - i,
        {
            let v = self.0[i] ^ other.0[i];
            self.0[i] = v;
            i += 1;
        }
        proof {
            assert(self@ =~= xor32(old(self)@, other@));
        }
    }

    /// Equality of the underlying 32 bytes.
    pub fn equals(&self, other: &Fingerprint) -> (r: bool)
        ensures
            r <==> self@ == other@,
    {
        let mut i: usize = 0;
        while i < 32
            invariant
                i <= 32,
            forall|j: int| 0 <= j < i ==> self.0@[j] == other.0@[j],
            decreases 32 - i,
        {
            if self.0[i] != other.0[i] {
                return false;
            }
            i += 1;
        }
        proof {
            assert(self@ =~= other@);
        }
        true
    }
}

proof fn lemma_u8_xor_comm(x: u8, y: u8)
    ensures
        x ^ y == y ^ x,
{
    assert(x ^ y == y ^ x) by (bit_vector);
}

proof fn lemma_u8_xor_assoc(x: u8, y: u8, z: u8)
    ensures
        (x ^ y) ^ z == x ^ (y ^ z),
{
    assert((x ^ y) ^ z == x ^ (y ^ z)) by (bit_vector);
}

proof fn lemma_u8_xor_zero(x: u8)
    ensures
        x ^ 0 == x,
        0 ^ x == x,
{
    assert(x ^ 0 == x && 0 ^ x == x) by (bit_vector);
}

pub proof fn lemma_xor32_comm(a: Seq<u8>, b: Seq<u8>)
    ensures
        xor32(a, b) == xor32(b, a),
{
    assert forall|i: int| 0 <= i < 32 implies xor32(a, b)[i] == xor32(b, a)[i] by {
        lemma_u8_xor_comm(a[i], b[i]);
    }
    assert(xor32(a, b) =~= xor32(b, a));
}

pub proof fn lemma_xor32_assoc(a: Seq<u8>, b: Seq<u8>, c: Seq<u8>)
    ensures
        xor32(xor32(a, b), c) == xor32(a, xor32(b, c)),
{
    assert forall|i: int| 0 <= i < 32 implies xor32(xor32(a, b), c)[i] == xor32(
        a,
        xor32(b, c),
    )[i] by {
        lemma_u8_xor_assoc(a[i], b[i], c[i]);
    }
    assert(xor32(xor32(a, b), c) =~= xor32(a, xor32(b, c)));
}

pub proof fn lemma_xor32_zero(a: Seq<u8>)
    requires
        a.len() == 32,
    ensures
        xor32(a, zero32()) == a,
        xor32(zero32(), a) == a,
{
    assert forall|i: int| 0 <= i < 32 implies xor32(a, zero32())[i] == a[i] && xor32(
        zero32(),
        a,
    )[i] == a[i] by {
        lemma_u8_xor_zero(a[i]);
    }
    assert(xor32(a, zero32()) =~= a);
    assert(xor32(zero32(), a) =~= a);
}

} // verus!
