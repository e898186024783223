//! 32-byte digests and the node-hash functions of the Merkle trie.
//!
//! A digest is held as four little-endian 64-bit words. The cryptographic
//! hash itself is BLAKE2b with a 32-byte output, called through a trusted
//! wrapper; everything around it (the canonical node encodings, the word
//! packing) is verified.

use vstd::prelude::*;

verus! {

/// A 32-byte digest, stored as four 64-bit words, least significant first.
/// The all-zero value is distinguished: it stands for "absent".
#[derive(Clone, Copy, PartialEq, Eq, Structural, Hash, Debug)]
pub struct H256 {
    pub w0: u64,
    pub w1: u64,
    pub w2: u64,
    pub w3: u64,
}

impl H256 {
    pub open spec fn spec_zero() -> H256 {
        H256 { w0: 0, w1: 0, w2: 0, w3: 0 }
    }

    pub fn zero() -> (r: H256)
        ensures
            r == H256::spec_zero(),
    {
        H256 { w0: 0, w1: 0, w2: 0, w3: 0 }
    }

    pub fn is_zero(&self) -> (r: bool)
        ensures
            r == (*self == H256::spec_zero()),
    {
        self.w0 == 0 && self.w1 == 0 && self.w2 == 0 && self.w3 == 0
    }

    /// The digest as a natural number, little-endian.
    pub open spec fn as_nat(self) -> nat {
        self.w0 as nat + 0x1_0000_0000_0000_0000 * self.w1 as nat
            + 0x1_0000_0000_0000_0000_0000_0000_0000_0000 * self.w2 as nat
            + 0x1_0000_0000_0000_0000_0000_0000_0000_0000_0000_0000_0000_0000 * self.w3 as nat
    }
}

/// The eight little-endian bytes of a 64-bit word.
pub open spec fn u64_le_bytes(w: u64) -> Seq<u8> {
    seq![
        (w & 0xff) as u8,
        ((w >> 8) & 0xff) as u8,
        ((w >> 16) & 0xff) as u8,
        ((w >> 24) & 0xff) as u8,
        ((w >> 32) & 0xff) as u8,
        ((w >> 40) & 0xff) as u8,
        ((w >> 48) & 0xff) as u8,
        ((w >> 56) & 0xff) as u8,
    ]
}

/// The 32 little-endian bytes of a digest.
pub open spec fn h256_bytes(h: H256) -> Seq<u8> {
    u64_le_bytes(h.w0) + u64_le_bytes(h.w1) + u64_le_bytes(h.w2) + u64_le_bytes(h.w3)
}

pub fn push_u64_le(out: &mut Vec<u8>, w: u64)
    ensures
        final(out)@ == old(out)@ + u64_le_bytes(w),
{
    out.push((w & 0xff) as u8);
    out.push(((w >> 8) & 0xff) as u8);
    out.push(((w >> 16) & 0xff) as u8);
    out.push(((w >> 24) & 0xff) as u8);
    out.push(((w >> 32) & 0xff) as u8);
    out.push(((w >> 40) & 0xff) as u8);
    out.push(((w >> 48) & 0xff) as u8);
    out.push(((w >> 56) & 0xff) as u8);
    proof {
        assert(out@ =~= old(out)@ + u64_le_bytes(w));
    }
}

pub fn push_h256_bytes(out: &mut Vec<u8>, h: &H256)
    ensures
        final(out)@ == old(out)@ + h256_bytes(*h),
{
    push_u64_le(out, h.w0);
    push_u64_le(out, h.w1);
    push_u64_le(out, h.w2);
    push_u64_le(out, h.w3);
    proof {
        assert(out@ =~= old(out)@ + h256_bytes(*h));
    }
}

/// The 64-bit word formed from eight consecutive bytes, least significant first.
pub open spec fn word_of_bytes(s: Seq<u8>, i: int) -> u64 {
    (s[i] + 0x100 * (s[i + 1] + 0x100 * (s[i + 2] + 0x100 * (s[i + 3] + 0x100 * (s[i + 4]
        + 0x100 * (s[i + 5] + 0x100 * (s[i + 6] + 0x100 * s[i + 7]))))))) as u64
}

/// The digest whose 32 little-endian bytes are `s`.
pub open spec fn h256_of_bytes(s: Seq<u8>) -> H256 {
    H256 {
        w0: word_of_bytes(s, 0),
        w1: word_of_bytes(s, 8),
        w2: word_of_bytes(s, 16),
        w3: word_of_bytes(s, 24),
    }
}

fn read_word(bytes: &Vec<u8>, i: usize) -> (r: u64)
    requires
        bytes@.len() == 32,
        i + 8 <= 32,
    ensures
        r == word_of_bytes(bytes@, i as int),
{
    let b0 = bytes[i] as u64;
    let b1 = bytes[i + 1] as u64;
    let b2 = bytes[i + 2] as u64;
    let b3 = bytes[i + 3] as u64;
    let b4 = bytes[i + 4] as u64;
    let b5 = bytes[i + 5] as u64;
    let b6 = bytes[i + 6] as u64;
    let b7 = bytes[i + 7] as u64;
    b0 + 0x100 * (b1 + 0x100 * (b2 + 0x100 * (b3 + 0x100 * (b4 + 0x100 * (b5 + 0x100 * (b6
        + 0x100 * b7))))))
}

fn h256_from_bytes(bytes: &Vec<u8>) -> (r: H256)
    requires
        bytes@.len() == 32,
    ensures
        r == h256_of_bytes(bytes@),
{
    H256 {
        w0: read_word(bytes, 0),
        w1: read_word(bytes, 8),
        w2: read_word(bytes, 16),
        w3: read_word(bytes, 24),
    }
}

/// The 32-byte BLAKE2b digest of a byte string. The result is a function of
/// the input alone; nothing shorter than the algorithm itself states it.
pub uninterp spec fn blake2b_of(data: Seq<u8>) -> Seq<u8>;

/// Relies on `blake2b_simd::Params::hash` with `hash_length(32)`: the BLAKE2b
/// digest of the input bytes, 32 bytes long, a function of the input alone.
#[verifier::external_body]
fn blake2b_hash(data: &Vec<u8>) -> (r: Vec<u8>)
    ensures
        r@ == blake2b_of(data@),
        r@.len() == 32,
{
    blake2b_simd::Params::new().hash_length(32).hash(data.as_slice()).as_bytes().to_vec()
}

/// The digest of a byte string: 32 bytes of BLAKE2b, packed into four words.
pub open spec fn spec_data_hash(data: Seq<u8>) -> H256 {
    h256_of_bytes(blake2b_of(data))
}

/// Hash a byte string into a digest.
pub fn data_hash(data: &Vec<u8>) -> (r: H256)
    ensures
        r == spec_data_hash(data@),
{
    let bytes = blake2b_hash(data);
    h256_from_bytes(&bytes)
}

} // verus!
