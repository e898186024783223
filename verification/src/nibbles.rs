//! Keys of the trie as sequences of 4-bit values.
//!
//! An owned buffer of nibbles; every element is below 16. Trie keys are
//! addresses or storage slots read nibble-wise, most significant first.

use vstd::prelude::*;

verus! {

/// An owned, possibly odd-length sequence of 4-bit values.
#[derive(Debug)]
pub struct NibbleBuf {
    nibs: Vec<u8>,
}

impl Clone for NibbleBuf {
    fn clone(&self) -> (r: Self)
        ensures
            r@ == self@,
    {
        proof {
            use_type_invariant(self);
        }
        let nibs = self.nibs.clone();
        proof {
            assert(nibs@ =~= self.nibs@);
        }
        NibbleBuf { nibs }
    }
}

/// Every element of a nibble sequence is a 4-bit value.
pub open spec fn nibbles_wf(s: Seq<u8>) -> bool {
    forall|i: int| 0 <= i < s.len() ==> s[i] < 16
}

impl View for NibbleBuf {
    type V = Seq<u8>;

    closed spec fn view(&self) -> Seq<u8> {
        self.nibs@
    }
}

impl NibbleBuf {
    /// Every nibble of a buffer is below 16; holds of every value by construction.
    #[verifier::type_invariant]
    pub open spec fn type_inv(self) -> bool {
        nibbles_wf(self@)
    }

    /// An empty key.
    pub fn empty() -> (r: NibbleBuf)
        ensures
            r@ == Seq::<u8>::empty(),
    {
        let r = NibbleBuf { nibs: Vec::new() };
        proof {
            assert(r@ =~= Seq::<u8>::empty());
        }
        r
    }

    /// Build a key from raw nibbles; rejects any element of 16 or more.
    pub fn from_nibbles(nibs: Vec<u8>) -> (r: Option<NibbleBuf>)
        ensures
            nibbles_wf(nibs@) ==> r is Some && r->Some_0@ == nibs@,
            !nibbles_wf(nibs@) ==> r is None,
    {
        let mut i: usize = 0;
        while i < nibs.len()
            invariant
                i <= nibs@.len(),
                forall|j: int| 0 <= j < i ==> nibs@[j] < 16,
            decreases nibs@.len() - i,
        {
            if nibs[i] >= 16 {
                return None;
            }
            i += 1;
        }
        Some(NibbleBuf { nibs })
    }

    /// The nibble-wise reading of a byte string, high nibble of each byte first.
    pub open spec fn spec_of_bytes(bytes: Seq<u8>) -> Seq<u8> {
        Seq::new(2 * bytes.len(), |i: int| if i % 2 == 0 {
            (bytes[i / 2] >> 4) as u8
        } else {
            (bytes[i / 2] & 0xf) as u8
        })
    }

    /// Read a byte string nibble-wise, high nibble of each byte first.
    pub fn from_bytes(bytes: &Vec<u8>) -> (r: NibbleBuf)
        ensures
            r@ == NibbleBuf::spec_of_bytes(bytes@),
    {
        let mut nibs: Vec<u8> = Vec::new();
        let mut i: usize = 0;
        while i < bytes.len()
            invariant
                i <= bytes@.len(),
                nibs@.len() == 2 * i,
                forall|j: int| 0 <= j < nibs@.len() ==> nibs@[j] == NibbleBuf::spec_of_bytes(
                    bytes@,
                )[j],
                nibbles_wf(nibs@),
            decreases bytes@.len() - i,
        {
            let b = bytes[i];
            nibs.push(b >> 4);
            nibs.push(b & 0xf);
            proof {
                assert(b >> 4 < 16 && b & 0xf < 16) by (bit_vector);
            }
            i += 1;
        }
        let r = NibbleBuf { nibs };
        proof {
            assert(r@ =~= NibbleBuf::spec_of_bytes(bytes@));
        }
        r
    }

    pub fn len(&self) -> (r: usize)
        ensures
            r == self@.len(),
    {
        self.nibs.len()
    }

    pub fn is_empty(&self) -> (r: bool)
        ensures
            r == (self@.len() == 0),
    {
        self.nibs.len() == 0
    }

    /// The nibble at `i`.
    pub fn get(&self, i: usize) -> (r: u8)
        requires
            i < self@.len(),
        ensures
            r == self@[i as int],
            r < 16,
    {
        proof {
            use_type_invariant(self);
        }
        self.nibs[i]
    }

    /// The nibbles from `from` (inclusive) to `to` (exclusive), as a new buffer.
    pub fn sub(&self, from: usize, to: usize) -> (r: NibbleBuf)
        requires
            from <= to <= self@.len(),
        ensures
            r@ == self@.subrange(from as int, to as int),
    {
        proof {
            use_type_invariant(self);
        }
        let mut nibs: Vec<u8> = Vec::new();
        let mut i: usize = from;
        while i < to
            invariant
                from <= i <= to <= self@.len(),
                nibs@ == self@.subrange(from as int, i as int),
                nibbles_wf(self@),
            decreases to - i,
        {
            nibs.push(self.nibs[i]);
            proof {
                assert(nibs@ =~= self@.subrange(from as int, i + 1));
            }
            i += 1;
        }
        NibbleBuf { nibs }
    }

    /// The buffer with one nibble appended.
    pub fn push(self, nib: u8) -> (r: NibbleBuf)
        requires
            nib < 16,
        ensures
            r@ == self@.push(nib),
    {
        proof {
            use_type_invariant(&self);
        }
        let NibbleBuf { mut nibs } = self;
        nibs.push(nib);
        NibbleBuf { nibs }
    }

    /// The buffer with all nibbles of `other` appended.
    pub fn extend(self, other: &NibbleBuf) -> (r: NibbleBuf)
        ensures
            r@ == self@ + other@,
    {
        proof {
            use_type_invariant(&self);
            use_type_invariant(other);
        }
        let ghost orig = self@;
        let NibbleBuf { mut nibs } = self;
        let mut i: usize = 0;
        while i < other.nibs.len()
            invariant
                i <= other@.len(),
                nibs@ == orig + other@.subrange(0, i as int),
                nibbles_wf(nibs@),
                nibbles_wf(other@),
            decreases other@.len() - i,
        {
            nibs.push(other.nibs[i]);
            proof {
                assert(nibs@ =~= orig + other@.subrange(0, i + 1));
            }
            i += 1;
        }
        proof {
            assert(orig + other@.subrange(0, other@.len() as int) =~= orig + other@);
        }
        NibbleBuf { nibs }
    }

    /// Does `self@` start, at `pos`, with the whole of `prefix`?
    pub fn starts_with_at(&self, prefix: &NibbleBuf, pos: usize) -> (r: bool)
        requires
            pos <= self@.len(),
        ensures
            r == (pos + prefix@.len() <= self@.len() && self@.subrange(
                pos as int,
                pos + prefix@.len(),
            ) == prefix@),
    {
        if prefix.nibs.len() > self.nibs.len() - pos {
            proof {
                assert(pos + prefix@.len() > self@.len());
            }
            return false;
        }
        let total = self.nibs.len();
        let mut i: usize = 0;
        while i < prefix.nibs.len()
            invariant
                i <= prefix@.len(),
                total == self@.len(),
                pos + prefix@.len() <= total,
                forall|j: int| 0 <= j < i ==> self@[pos + j] == prefix@[j],
            decreases prefix@.len() - i,
        {
            if self.nibs[pos + i] != prefix.nibs[i] {
                proof {
                    let j = i as int;
                    assert(self@.subrange(pos as int, pos + prefix@.len())[j] != prefix@[j]);
                }
                return false;
            }
            i += 1;
        }
        proof {
            assert(self@.subrange(pos as int, pos + prefix@.len()) =~= prefix@);
        }
        true
    }
}

} // verus!
