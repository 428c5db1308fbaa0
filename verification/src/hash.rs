//! 32-byte digests and the leading-zero difficulty test.

use vstd::prelude::*;
use vstd::std_specs::bits::axiom_u8_leading_zeros;
use vstd::std_specs::bits::u8_leading_zeros;
use crate::crypto::sha256_digest;

verus! {

/// Number of bytes in a digest.
pub const HASH_LEN: usize = 32;

/// A 32-byte digest.
#[derive(Clone, Copy, Debug, PartialEq, Eq, Hash)]
pub struct Hash(pub [u8; 32]);

impl View for Hash {
    type V = Seq<u8>;

    open spec fn view(&self) -> Seq<u8> {
        self.0@
    }
}

/// How many bits are zero before the first one bit, reading the bytes in
/// order and each byte from its most significant bit.
pub open spec fn leading_zero_bits(bytes: Seq<u8>) -> nat
    decreases bytes.len(),
{
    if bytes.len() == 0 {
        0
    } else if bytes[0] == 0 {
        8 + leading_zero_bits(bytes.skip(1))
    } else {
        u8_leading_zeros(bytes[0]) as nat
    }
}

/// A run of `n` zero bytes contributes `8 * n` leading zero bits.
pub proof fn lemma_leading_zero_prefix(bytes: Seq<u8>, n: int)
    requires
        0 <= n <= bytes.len(),
        forall|j: int| 0 <= j < n ==> bytes[j] == 0,
    ensures
        leading_zero_bits(bytes) == 8 * n + leading_zero_bits(bytes.skip(n)),
    decreases n,
{
    if n == 0 {
        assert(bytes.skip(0) =~= bytes);
    } else {
        lemma_leading_zero_prefix(bytes.skip(1), n - 1);
        assert(bytes.skip(1).skip(n - 1) =~= bytes.skip(n));
    }
}

/// Thirty-two zero bytes.
pub open spec fn zero_bytes() -> Seq<u8> {
    Seq::new(32, |i: int| 0u8)
}

impl Hash {
    /// The digest whose bytes are all zero.
    pub fn zeroes() -> (h: Hash)
        ensures
            h@ == zero_bytes(),
    {
        let h = Hash([0u8; 32]);
        assert(h@ =~= zero_bytes());
        h
    }

    /// The SHA-256 digest of `b`.
    pub fn sha256(b: &[u8]) -> (h: Hash)
        ensures
            h@ == sha256_digest(b@),
    {
        Hash(openssl::sha::sha256(b))
    }

    /// Whether the digest starts with at least `difficulty` zero bits.
    pub open spec fn spec_has_difficulty(&self, difficulty: u8) -> bool {
        leading_zero_bits(self@) >= difficulty
    }

    /// Whether the digest starts with at least `difficulty` zero bits.
    pub fn has_difficulty(&self, difficulty: u8) -> (ok: bool)
        ensures
            ok == self.spec_has_difficulty(difficulty),
    {
        let mut remaining: u8 = difficulty;
        let mut i: usize = 0;
        while i < 32
            invariant
                0 <= i <= 32,
                remaining as int == difficulty as int - 8 * i,
                forall|j: int| 0 <= j < i ==> self@[j] == 0,
            decreases 32 - i,
        {
            let byte: u8 = self.0[i];
            proof {
                lemma_leading_zero_prefix(self@, i as int);
                axiom_u8_leading_zeros(byte);
                assert(self@.skip(i as int)[0] == byte);
            }
            if remaining == 0 {
                return true;
            } else if remaining < 8 {
                return byte.leading_zeros() >= remaining as u32;
            } else {
                if byte != 0 {
                    return false;
                }
                remaining = remaining - 8;
            }
            i = i + 1;
        }
        true
    }

    /// The digest in hexadecimal for technical display: lower case, byte
    /// after byte, a byte below 16 as one digit.
    pub fn display_hex(&self) -> (s: String)
        ensures
            s@ == crate::text::hex_text(self@),
    {
        let mut chars: Vec<char> = Vec::new();
        crate::text::push_hex(&mut chars, self.0.as_slice());
        assert(chars@ =~= crate::text::hex_text(self@));
        crate::text::string_of(&chars)
    }

    /// The digest in base 58 with the alphabet of Bitcoin: the name of a
    /// wallet as users see it.
    pub fn display_base58(&self) -> (s: String)
        ensures
            s@ == crate::crypto::base58_text(self@),
    {
        crate::crypto::base58_encode(self.0.as_slice())
    }

    /// Whether two digests hold the same bytes.
    pub fn same(&self, other: &Hash) -> (r: bool)
        ensures
            r == (self@ == other@),
    {
        let mut i: usize = 0;
        while i < 32
            invariant
                0 <= i <= 32,
                forall|j: int| 0 <= j < i ==> self@[j] == other@[j],
            decreases 32 - i,
        {
            if self.0[i] != other.0[i] {
                return false;
            }
            i = i + 1;
        }
        assert(self@ =~= other@);
        true
    }
}

} // verus!
