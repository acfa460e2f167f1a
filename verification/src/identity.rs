//! The name of a block: a short printable token computed from its digits.
//!
//! The digest is FNV-1a over one byte per level. It depends on the digits
//! alone, so a block has the same name in every run and on every machine.

use vstd::prelude::*;
use vstd::bytes::{spec_u64_to_le_bytes, u64_to_le_bytes};
use crate::block_address::{canonical, BlockAddress};
use crate::radix::{is_digit, SUBBLOCK_COUNT};

verus! {

/// The value that an FNV-1a digest of 64 bits starts from.
pub const FNV_OFFSET_BASIS: u64 = 0xcbf2_9ce4_8422_2325;

/// The multiplier of an FNV-1a digest of 64 bits.
pub const FNV_PRIME: u64 = 0x0000_0100_0000_01b3;

/// The length of every block name, in characters.
pub const NAME_LENGTH: usize = 12;

/// One step of FNV-1a: the byte is mixed into the low bits, then the digest
/// is multiplied by the prime, modulo 2^64.
pub open spec fn mixed(digest: u64, byte: u8) -> u64 {
    (digest ^ (byte as u64)).wrapping_mul(FNV_PRIME)
}

/// The byte that stands for one pair of digits.
pub open spec fn digit_byte(digit: (i32, i32)) -> u8 {
    (digit.0 * SUBBLOCK_COUNT + digit.1) as u8
}

/// The FNV-1a digest of an address, one byte per level, coarsest first.
pub open spec fn digest_of(a: Seq<(i32, i32)>) -> u64
    decreases a.len(),
{
    if a.len() == 0 {
        FNV_OFFSET_BASIS
    } else {
        mixed(digest_of(a.drop_last()), digit_byte(a.last()))
    }
}

/// The text that `base64::encode` returns for `bytes`: their base64 form
/// in the standard alphabet, padded with `=`.
pub uninterp spec fn base64_text(bytes: Seq<u8>) -> Seq<char>;

/// The name of the block with digits `a`: the base64 text of the eight
/// bytes of its digest, lowest byte first.
pub open spec fn name_of(a: Seq<(i32, i32)>) -> Seq<char> {
    base64_text(spec_u64_to_le_bytes(digest_of(a)))
}

/// Calls `base64::encode`. Trusted: the text is a function of the bytes
/// alone, and it has four characters for every three bytes begun (the
/// encoder pads the last group). The encoder panics where that length does
/// not fit in a `usize`; such inputs are left out.
#[verifier::external_body]
fn base64_encode(bytes: &Vec<u8>) -> (text: String)
    requires
        (bytes@.len() / 3) * 4 + 4 <= usize::MAX,
    ensures
        text@ == base64_text(bytes@),
        text@.len() == 4 * ((bytes@.len() + 2) / 3),
{
    base64::encode(bytes)
}

impl BlockAddress {
    /// The FNV-1a digest of this address.
    pub fn digest(&self) -> (digest: u64)
        requires
            self.is_canonical(),
        ensures
            digest == digest_of(self@),
    {
        let digits = self.digits();
        let mut digest: u64 = FNV_OFFSET_BASIS;
        let mut i: usize = 0;
        while i < digits.len()
            invariant
                i <= digits.len(),
                canonical(digits@),
                digest == digest_of(digits@.take(i as int)),
            decreases digits.len() - i,
        {
            let digit = digits[i];
            assert(is_digit(digit.0 as int) && is_digit(digit.1 as int));
            let byte: u8 = (digit.0 as i64 * SUBBLOCK_COUNT + digit.1 as i64) as u8;
            digest = (digest ^ (byte as u64)).wrapping_mul(FNV_PRIME);
            proof {
                assert(digits@.take(i + 1).drop_last() =~= digits@.take(i as int));
            }
            i += 1;
        }
        assert(digits@.take(digits.len() as int) =~= digits@);
        digest
    }

    /// The name of this block: a token of `NAME_LENGTH` characters that
    /// depends on the digits alone.
    pub fn get_name(&self) -> (name: String)
        requires
            self.is_canonical(),
        ensures
            name@ == name_of(self@),
            name@.len() == NAME_LENGTH,
    {
        let bytes = u64_to_le_bytes(self.digest());
        base64_encode(&bytes)
    }
}

/// One step of the digest keeps apart what differs in the digest so far
/// or in the byte, but not in both: the multiplier is odd, so multiplying
/// by it modulo 2^64 loses nothing.
pub proof fn lemma_mixed_tells_apart(digest1: u64, byte1: u8, digest2: u64, byte2: u8)
    by (bit_vector)
    requires
        (digest1 == digest2 && byte1 != byte2) || (digest1 != digest2 && byte1 == byte2),
    ensures
        mixed(digest1, byte1) != mixed(digest2, byte2),
{
}

/// Different digits have different bytes.
pub proof fn lemma_digit_byte_tells_apart(a: (i32, i32), b: (i32, i32))
    requires
        is_digit(a.0 as int),
        is_digit(a.1 as int),
        is_digit(b.0 as int),
        is_digit(b.1 as int),
        a != b,
    ensures
        digit_byte(a) != digit_byte(b),
{
}

} // verus!
