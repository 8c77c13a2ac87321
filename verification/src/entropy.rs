//! The entropy source: random bytes written as a bit string of the requested
//! strength.

use vstd::prelude::*;
use crate::bits::{bytes_bits, bytes_to_bits, is_bit_string, lemma_bytes_bits_binary};

verus! {

/// Calls `rand::random::<u8>()`, which draws one byte from the thread-local
/// generator of the `rand` crate. Nothing is claimed of the byte: two calls
/// may differ.
#[verifier::external_body]
fn random_byte() -> u8 {
    rand::random::<u8>()
}

/// The number of bytes that hold `strength` bits.
pub open spec fn byte_count(strength: nat) -> nat {
    (strength + 7) / 8
}

/// The binary digits of `bytes`, cut to `strength` digits where there are more.
pub open spec fn entropy_bits(bytes: Seq<u8>, strength: nat) -> Seq<char> {
    if bytes_bits(bytes).len() > strength {
        bytes_bits(bytes).take(strength as int)
    } else {
        bytes_bits(bytes)
    }
}

/// Whether `bits` is entropy of `strength` bits: the digits of as many bytes
/// as hold `strength` bits, cut to `strength` digits.
pub open spec fn is_entropy(bits: Seq<char>, strength: nat) -> bool {
    exists|bytes: Seq<u8>|
        bytes.len() == byte_count(strength) && bits == #[trigger] entropy_bits(bytes, strength)
}

/// Entropy of `strength` bits has exactly `strength` binary digits.
pub proof fn lemma_entropy_length(bits: Seq<char>, strength: nat)
    requires
        is_entropy(bits, strength),
    ensures
        bits.len() == strength,
        is_bit_string(bits),
{
    let bytes = choose|bytes: Seq<u8>|
        bytes.len() == byte_count(strength) && bits == #[trigger] entropy_bits(bytes, strength);
    lemma_bytes_bits_binary(bytes);
}

/// Writes `bytes` as binary digits and keeps the first `strength` of them:
/// of a last byte that is only partly needed, the leading bits stay.
pub fn entropy_from_bytes(bytes: &Vec<u8>, strength: usize) -> (bits: String)
    ensures
        bits@ == entropy_bits(bytes@, strength as nat),
        is_bit_string(bits@),
{
    let all = bytes_to_bits(bytes);
    proof {
        lemma_bytes_bits_binary(bytes@);
    }
    if strength / 8 < bytes.len() {
        let head = all.as_str().substring_char(0, strength);
        String::from_str(head)
    } else {
        all
    }
}

/// Draws `count` random bytes, one at a time.
pub fn random_bytes(count: usize) -> (bytes: Vec<u8>)
    ensures
        bytes@.len() == count,
{
    let mut bytes: Vec<u8> = Vec::new();
    let mut i: usize = 0;
    while i < count
        invariant
            i <= count,
            bytes@.len() == i,
        decreases count - i,
    {
        bytes.push(random_byte());
        i += 1;
    }
    bytes
}

/// A fresh random bit string of exactly `strength` binary digits: random
/// bytes, as many as hold `strength` bits, written as digits and cut to
/// `strength` digits.
pub fn generate(strength: usize) -> (bits: String)
    ensures
        is_entropy(bits@, strength as nat),
        bits@.len() == strength,
        is_bit_string(bits@),
{
    let count: usize = strength / 8 + (if strength % 8 != 0 { 1usize } else { 0usize });
    let bytes = random_bytes(count);
    proof {
        lemma_bytes_bits_binary(bytes@);
    }
    let bits = entropy_from_bytes(&bytes, strength);
    proof {
        lemma_entropy_length(bits@, strength as nat);
    }
    bits
}

} // verus!
