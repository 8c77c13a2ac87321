//! The checksum of an entropy bit string: the leading bits of the SHA-256
//! digest of the entropy packed into bytes.

use vstd::prelude::*;
use sha2::{Digest, Sha256};
use crate::bits::{
    byte_bit, bytes_bits, bytes_to_bits, chunk_values, is_bit_string, lemma_bytes_bits_binary,
    lemma_bytes_round_trip, lemma_chunk_count, lemma_chunk_values_bound, parse_chunks, values16,
    values8,
};
use crate::error::MnemonicError;
use vstd::arithmetic::power2::lemma2_to64;

verus! {

/// The SHA-256 digest of `data`.
pub uninterp spec fn sha256(data: Seq<u8>) -> Seq<u8>;

/// Calls `Sha256::digest` of the `sha2` crate and copies the digest into a
/// vector. Trusted: the result is the SHA-256 digest of `data`, a function of
/// the bytes alone, and it is 32 bytes long.
#[verifier::external_body]
fn sha256_digest(data: &Vec<u8>) -> (digest: Vec<u8>)
    ensures
        digest@ == sha256(data@),
        digest@.len() == 32,
{
    Sha256::digest(data).to_vec()
}

/// The bytes that a bit string packs into: one byte for each started chunk
/// of eight digits.
pub open spec fn packed_bytes(bits: Seq<char>) -> Seq<u8> {
    chunk_values(bits, 8).map_values(|v: nat| v as u8)
}

/// The number of checksum bits for entropy packed into `n_bytes` bytes: one
/// bit for every 32 bits of packed entropy.
pub open spec fn checksum_len(n_bytes: nat) -> nat {
    n_bytes * 8 / 32
}

/// The checksum of the entropy `bits`: as many digits as `checksum_len`
/// counts for its packed bytes, each the digit at the same place of the
/// SHA-256 digest of those bytes.
pub open spec fn checksum_bits(bits: Seq<char>) -> Seq<char> {
    Seq::new(
        checksum_len(packed_bytes(bits).len()),
        |i: int| byte_bit(sha256(packed_bytes(bits))[i / 8], i % 8),
    )
}

/// What `checksum` returns for the entropy `bits`: the checksum, or the
/// reason why there is none.
pub open spec fn checksum_outcome(bits: Seq<char>) -> Result<Seq<char>, MnemonicError> {
    if !is_bit_string(bits) {
        Err(MnemonicError::NotBinary)
    } else if checksum_len(packed_bytes(bits).len()) > 256 {
        Err(MnemonicError::ChecksumTooLong)
    } else {
        Ok(checksum_bits(bits))
    }
}

/// Whether `r` is what `checksum` returns for the entropy `bits`.
pub open spec fn is_checksum_of(r: Result<String, MnemonicError>, bits: Seq<char>) -> bool {
    match r {
        Ok(c) => checksum_outcome(bits) == Ok::<Seq<char>, MnemonicError>(c@),
        Err(e) => checksum_outcome(bits) == Err::<Seq<char>, MnemonicError>(e),
    }
}

/// Packs a bit string into bytes, eight digits to a byte. A last chunk of
/// fewer than eight digits becomes the byte of the shorter number.
pub fn pack_bytes(bits: &str) -> (r: Result<Vec<u8>, MnemonicError>)
    ensures
        match r {
            Ok(bytes) => is_bit_string(bits@) && bytes@ == packed_bytes(bits@) && values8(bytes@)
                == chunk_values(bits@, 8),
            Err(e) => e == MnemonicError::NotBinary && !is_bit_string(bits@),
        },
{
    match parse_chunks(bits, 8) {
        None => Err(MnemonicError::NotBinary),
        Some(values) => {
            let mut bytes: Vec<u8> = Vec::new();
            let mut i: usize = 0;
            proof {
                lemma_chunk_values_bound(bits@, 8);
                lemma2_to64();
                assert forall|j: int| 0 <= j < values.len() implies #[trigger] values@[j] < 256 by {
                    assert(values16(values@)[j] == chunk_values(bits@, 8)[j]);
                }
            }
            while i < values.len()
                invariant
                    i <= values.len(),
                    bytes@.len() == i,
                    forall|j: int| 0 <= j < values.len() ==> #[trigger] values@[j] < 256,
                    forall|j: int| 0 <= j < i ==> #[trigger] bytes@[j] as nat == values@[j] as nat,
                decreases values.len() - i,
            {
                bytes.push(values[i] as u8);
                i += 1;
            }
            assert(values8(bytes@) =~= values16(values@));
            assert(bytes@ =~= packed_bytes(bits@));
            Ok(bytes)
        },
    }
}

/// Cuts the checksum for entropy of `entropy_bytes` bytes from the front of
/// the binary digits of `digest`.
pub fn checksum_from_digest(digest: &Vec<u8>, entropy_bytes: usize) -> (r: Result<
    String,
    MnemonicError,
>)
    ensures
        match r {
            Ok(c) => checksum_len(entropy_bytes as nat) <= 8 * digest@.len() && c@ == bytes_bits(
                digest@,
            ).take(checksum_len(entropy_bytes as nat) as int),
            Err(e) => e == MnemonicError::ChecksumTooLong && checksum_len(entropy_bytes as nat) > 8
                * digest@.len(),
        },
{
    let size: usize = entropy_bytes / 4;
    let whole: usize = size / 8;
    if whole > digest.len() || (whole == digest.len() && size % 8 != 0) {
        return Err(MnemonicError::ChecksumTooLong);
    }
    let all = bytes_to_bits(digest);
    let head = all.as_str().substring_char(0, size);
    Ok(String::from_str(head))
}

/// The checksum of an entropy bit string: the entropy is packed into bytes,
/// the bytes are hashed with SHA-256, and the first bit of the digest for
/// every 32 bits of packed entropy is kept.
pub fn checksum(entropy: &str) -> (r: Result<String, MnemonicError>)
    ensures
        is_checksum_of(r, entropy@),
        r is Ok ==> is_bit_string(r.unwrap()@),
        r is Ok ==> r.unwrap()@.len() == (entropy@.len() + 7) / 8 * 8 / 32,
        r is Ok && entropy@.len() % 32 == 0 ==> r.unwrap()@.len() == entropy@.len() / 32,
{
    let bytes = match pack_bytes(entropy) {
        Ok(bytes) => bytes,
        Err(e) => { return Err(e); },
    };
    let digest = sha256_digest(&bytes);
    proof {
        lemma_chunk_count(entropy@, 8);
        lemma_bytes_bits_binary(digest@);
    }
    let r = checksum_from_digest(&digest, bytes.len());
    proof {
        if r is Ok {
            assert(r.unwrap()@ =~= checksum_bits(entropy@));
        }
    }
    r
}

/// The checksum is a function of the entropy alone: whatever `checksum`
/// returns on two calls with the same entropy is the same, the checksum digit
/// for digit or the same error.
pub proof fn lemma_checksum_deterministic(
    entropy: Seq<char>,
    first: Result<String, MnemonicError>,
    second: Result<String, MnemonicError>,
)
    requires
        is_checksum_of(first, entropy),
        is_checksum_of(second, entropy),
    ensures
        first is Ok <==> second is Ok,
        first is Ok ==> first.unwrap()@ == second.unwrap()@,
        first is Err ==> first.unwrap_err() == second.unwrap_err(),
{
}

/// Packing the digits of a sequence of bytes gives the bytes back: the
/// checksum of entropy written from whole bytes hashes those bytes.
pub proof fn lemma_pack_of_bits(bytes: Seq<u8>)
    ensures
        is_bit_string(bytes_bits(bytes)),
        packed_bytes(bytes_bits(bytes)) == bytes,
        checksum_bits(bytes_bits(bytes)) == Seq::new(
            checksum_len(bytes.len()),
            |i: int| byte_bit(sha256(bytes)[i / 8], i % 8),
        ),
{
    lemma_bytes_round_trip(bytes);
    lemma_bytes_bits_binary(bytes);
    assert(packed_bytes(bytes_bits(bytes)) =~= bytes);
}

/// For entropy whose length is a multiple of 32 the checksum has one bit for
/// every 32 bits of entropy, and every digit of it is a binary digit.
pub proof fn lemma_checksum_length(entropy: Seq<char>)
    requires
        entropy.len() % 32 == 0,
    ensures
        checksum_bits(entropy).len() == entropy.len() / 32,
        is_bit_string(checksum_bits(entropy)),
{
    lemma_chunk_count(entropy, 8);
}

} // verus!
