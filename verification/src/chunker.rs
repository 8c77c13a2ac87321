//! Partition of the encoded bits into word indices of eleven bits each.

use vstd::prelude::*;
use crate::bits::{
    bits_value, chunk_values, chunks, is_bit_string, lemma_chunk_count, lemma_chunk_values_bound,
    lemma_chunk_values_of_chunks, parse_chunks, split_chunks, texts, values16,
};
use crate::error::MnemonicError;
use vstd::arithmetic::power2::lemma2_to64;

verus! {

/// The number of binary digits that select one word.
pub const WORD_BITS: usize = 11;

/// The number of words in a word table: two to the `WORD_BITS`.
pub const WORD_COUNT: usize = 2048;

/// The word indices that the encoded bits hold.
pub open spec fn word_indices(encoded: Seq<char>) -> Seq<nat> {
    chunk_values(encoded, 11)
}

/// The chunks of eleven digits that the encoded bits are read in.
pub open spec fn word_chunks(encoded: Seq<char>) -> Seq<Seq<char>> {
    chunks(encoded, 11)
}

/// Each word index is the number that its chunk of digits writes.
pub proof fn lemma_indices_of_chunks(encoded: Seq<char>)
    ensures
        word_indices(encoded) == word_chunks(encoded).map_values(|c: Seq<char>| bits_value(c)),
        word_indices(encoded).len() == word_chunks(encoded).len(),
{
    lemma_chunk_values_of_chunks(encoded, 11);
}

/// Cuts the encoded bits into the chunks of eleven digits that the word
/// indices are read from.
pub fn chunk_strings(encoded: &str) -> (out: Vec<String>)
    ensures
        texts(out@) == word_chunks(encoded@),
{
    split_chunks(encoded, WORD_BITS)
}

/// Reads the encoded bits in consecutive chunks of eleven digits and returns
/// the number each chunk writes. A last chunk of fewer digits is read as the
/// shorter number.
pub fn chunk_to_indices(encoded: &str) -> (r: Result<Vec<u16>, MnemonicError>)
    ensures
        match r {
            Ok(indices) => {
                &&& is_bit_string(encoded@)
                &&& values16(indices@) == word_indices(encoded@)
                &&& indices@.len() == (encoded@.len() + 10) / 11
                &&& forall|i: int| 0 <= i < indices@.len() ==> #[trigger] indices@[i] < 2048
            },
            Err(e) => e == MnemonicError::NotBinary && !is_bit_string(encoded@),
        },
{
    match parse_chunks(encoded, WORD_BITS) {
        None => Err(MnemonicError::NotBinary),
        Some(indices) => {
            proof {
                lemma_chunk_count(encoded@, 11);
                lemma_chunk_values_bound(encoded@, 11);
                lemma2_to64();
                assert forall|i: int| 0 <= i < indices@.len() implies #[trigger] indices@[i]
                    < 2048 by {
                    assert(values16(indices@)[i] == chunk_values(encoded@, 11)[i]);
                }
            }
            Ok(indices)
        },
    }
}

} // verus!
