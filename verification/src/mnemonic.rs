//! The pipeline from an entropy bit string to the words of a mnemonic.

use vstd::prelude::*;
use crate::bits::{lemma_chunk_count, lemma_chunk_values_bound, texts, values16};
use crate::checksum::{
    checksum, checksum_bits, checksum_len, checksum_outcome, lemma_checksum_length,
};
use crate::chunker::{chunk_strings, chunk_to_indices, word_chunks, word_indices};
use crate::error::MnemonicError;
use crate::wordlist::{in_range, resolve, resolved};
use vstd::arithmetic::power2::lemma2_to64;

verus! {

/// A mnemonic together with the values it was derived from.
#[derive(Debug)]
pub struct Mnemonic {
    /// The entropy, as binary digits.
    pub entropy: String,
    /// The checksum of the entropy, as binary digits.
    pub checksum: String,
    /// Entropy and checksum cut into chunks of eleven digits.
    pub chunks: Vec<String>,
    /// The number that each chunk writes: the word indices.
    pub indices: Vec<u16>,
    /// The word of each index.
    pub words: Vec<String>,
}

/// The entropy followed by its checksum.
pub open spec fn encoded_bits(entropy: Seq<char>) -> Seq<char> {
    entropy + checksum_bits(entropy)
}

/// The number of words in the mnemonic of `strength` bits of entropy.
pub open spec fn word_count(strength: nat) -> nat {
    ((strength + checksum_len((strength + 7) / 8) + 10) / 11) as nat
}

/// Whether `strength` is one of the standard numbers of entropy bits.
pub open spec fn is_standard_strength(strength: nat) -> bool {
    strength == 128 || strength == 160 || strength == 192 || strength == 224 || strength == 256
}

/// Entropy of a standard strength, with its checksum, is read as one index
/// for every eleven bits, with no bit left over, and every index is below
/// 2048.
pub proof fn lemma_standard_indices(entropy: Seq<char>)
    requires
        is_standard_strength(entropy.len()),
    ensures
        checksum_bits(entropy).len() == entropy.len() / 32,
        encoded_bits(entropy).len() % 11 == 0,
        word_indices(encoded_bits(entropy)).len() == (entropy.len() + entropy.len() / 32) / 11,
        forall|i: int|
            0 <= i < word_indices(encoded_bits(entropy)).len() ==> #[trigger] word_indices(
                encoded_bits(entropy),
            )[i] < 2048,
{
    lemma_checksum_length(entropy);
    lemma_chunk_count(encoded_bits(entropy), 11);
    lemma_chunk_values_bound(encoded_bits(entropy), 11);
    lemma2_to64();
}

/// Whether `strength` is one of the standard numbers of entropy bits.
pub fn standard_strength(strength: usize) -> (r: bool)
    ensures
        r == is_standard_strength(strength as nat),
{
    strength == 128 || strength == 160 || strength == 192 || strength == 224 || strength == 256
}

/// Whether `m` is the mnemonic of `entropy` over the word table `words`.
pub open spec fn is_mnemonic_of(m: Mnemonic, entropy: Seq<char>, words: Seq<Seq<char>>) -> bool {
    &&& m.entropy@ == entropy
    &&& m.checksum@ == checksum_bits(entropy)
    &&& m.checksum@.len() == checksum_len(((entropy.len() + 7) / 8) as nat)
    &&& texts(m.chunks@) == word_chunks(encoded_bits(entropy))
    &&& values16(m.indices@) == word_indices(encoded_bits(entropy))
    &&& in_range(m.indices@, words.len())
    &&& texts(m.words@) == resolved(m.indices@, words)
}

/// A standard strength and its checksum fill a whole number of words: one
/// word for every eleven bits, with no bit left over.
pub proof fn lemma_standard_word_count(strength: nat)
    requires
        is_standard_strength(strength),
    ensures
        (strength + strength / 32) % 11 == 0,
        word_count(strength) == (strength + strength / 32) / 11,
        checksum_len((strength + 7) / 8) == strength / 32,
{
}

/// The words written one after another, a comma and a space between two.
pub open spec fn joined(words: Seq<Seq<char>>) -> Seq<char>
    decreases words.len(),
{
    if words.len() == 0 {
        Seq::empty()
    } else if words.len() == 1 {
        words[0]
    } else {
        joined(words.drop_last()) + seq![',', ' '] + words.last()
    }
}

impl Mnemonic {
    /// The words of the mnemonic as one phrase, separated by a comma and a
    /// space.
    pub fn phrase(&self) -> (out: String)
        ensures
            out@ == joined(texts(self.words@)),
    {
        let mut out = String::new();
        let mut i: usize = 0;
        while i < self.words.len()
            invariant
                i <= self.words.len(),
                out@ == joined(texts(self.words@).take(i as int)),
            decreases self.words.len() - i,
        {
            proof {
                reveal_strlit(", ");
                assert(texts(self.words@).take(i + 1).drop_last() =~= texts(self.words@).take(
                    i as int,
                ));
            }
            if i > 0 {
                out.append(", ");
                assert(", "@ =~= seq![',', ' ']);
            }
            out.append(self.words[i].as_str());
            i += 1;
        }
        assert(texts(self.words@).take(self.words.len() as int) =~= texts(self.words@));
        out
    }
}

/// Encodes `entropy` as a mnemonic over the word table `words`: the checksum
/// is appended, the bits are read as indices of eleven digits, and each index
/// selects its word.
pub fn encode(entropy: &str, words: &Vec<String>) -> (r: Result<Mnemonic, MnemonicError>)
    ensures
        match r {
            Ok(m) => checksum_outcome(entropy@) is Ok && is_mnemonic_of(
                m,
                entropy@,
                texts(words@),
            ),
            Err(e) => match checksum_outcome(entropy@) {
                Err(c) => e == c,
                Ok(_) => e == MnemonicError::IndexOutOfRange && exists|k: int|
                    0 <= k < word_indices(encoded_bits(entropy@)).len() && #[trigger] word_indices(
                        encoded_bits(entropy@),
                    )[k] >= words@.len(),
            },
        },
        r is Ok ==> r.unwrap().indices@.len() == word_count(entropy@.len()),
        r is Ok ==> r.unwrap().words@.len() == word_count(entropy@.len()),
{
    let sum = match checksum(entropy) {
        Ok(sum) => sum,
        Err(e) => { return Err(e); },
    };
    let mut encoded = String::from_str(entropy);
    encoded.append(sum.as_str());
    assert(encoded@ == encoded_bits(entropy@));
    let indices = match chunk_to_indices(encoded.as_str()) {
        Ok(indices) => indices,
        Err(e) => {
            assert(false);
            return Err(e);
        },
    };
    proof {
        lemma_chunk_count(entropy@, 8);
    }
    match resolve(&indices, words) {
        Ok(found) => {
            assert(found@.len() == texts(found@).len());
            let chunks = chunk_strings(encoded.as_str());
            Ok(
                Mnemonic {
                    entropy: String::from_str(entropy),
                    checksum: sum,
                    chunks,
                    indices,
                    words: found,
                },
            )
        },
        Err(e) => {
            let ghost k = choose|k: int|
                0 <= k < indices@.len() && !((#[trigger] indices@[k] as nat) < words@.len());
            assert(values16(indices@)[k] == word_indices(encoded_bits(entropy@))[k]);
            Err(e)
        },
    }
}

} // verus!
