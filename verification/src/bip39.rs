//! The mnemonic generator with normalized word tables.

use vstd::prelude::*;
use crate::bits::{is_bit_string, lemma_chunk_count, lemma_chunk_values_bound};
use crate::checksum::{checksum, checksum_len, checksum_outcome};
use crate::entropy::{generate, is_entropy};
use crate::error::MnemonicError;
use crate::language::LANG;
use crate::mnemonic::{
    encode, encoded_bits, is_mnemonic_of, is_standard_strength, lemma_standard_word_count,
    word_count, Mnemonic,
};
use crate::bits::texts;
use crate::wordlist::{all_composed, valid_word_list, word_list_outcome, WordTables};
use vstd::arithmetic::power2::lemma2_to64;

verus! {

/// A generator of mnemonics of a given strength in a given language.
#[derive(Debug)]
pub struct BIP39 {
    strength: usize,
    language: LANG,
}

impl BIP39 {
    /// The number of entropy bits.
    pub closed spec fn spec_strength(&self) -> usize {
        self.strength
    }

    /// The language of the words.
    pub closed spec fn spec_language(&self) -> LANG {
        self.language
    }

    /// A generator for `strength` bits of entropy and words of `language`.
    pub fn new(strength: usize, language: LANG) -> (r: Self)
        ensures
            r.spec_strength() == strength,
            r.spec_language() == language,
    {
        Self { strength, language }
    }

    /// The number of entropy bits.
    pub fn strength(&self) -> (r: usize)
        ensures
            r == self.spec_strength(),
    {
        self.strength
    }

    /// The language of the words.
    pub fn language(&self) -> (r: LANG)
        ensures
            r == self.spec_language(),
    {
        self.language
    }

    /// Loads the word list of the language from `tables`, each word in
    /// Normalization Form C.
    pub fn load_wordlist(&self, tables: &WordTables) -> (r: Result<Vec<String>, MnemonicError>)
        ensures
            match r {
                Ok(words) => word_list_outcome(tables.tables@, self.spec_language(), true) == Ok::<
                    Seq<Seq<char>>,
                    MnemonicError,
                >(texts(words@)) && valid_word_list(texts(words@)) && all_composed(
                    texts(words@),
                ),
                Err(e) => word_list_outcome(tables.tables@, self.spec_language(), true) == Err::<
                    Seq<Seq<char>>,
                    MnemonicError,
                >(e),
            },
    {
        tables.load(self.language, true)
    }

    /// Fresh random entropy: exactly as many binary digits as the strength.
    pub fn entropy(&self) -> (bits: String)
        ensures
            is_entropy(bits@, self.spec_strength() as nat),
            bits@.len() == self.spec_strength(),
            is_bit_string(bits@),
    {
        generate(self.strength)
    }

    /// The checksum of the entropy `binary`.
    pub fn binary_checksum(&self, binary: &String) -> (r: Result<String, MnemonicError>)
        ensures
            match r {
                Ok(c) => checksum_outcome(binary@) == Ok::<Seq<char>, MnemonicError>(c@)
                    && is_bit_string(c@),
                Err(e) => checksum_outcome(binary@) == Err::<Seq<char>, MnemonicError>(e),
            },
            r is Ok && binary@.len() % 32 == 0 ==> r.unwrap()@.len() == binary@.len() / 32,
    {
        checksum(binary.as_str())
    }

    /// The mnemonic of `entropy` over the word list of the language.
    pub fn mnemonic_of(&self, entropy: &str, tables: &WordTables) -> (r: Result<
        Mnemonic,
        MnemonicError,
    >)
        ensures
            match r {
                Ok(m) => {
                    &&& checksum_outcome(entropy@) is Ok
                    &&& word_list_outcome(tables.tables@, self.spec_language(), true) is Ok
                    &&& is_mnemonic_of(
                        m,
                        entropy@,
                        word_list_outcome(tables.tables@, self.spec_language(), true).unwrap(),
                    )
                    &&& m.words@.len() == word_count(entropy@.len())
                },
                Err(e) => match word_list_outcome(tables.tables@, self.spec_language(), true) {
                    Err(w) => e == w,
                    Ok(_) => checksum_outcome(entropy@) == Err::<Seq<char>, MnemonicError>(e),
                },
            },
    {
        let words = match self.load_wordlist(tables) {
            Ok(words) => words,
            Err(e) => { return Err(e); },
        };
        proof {
            lemma_chunk_values_bound(encoded_bits(entropy@), 11);
            lemma2_to64();
        }
        encode(entropy, &words)
    }

    /// Generates fresh entropy and its mnemonic over the word list of the
    /// language. Whether it succeeds depends on the strength and the tables
    /// alone; for a standard strength the mnemonic has one word for every
    /// eleven bits of entropy and checksum, with no bit left over.
    pub fn mnemonic(&self, tables: &WordTables) -> (r: Result<Mnemonic, MnemonicError>)
        ensures
            match r {
                Ok(m) => {
                    &&& word_list_outcome(tables.tables@, self.spec_language(), true) is Ok
                    &&& checksum_len(((self.spec_strength() + 7) / 8) as nat) <= 256
                    &&& is_entropy(m.entropy@, self.spec_strength() as nat)
                    &&& m.entropy@.len() == self.spec_strength()
                    &&& is_bit_string(m.entropy@)
                    &&& is_mnemonic_of(
                        m,
                        m.entropy@,
                        word_list_outcome(tables.tables@, self.spec_language(), true).unwrap(),
                    )
                    &&& m.words@.len() == word_count(self.spec_strength() as nat)
                },
                Err(e) => match word_list_outcome(tables.tables@, self.spec_language(), true) {
                    Err(w) => e == w,
                    Ok(_) => e == MnemonicError::ChecksumTooLong && checksum_len(
                        ((self.spec_strength() + 7) / 8) as nat,
                    ) > 256,
                },
            },
            r is Ok && is_standard_strength(self.spec_strength() as nat) ==> {
                &&& (self.spec_strength() + self.spec_strength() / 32) % 11 == 0
                &&& r.unwrap().words@.len() == (self.spec_strength() + self.spec_strength() / 32)
                    / 11
                &&& r.unwrap().checksum@.len() == self.spec_strength() / 32
            },
            is_standard_strength(self.spec_strength() as nat) && word_list_outcome(
                tables.tables@,
                self.spec_language(),
                true,
            ) is Ok ==> r is Ok,
    {
        let entropy = self.entropy();
        proof {
            lemma_chunk_count(entropy@, 8);
            if is_standard_strength(self.spec_strength() as nat) {
                lemma_standard_word_count(self.spec_strength() as nat);
            }
        }
        self.mnemonic_of(entropy.as_str(), tables)
    }
}

} // verus!
