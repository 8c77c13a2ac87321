//! A generator of checked entropy: English and Japanese tables, words taken
//! as they were supplied, the checksum appended to the entropy.

use vstd::prelude::*;
use crate::bits::{is_bit_string, lemma_chunk_count};
use crate::checksum::{checksum, checksum_bits, checksum_len, checksum_outcome};
use crate::entropy::{generate, is_entropy};
use crate::error::MnemonicError;
use crate::language::LANG;
use crate::bits::texts;
use crate::wordlist::{valid_word_list, word_list_outcome, WordTables};

verus! {

/// A generator of checked entropy of a given strength in a given language.
#[derive(Debug)]
pub struct SecretWord {
    strength: usize,
    language: LANG,
}

/// What `SecretWord::display` shows.
#[derive(Debug)]
pub struct SecretDisplay {
    /// Fresh entropy, as binary digits.
    pub entropy: String,
    /// Other fresh entropy, followed by its checksum.
    pub encoded: String,
    /// The number of digits of `encoded`.
    pub length: usize,
}

/// Whether `SecretWord` serves `language`.
pub open spec fn has_plain_table(language: LANG) -> bool {
    language == LANG::ENG || language == LANG::JP
}

/// The word list that `SecretWord` loads for `language`.
pub open spec fn plain_word_list_outcome(tables: Seq<crate::wordlist::WordTable>, language: LANG) -> Result<
    Seq<Seq<char>>,
    MnemonicError,
> {
    if has_plain_table(language) {
        word_list_outcome(tables, language, false)
    } else {
        Err(MnemonicError::UnsupportedLanguage)
    }
}

impl SecretWord {
    /// The number of entropy bits.
    pub closed spec fn spec_strength(&self) -> usize {
        self.strength
    }

    /// The language of the words.
    pub closed spec fn spec_language(&self) -> LANG {
        self.language
    }

    /// A generator for `strength` bits of entropy and words of `language`.
    pub fn new(strength: usize, language: LANG) -> (r: Self)
        ensures
            r.spec_strength() == strength,
            r.spec_language() == language,
    {
        Self { strength, language }
    }

    /// Loads the word list of the language from `tables`, the words as they
    /// were supplied. Only English and Japanese are served.
    pub fn load_wordlist(&self, tables: &WordTables) -> (r: Result<Vec<String>, MnemonicError>)
        ensures
            match r {
                Ok(words) => plain_word_list_outcome(tables.tables@, self.spec_language()) == Ok::<
                    Seq<Seq<char>>,
                    MnemonicError,
                >(texts(words@)) && valid_word_list(texts(words@)),
                Err(e) => plain_word_list_outcome(tables.tables@, self.spec_language()) == Err::<
                    Seq<Seq<char>>,
                    MnemonicError,
                >(e),
            },
    {
        match self.language {
            LANG::ENG | LANG::JP => tables.load(self.language, false),
            _ => Err(MnemonicError::UnsupportedLanguage),
        }
    }

    /// Fresh random entropy: exactly as many binary digits as the strength.
    pub fn entropy(&self) -> (bits: String)
        ensures
            is_entropy(bits@, self.spec_strength() as nat),
            bits@.len() == self.spec_strength(),
            is_bit_string(bits@),
    {
        generate(self.strength)
    }

    /// The entropy `binary` followed by its checksum.
    pub fn checksum(&self, binary: String) -> (r: Result<String, MnemonicError>)
        ensures
            match r {
                Ok(encoded) => checksum_outcome(binary@) is Ok && encoded@ == binary@
                    + checksum_bits(binary@) && is_bit_string(encoded@),
                Err(e) => checksum_outcome(binary@) == Err::<Seq<char>, MnemonicError>(e),
            },
            r is Ok ==> r.unwrap()@.len() == binary@.len() + checksum_len(
                ((binary@.len() + 7) / 8) as nat,
            ),
    {
        match checksum(binary.as_str()) {
            Ok(sum) => Ok(binary.concat(sum.as_str())),
            Err(e) => Err(e),
        }
    }

    /// Fresh entropy, and other fresh entropy with its checksum appended and
    /// counted. Whether it succeeds depends on the strength alone.
    pub fn display(&self) -> (r: Result<SecretDisplay, MnemonicError>)
        ensures
            match r {
                Ok(d) => {
                    &&& checksum_len(((self.spec_strength() + 7) / 8) as nat) <= 256
                    &&& d.entropy@.len() == self.spec_strength()
                    &&& is_bit_string(d.entropy@)
                    &&& is_bit_string(d.encoded@)
                    &&& d.encoded@ == encoded_prefix(d.encoded@, self.spec_strength() as nat)
                        + checksum_bits(encoded_prefix(d.encoded@, self.spec_strength() as nat))
                    &&& d.length == d.encoded@.len()
                    &&& d.length == self.spec_strength() + checksum_len(
                        ((self.spec_strength() + 7) / 8) as nat,
                    )
                },
                Err(e) => e == MnemonicError::ChecksumTooLong && checksum_len(
                    ((self.spec_strength() + 7) / 8) as nat,
                ) > 256,
            },
    {
        let entropy = self.entropy();
        let second = self.entropy();
        proof {
            lemma_chunk_count(second@, 8);
        }
        let ghost taken = second@;
        let encoded = match self.checksum(second) {
            Ok(encoded) => encoded,
            Err(e) => { return Err(e); },
        };
        assert(encoded_prefix(encoded@, self.spec_strength() as nat) =~= taken);
        let length: usize = encoded.as_str().unicode_len();
        Ok(SecretDisplay { entropy, encoded, length })
    }
}

/// The first `strength` digits of an encoded bit string: its entropy.
pub open spec fn encoded_prefix(encoded: Seq<char>, strength: nat) -> Seq<char> {
    encoded.take(strength as int)
}

} // verus!
