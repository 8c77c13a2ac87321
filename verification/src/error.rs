use vstd::prelude::*;

verus! {

/// Why a mnemonic could not be produced.
#[derive(Debug, Clone, Copy, PartialEq, Eq, Structural)]
pub enum MnemonicError {
    /// A character other than `'0'` or `'1'` stands in a bit string.
    NotBinary,
    /// The checksum would be longer than the digest it is cut from.
    ChecksumTooLong,
    /// No word table is registered for the requested language.
    UnsupportedLanguage,
    /// The table for the language does not hold exactly 2048 distinct words.
    MalformedWordList,
    /// A word index points past the end of the word table.
    IndexOutOfRange,
}

} // verus!
