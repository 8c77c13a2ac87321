//! The languages a mnemonic can be written in.

use vstd::prelude::*;

verus! {

/// The tag of a language; it selects the word table.
#[allow(non_camel_case_types)]
#[derive(Debug, Clone, Copy, PartialEq, Eq, Structural)]
pub enum LANG {
    /// English.
    ENG,
    /// Japanese.
    JP,
    /// French.
    FR,
    /// Korean.
    KO,
    /// Spanish.
    SP,
    /// Portuguese.
    PT,
}

} // verus!
