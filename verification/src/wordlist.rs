//! Word tables by language, their normalization, and the lookup of words by
//! index.

use vstd::prelude::*;
use unicode_normalization::UnicodeNormalization;
use crate::bits::texts;
use crate::error::MnemonicError;
use crate::language::LANG;

verus! {

/// The word `word` in Unicode Normalization Form C.
pub uninterp spec fn nfc(word: Seq<char>) -> Seq<char>;

/// Calls `UnicodeNormalization::nfc` of the `unicode-normalization` crate on
/// `word` and collects the characters. Trusted: the result is the canonical
/// composition of `word`, a function of its characters alone, and, being in
/// Normalization Form C, it is left unchanged by the same operation.
#[verifier::external_body]
fn nfc_string(word: &str) -> (r: String)
    ensures
        r@ == nfc(word@),
        nfc(r@) == r@,
{
    word.nfc().collect::<String>()
}

/// A table of words for one language, as it was supplied.
pub struct WordTable {
    /// The language of the words.
    pub language: LANG,
    /// The words, in the order of their indices.
    pub words: Vec<String>,
}

/// The word tables that were registered, in the order of registration.
pub struct WordTables {
    /// The registered tables, the latest last.
    pub tables: Vec<WordTable>,
}

/// Each word in Normalization Form C.
pub open spec fn normalized(words: Seq<Seq<char>>) -> Seq<Seq<char>> {
    words.map_values(|w: Seq<char>| nfc(w))
}

/// Whether every word is in Normalization Form C already: normalizing it
/// changes nothing.
pub open spec fn all_composed(words: Seq<Seq<char>>) -> bool {
    forall|i: int| 0 <= i < words.len() ==> nfc(#[trigger] words[i]) == words[i]
}

/// Whether no word stands at two places.
pub open spec fn distinct(words: Seq<Seq<char>>) -> bool {
    forall|i: int, j: int| 0 <= i < j < words.len() ==> words[i] != words[j]
}

/// Whether `words` can serve as a word table: exactly 2048 words, no two
/// alike.
pub open spec fn valid_word_list(words: Seq<Seq<char>>) -> bool {
    words.len() == 2048 && distinct(words)
}

/// The place of the table that was registered last for `language`.
pub open spec fn lookup(tables: Seq<WordTable>, language: LANG) -> Option<int>
    decreases tables.len(),
{
    if tables.len() == 0 {
        None
    } else if tables.last().language == language {
        Some(tables.len() - 1)
    } else {
        lookup(tables.drop_last(), language)
    }
}

/// The word list that loading yields for `language`: the words of its table,
/// normalized where `normalize` is set, or the reason why there is none.
pub open spec fn word_list_outcome(tables: Seq<WordTable>, language: LANG, normalize: bool) -> Result<
    Seq<Seq<char>>,
    MnemonicError,
> {
    match lookup(tables, language) {
        None => Err(MnemonicError::UnsupportedLanguage),
        Some(i) => {
            let raw = texts(tables[i].words@);
            let words = if normalize { normalized(raw) } else { raw };
            if valid_word_list(words) {
                Ok(words)
            } else {
                Err(MnemonicError::MalformedWordList)
            }
        },
    }
}

/// The words that the indices select, in order.
pub open spec fn resolved(indices: Seq<u16>, words: Seq<Seq<char>>) -> Seq<Seq<char>> {
    Seq::new(indices.len(), |k: int| words[indices[k] as int])
}

/// Whether every index points into a table of `size` words.
pub open spec fn in_range(indices: Seq<u16>, size: nat) -> bool {
    forall|k: int| 0 <= k < indices.len() ==> (#[trigger] indices[k] as nat) < size
}

/// In a valid word list every index below 2048 selects a word, and two
/// different indices select different words.
pub proof fn lemma_resolve_distinct(words: Seq<Seq<char>>, i: u16, j: u16)
    requires
        valid_word_list(words),
        i < 2048,
        j < 2048,
        i != j,
    ensures
        in_range(seq![i], words.len()),
        in_range(seq![j], words.len()),
        resolved(seq![i], words).len() == 1,
        resolved(seq![i], words)[0] == words[i as int],
        resolved(seq![i], words)[0] != resolved(seq![j], words)[0],
{
    if i < j {
        assert(words[i as int] != words[j as int]);
    } else {
        assert(words[j as int] != words[i as int]);
    }
}

/// Over a valid word list, two sequences of indices below 2048 that select
/// the same words are the same sequence.
pub proof fn lemma_resolve_injective(words: Seq<Seq<char>>, a: Seq<u16>, b: Seq<u16>)
    requires
        valid_word_list(words),
        in_range(a, 2048),
        in_range(b, 2048),
        resolved(a, words) == resolved(b, words),
    ensures
        a == b,
{
    assert(a.len() == resolved(a, words).len());
    assert(b.len() == resolved(b, words).len());
    assert forall|k: int| 0 <= k < a.len() implies a[k] == b[k] by {
        assert(resolved(a, words)[k] == words[a[k] as int]);
        assert(resolved(b, words)[k] == words[b[k] as int]);
        assert(a[k] < 2048 && b[k] < 2048);
    }
    assert(a =~= b);
}

/// The word in Unicode Normalization Form C. Normalizing the result again
/// changes nothing.
pub fn normalize(word: &str) -> (r: String)
    ensures
        r@ == nfc(word@),
        nfc(r@) == r@,
{
    nfc_string(word)
}

/// Normalizes each word of a table.
pub fn normalize_words(raw: &Vec<String>) -> (out: Vec<String>)
    ensures
        texts(out@) == normalized(texts(raw@)),
        all_composed(texts(out@)),
{
    let mut out: Vec<String> = Vec::new();
    let mut i: usize = 0;
    while i < raw.len()
        invariant
            i <= raw.len(),
            out@.len() == i,
            forall|j: int| 0 <= j < i ==> (#[trigger] out@[j])@ == nfc(raw@[j]@),
            forall|j: int| 0 <= j < i ==> nfc((#[trigger] out@[j])@) == out@[j]@,
        decreases raw.len() - i,
    {
        out.push(normalize(raw[i].as_str()));
        i += 1;
    }
    assert(texts(out@) =~= normalized(texts(raw@)));
    assert forall|j: int| 0 <= j < texts(out@).len() implies nfc(#[trigger] texts(out@)[j]) == texts(
        out@,
    )[j] by {
        assert(texts(out@)[j] == out@[j]@);
    }
    out
}

/// Whether no word stands at two places of `words`.
pub fn all_distinct(words: &Vec<String>) -> (b: bool)
    ensures
        b == distinct(texts(words@)),
{
    let n: usize = words.len();
    let mut j: usize = 0;
    while j < n
        invariant
            j <= n,
            n == words.len(),
            forall|a: int, b: int| 0 <= a < b < j ==> words@[a]@ != words@[b]@,
        decreases n - j,
    {
        let mut i: usize = 0;
        while i < j
            invariant
                i <= j < n,
                n == words.len(),
                forall|a: int| 0 <= a < i ==> words@[a]@ != words@[j as int]@,
            decreases j - i,
        {
            if words[i] == words[j] {
                assert(texts(words@)[i as int] == texts(words@)[j as int]);
                return false;
            }
            i += 1;
        }
        j += 1;
    }
    assert forall|a: int, b: int| 0 <= a < b < texts(words@).len() implies texts(words@)[a] != texts(
        words@,
    )[b] by {
        assert(words@[a]@ != words@[b]@);
    }
    true
}

/// Looks the indices up in the word table and returns the words in the order
/// of the indices.
pub fn resolve(indices: &Vec<u16>, words: &Vec<String>) -> (r: Result<Vec<String>, MnemonicError>)
    ensures
        match r {
            Ok(found) => in_range(indices@, words@.len()) && texts(found@) == resolved(
                indices@,
                texts(words@),
            ),
            Err(e) => e == MnemonicError::IndexOutOfRange && !in_range(indices@, words@.len()),
        },
{
    let mut found: Vec<String> = Vec::new();
    let mut k: usize = 0;
    while k < indices.len()
        invariant
            k <= indices.len(),
            found@.len() == k,
            forall|j: int| 0 <= j < k ==> (#[trigger] indices@[j] as nat) < words@.len(),
            forall|j: int| 0 <= j < k ==> (#[trigger] found@[j])@ == words@[indices@[j] as int]@,
        decreases indices.len() - k,
    {
        let index: usize = indices[k] as usize;
        if index >= words.len() {
            return Err(MnemonicError::IndexOutOfRange);
        }
        found.push(words[index].clone());
        k += 1;
    }
    assert(texts(found@) =~= resolved(indices@, texts(words@)));
    Ok(found)
}

impl WordTables {
    /// A registry without tables.
    pub fn new() -> (r: Self)
        ensures
            r.tables@.len() == 0,
    {
        WordTables { tables: Vec::new() }
    }

    /// Registers `words` as the table of `language`. A table registered
    /// earlier for the same language is no longer found.
    pub fn register(&mut self, language: LANG, words: Vec<String>)
        ensures
            final(self).tables@ == old(self).tables@.push((WordTable { language, words })),
            lookup(final(self).tables@, language) == Some(old(self).tables@.len() as int),
            forall|other: LANG|
                other != language ==> lookup(final(self).tables@, other) == lookup(
                    old(self).tables@,
                    other,
                ),
    {
        let ghost before = self.tables@;
        self.tables.push(WordTable { language, words });
        assert(self.tables@.drop_last() =~= before);
    }

    /// The table that was registered last for `language`, if there is one.
    pub fn find(&self, language: LANG) -> (r: Option<usize>)
        ensures
            match r {
                Some(i) => lookup(self.tables@, language) == Some(i as int) && i
                    < self.tables@.len(),
                None => lookup(self.tables@, language) is None,
            },
    {
        let mut found: Option<usize> = None;
        let mut i: usize = 0;
        while i < self.tables.len()
            invariant
                i <= self.tables.len(),
                match found {
                    Some(at) => lookup(self.tables@.take(i as int), language) == Some(at as int)
                        && at < i,
                    None => lookup(self.tables@.take(i as int), language) is None,
                },
            decreases self.tables.len() - i,
        {
            assert(self.tables@.take(i + 1).drop_last() =~= self.tables@.take(i as int));
            if self.tables[i].language == language {
                found = Some(i);
            }
            i += 1;
        }
        assert(self.tables@.take(self.tables.len() as int) =~= self.tables@);
        found
    }

    /// Loads the word list of `language`: the words of its table, each
    /// normalized where `normalize` is set. The list is returned only if it
    /// holds exactly 2048 words, no two alike.
    pub fn load(&self, language: LANG, normalize: bool) -> (r: Result<Vec<String>, MnemonicError>)
        ensures
            match r {
                Ok(words) => word_list_outcome(self.tables@, language, normalize) == Ok::<
                    Seq<Seq<char>>,
                    MnemonicError,
                >(texts(words@)) && valid_word_list(texts(words@)),
                Err(e) => word_list_outcome(self.tables@, language, normalize) == Err::<
                    Seq<Seq<char>>,
                    MnemonicError,
                >(e),
            },
            r is Ok && normalize ==> all_composed(texts(r.unwrap()@)),
    {
        match self.find(language) {
            None => Err(MnemonicError::UnsupportedLanguage),
            Some(i) => {
                let words = if normalize {
                    normalize_words(&self.tables[i].words)
                } else {
                    let copy = self.tables[i].words.clone();
                    assert(texts(copy@) =~= texts(self.tables@[i as int].words@));
                    copy
                };
                if words.len() == 2048 && all_distinct(&words) {
                    Ok(words)
                } else {
                    Err(MnemonicError::MalformedWordList)
                }
            },
        }
    }
}

} // verus!
