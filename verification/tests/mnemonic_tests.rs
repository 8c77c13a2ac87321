use bitcoin_wallet::bip39::BIP39;
use bitcoin_wallet::error::MnemonicError;
use bitcoin_wallet::language::LANG;
use bitcoin_wallet::mnemonic::{encode, standard_strength};
use bitcoin_wallet::secret_word::SecretWord;
use bitcoin_wallet::wordlist::{all_distinct, normalize, normalize_words, resolve, WordTables};

fn table() -> Vec<String> {
    let mut words: Vec<String> = Vec::new();
    for i in 0..2048 {
        let word = match i {
            0 => String::from("abandon"),
            1 => String::from("ability"),
            2 => String::from("able"),
            3 => String::from("about"),
            102 => String::from("art"),
            2037 => String::from("wrong"),
            2047 => String::from("zoo"),
            _ => format!("word{}", i),
        };
        words.push(word);
    }
    words
}

fn tables_for(language: LANG) -> WordTables {
    let mut tables = WordTables::new();
    tables.register(language, table());
    tables
}

#[test]
fn zero_entropy_gives_the_known_phrase() {
    let entropy = "0".repeat(128);
    let m = encode(&entropy, &table()).unwrap();
    assert_eq!(m.entropy, entropy);
    assert_eq!(m.checksum, "0011");
    assert_eq!(m.indices, vec![0, 0, 0, 0, 0, 0, 0, 0, 0, 0, 0, 3]);
    assert_eq!(m.chunks.len(), 12);
    assert!(m.chunks[..11].iter().all(|c| c == "00000000000"));
    assert_eq!(m.chunks[11], "00000000011");
    assert_eq!(
        m.phrase(),
        "abandon, abandon, abandon, abandon, abandon, abandon, abandon, abandon, abandon, abandon, abandon, about"
    );
    assert_eq!(
        m.words.join(" "),
        "abandon abandon abandon abandon abandon abandon abandon abandon abandon abandon abandon about"
    );
}

#[test]
fn zero_entropy_of_256_bits_gives_24_words() {
    let m = encode(&"0".repeat(256), &table()).unwrap();
    assert_eq!(m.words.len(), 24);
    assert_eq!(m.indices[23], 102);
    assert_eq!(m.words[23], "art");
    assert!(m.words[..23].iter().all(|w| w == "abandon"));
}

#[test]
fn all_ones_entropy_gives_the_known_phrase() {
    let m = encode(&"1".repeat(128), &table()).unwrap();
    assert_eq!(m.indices, vec![2047, 2047, 2047, 2047, 2047, 2047, 2047, 2047, 2047, 2047, 2047, 2037]);
    assert_eq!(m.words.join(" "), "zoo zoo zoo zoo zoo zoo zoo zoo zoo zoo zoo wrong");
}

#[test]
fn phrase_of_one_word_has_no_separator() {
    let short: Vec<String> = vec![String::from("a"), String::from("b")];
    let m = encode("00000000001", &short).unwrap();
    assert_eq!(m.phrase(), "b");
    let two = encode("000000000011", &short).unwrap();
    assert_eq!(two.indices, vec![1, 1]);
    assert_eq!(two.phrase(), "b, b");
}

#[test]
fn chunks_and_indices_agree() {
    let m = BIP39::new(256, LANG::ENG).mnemonic(&tables_for(LANG::ENG)).unwrap();
    assert_eq!(m.chunks.len(), m.indices.len());
    assert_eq!(m.chunks.concat(), format!("{}{}", m.entropy, m.checksum));
    for (chunk, index) in m.chunks.iter().zip(m.indices.iter()) {
        assert_eq!(chunk.len(), 11);
        assert_eq!(u16::from_str_radix(chunk, 2), Ok(*index));
    }
}

#[test]
fn encode_through_the_generator() {
    let generator = BIP39::new(128, LANG::ENG);
    let m = generator.mnemonic_of(&"0".repeat(128), &tables_for(LANG::ENG)).unwrap();
    assert_eq!(m.words[11], "about");
    assert_eq!(m.words.len(), 12);
}

#[test]
fn encode_reports_bad_entropy() {
    assert_eq!(encode("01x", &table()).err(), Some(MnemonicError::NotBinary));
    assert_eq!(encode(&"0".repeat(8224), &table()).err(), Some(MnemonicError::ChecksumTooLong));
}

#[test]
fn encode_reports_an_index_past_the_table() {
    let short: Vec<String> = vec![String::from("a"), String::from("b")];
    assert_eq!(encode(&"1".repeat(128), &short).err(), Some(MnemonicError::IndexOutOfRange));
    let m = encode("00000000001", &short).unwrap();
    assert_eq!(m.words, vec![String::from("b")]);
}

#[test]
fn standard_strengths_give_whole_word_counts() {
    for (strength, count) in [(128usize, 12usize), (160, 15), (192, 18), (224, 21), (256, 24)] {
        let generator = BIP39::new(strength, LANG::ENG);
        let m = generator.mnemonic(&tables_for(LANG::ENG)).unwrap();
        assert_eq!((strength + strength / 32) % 11, 0);
        assert_eq!(m.words.len(), (strength + strength / 32) / 11);
        assert_eq!(m.words.len(), count);
        assert_eq!(m.indices.len(), count);
        assert_eq!(m.entropy.len(), strength);
        assert_eq!(m.checksum.len(), strength / 32);
        assert!(m.indices.iter().all(|&i| i < 2048));
    }
}

#[test]
fn standard_strengths_are_recognised() {
    for strength in [128usize, 160, 192, 224, 256] {
        assert!(standard_strength(strength));
    }
    for strength in [0usize, 12, 32, 64, 96, 127, 129, 288, 512] {
        assert!(!standard_strength(strength));
    }
}

#[test]
fn other_strengths_end_in_a_short_chunk() {
    let generator = BIP39::new(12, LANG::ENG);
    let m = generator.mnemonic(&tables_for(LANG::ENG)).unwrap();
    assert_eq!(m.entropy.len(), 12);
    assert_eq!(m.checksum.len(), 0);
    assert_eq!(m.indices.len(), 2);
    assert!(m.indices[1] < 2);
    assert_eq!(m.chunks.len(), 2);
    assert_eq!(m.chunks[0], &m.entropy[..11]);
    assert_eq!(m.chunks[1], &m.entropy[11..]);
    let empty = BIP39::new(0, LANG::ENG).mnemonic(&tables_for(LANG::ENG)).unwrap();
    assert_eq!(empty.words.len(), 0);
    assert_eq!(empty.phrase(), "");
}

#[test]
fn generator_keeps_strength_and_language() {
    let generator = BIP39::new(160, LANG::KO);
    assert_eq!(generator.strength(), 160);
    assert_eq!(generator.language(), LANG::KO);
    assert_eq!(generator.entropy().len(), 160);
}

#[test]
fn generator_checksum_matches_the_known_value() {
    let generator = BIP39::new(128, LANG::ENG);
    assert_eq!(generator.binary_checksum(&"0".repeat(128)), Ok(String::from("0011")));
    assert_eq!(generator.binary_checksum(&String::from("2")), Err(MnemonicError::NotBinary));
}

#[test]
fn missing_language_is_reported() {
    let generator = BIP39::new(128, LANG::FR);
    assert_eq!(generator.load_wordlist(&WordTables::new()), Err(MnemonicError::UnsupportedLanguage));
    assert_eq!(
        generator.load_wordlist(&tables_for(LANG::ENG)),
        Err(MnemonicError::UnsupportedLanguage)
    );
    assert_eq!(
        generator.mnemonic(&tables_for(LANG::ENG)).err(),
        Some(MnemonicError::UnsupportedLanguage)
    );
    assert!(generator.load_wordlist(&tables_for(LANG::FR)).is_ok());
}

#[test]
fn malformed_table_is_reported() {
    let generator = BIP39::new(128, LANG::SP);
    let mut short = WordTables::new();
    short.register(LANG::SP, vec![String::from("uno"), String::from("dos")]);
    assert_eq!(generator.load_wordlist(&short), Err(MnemonicError::MalformedWordList));

    let mut repeated = table();
    repeated[2000] = String::from("about");
    let mut tables = WordTables::new();
    tables.register(LANG::SP, repeated);
    assert_eq!(generator.load_wordlist(&tables), Err(MnemonicError::MalformedWordList));
    assert_eq!(generator.mnemonic(&tables).err(), Some(MnemonicError::MalformedWordList));

    let mut long = table();
    long.push(String::from("extra"));
    let mut tables = WordTables::new();
    tables.register(LANG::SP, long);
    assert_eq!(generator.load_wordlist(&tables), Err(MnemonicError::MalformedWordList));
}

#[test]
fn too_long_checksum_is_reported_by_the_generator() {
    let generator = BIP39::new(8224, LANG::ENG);
    assert_eq!(
        generator.mnemonic(&tables_for(LANG::ENG)).err(),
        Some(MnemonicError::ChecksumTooLong)
    );
}

#[test]
fn last_registered_table_is_found() {
    let mut tables = WordTables::new();
    assert_eq!(tables.find(LANG::ENG), None);
    tables.register(LANG::ENG, vec![String::from("old")]);
    tables.register(LANG::JP, table());
    assert_eq!(tables.find(LANG::ENG), Some(0));
    tables.register(LANG::ENG, table());
    assert_eq!(tables.find(LANG::ENG), Some(2));
    assert_eq!(tables.find(LANG::JP), Some(1));
    assert_eq!(tables.find(LANG::PT), None);
    assert_eq!(tables.load(LANG::ENG, true), Ok(table()));
}

#[test]
fn words_are_composed() {
    assert_eq!(normalize("e\u{301}cole"), "\u{e9}cole");
    assert_eq!(normalize("\u{304b}\u{3099}"), "\u{304c}");
    assert_eq!(normalize("\u{1100}\u{1161}"), "\u{ac00}");
    assert_eq!(normalize("abandon"), "abandon");
}

#[test]
fn normalizing_twice_changes_nothing() {
    for word in ["e\u{301}cole", "\u{304b}\u{3099}", "\u{1100}\u{1161}\u{11a8}", "zoo", ""] {
        let once = normalize(word);
        assert_eq!(normalize(&once), once);
    }
}

#[test]
fn loaded_words_are_composed() {
    let mut raw = table();
    raw[7] = String::from("e\u{301}te\u{301}");
    let mut tables = WordTables::new();
    tables.register(LANG::FR, raw.clone());
    let words = BIP39::new(128, LANG::FR).load_wordlist(&tables).unwrap();
    assert_eq!(words.len(), 2048);
    assert_eq!(words[7], "\u{e9}t\u{e9}");
    assert_eq!(words[3], "about");
    assert_eq!(normalize_words(&raw), words);
    assert_eq!(tables.load(LANG::FR, false).unwrap()[7], "e\u{301}te\u{301}");
}

#[test]
fn words_alike_once_composed_are_refused() {
    let mut raw = table();
    raw[7] = String::from("e\u{301}");
    raw[8] = String::from("\u{e9}");
    let mut tables = WordTables::new();
    tables.register(LANG::JP, raw);
    assert_eq!(
        BIP39::new(128, LANG::JP).load_wordlist(&tables),
        Err(MnemonicError::MalformedWordList)
    );
    assert!(SecretWord::new(128, LANG::JP).load_wordlist(&tables).is_ok());
}

#[test]
fn distinct_words_are_recognised() {
    assert!(all_distinct(&table()));
    assert!(all_distinct(&vec![]));
    assert!(!all_distinct(&vec![String::from("a"), String::from("b"), String::from("a")]));
}

#[test]
fn every_index_resolves_to_its_own_word() {
    let words = table();
    let indices: Vec<u16> = (0..2048).collect();
    let found = resolve(&indices, &words).unwrap();
    assert_eq!(found, words);
    let mut sorted = found.clone();
    sorted.sort();
    sorted.dedup();
    assert_eq!(sorted.len(), 2048);
}

#[test]
fn resolve_keeps_the_order_of_the_indices() {
    let found = resolve(&vec![3, 0, 2047, 3], &table()).unwrap();
    assert_eq!(found, vec!["about", "abandon", "zoo", "about"]);
    assert_eq!(resolve(&vec![], &table()), Ok(vec![]));
}

#[test]
fn resolve_refuses_an_index_past_the_table() {
    assert_eq!(resolve(&vec![0, 2048], &table()), Err(MnemonicError::IndexOutOfRange));
    let short = vec![String::from("a"), String::from("b"), String::from("c")];
    assert_eq!(resolve(&vec![5], &short), Err(MnemonicError::IndexOutOfRange));
    assert_eq!(resolve(&vec![2], &short), Ok(vec![String::from("c")]));
}

#[test]
fn secret_word_appends_the_checksum() {
    let secret = SecretWord::new(128, LANG::ENG);
    let encoded = secret.checksum("0".repeat(128)).unwrap();
    assert_eq!(encoded, format!("{}0011", "0".repeat(128)));
    assert_eq!(secret.checksum(String::from("012")), Err(MnemonicError::NotBinary));
    assert_eq!(secret.entropy().len(), 128);
}

#[test]
fn secret_word_display_counts_the_encoded_bits() {
    let shown = SecretWord::new(256, LANG::ENG).display().unwrap();
    assert_eq!(shown.entropy.len(), 256);
    assert_eq!(shown.encoded.len(), 264);
    assert_eq!(shown.length, 264);
    assert_ne!(&shown.encoded[..256], shown.entropy);
    assert_eq!(
        SecretWord::new(8224, LANG::ENG).display().err(),
        Some(MnemonicError::ChecksumTooLong)
    );
}

#[test]
fn secret_word_serves_english_and_japanese_only() {
    let mut tables = WordTables::new();
    tables.register(LANG::ENG, table());
    tables.register(LANG::FR, table());
    assert_eq!(SecretWord::new(128, LANG::ENG).load_wordlist(&tables), Ok(table()));
    assert_eq!(
        SecretWord::new(128, LANG::FR).load_wordlist(&tables),
        Err(MnemonicError::UnsupportedLanguage)
    );
    assert_eq!(
        SecretWord::new(128, LANG::JP).load_wordlist(&tables),
        Err(MnemonicError::UnsupportedLanguage)
    );
}
