use mnemonic::codec::{decode, encode, DecodeError};
use mnemonic::dictionary::Dictionary;
use mnemonic::text::{decode_str, encode_to_string, join_words, split_words, trim_newline};

use rand::{Rng, RngCore};

/// A synthetic dictionary: the 2048 three-letter words "aaa", "aab", ...
/// in order, so the word at index `i` is the base-26 spelling of `i`.
fn make_dict() -> Dictionary {
    let mut words: Vec<String> = Vec::new();
    for i in 0..2048u32 {
        let a = b'a' + (i / 676) as u8;
        let b = b'a' + ((i / 26) % 26) as u8;
        let c = b'a' + (i % 26) as u8;
        words.push(String::from_utf8(vec![a, b, c]).unwrap());
    }
    Dictionary::new(words).expect("the synthetic word table is a valid dictionary")
}

fn impl_encode_decode_soft(dict: &Dictionary, original: &[u8]) -> bool {
    let bytes: Vec<u8> = original.to_vec();
    let line = encode_to_string(dict, &bytes);
    let result = match decode_str(dict, &line) {
        Ok(buf) => buf,
        Err(e) => {
            println!("decode failed on {:x?}: {:?}", original, e);
            return false;
        }
    };
    if original == result.as_slice() {
        true
    } else {
        println!(
            "   {:x?} ({})\n!= {:x?}\n",
            original,
            original.len(),
            result.as_slice()
        );
        false
    }
}

fn impl_encode_decode(dict: &Dictionary, original: &[u8]) {
    assert!(
        impl_encode_decode_soft(dict, original),
        "len {}",
        original.len()
    );
}

#[test]
fn naive_encoding_with_decoding_produces_original_sequence_of_bytes() {
    let dict = make_dict();
    let original = rand::thread_rng().gen::<[u8; 11]>();
    impl_encode_decode(&dict, &original[..]);
}

#[test]
fn decoding_produces_original_sequence_for_small_inputs() {
    let dict = make_dict();
    let data = [
        0xaa, 0xab, 0xac, 0xad, 0xaf, 0xba, 0xbb, 0xbc, 0xbd, 0xbf,
    ];

    let mut failures = 0;
    for i in 1..=10 {
        if !impl_encode_decode_soft(&dict, &data[..i]) {
            failures += 1;
        }
    }
    assert_eq!(failures, 0);
}

#[test]
fn decoding_produces_original_sequence_for_block_even_inputs() {
    const MAX_MUL: usize = 10;
    let dict = make_dict();
    let mut data = vec![0; 11 * MAX_MUL];
    rand::thread_rng().fill_bytes(&mut data);

    let mut failures = 0;
    for m in 1..=MAX_MUL {
        if !impl_encode_decode_soft(&dict, &data[..11 * m]) {
            failures += 1;
        }
    }
    assert_eq!(failures, 0);
}

#[test]
fn decoding_produces_original_sequence_for_block_odd_inputs() {
    const START: usize = 12;
    const END: usize = START * 3;
    let dict = make_dict();
    let mut data = vec![0; END];
    rand::thread_rng().fill_bytes(&mut data);

    let mut failures = 0;
    for i in START..=END {
        if !impl_encode_decode_soft(&dict, &data[..i]) {
            failures += 1;
        }
    }
    assert_eq!(failures, 0);
}

#[test]
fn decoding_produces_original_sequence_for_random_input() {
    const MAX_DATA_LEN: usize = 128;
    const TEST_PASSES: u32 = 25;

    let dict = make_dict();
    for pass in 0..TEST_PASSES {
        let data_len = rand::thread_rng().gen_range(1..MAX_DATA_LEN);
        let mut original = vec![0; data_len];
        rand::thread_rng().fill_bytes(original.as_mut_slice());

        println!("pass {}: {:x?}", pass, original);
        impl_encode_decode(&dict, original.as_slice());
    }
}

#[test]
fn empty_input_encodes_to_the_empty_line_and_back() {
    let dict = make_dict();
    assert_eq!(encode_to_string(&dict, &Vec::new()), "");
    assert_eq!(decode_str(&dict, ""), Ok(Vec::new()));
}

#[test]
fn exact_fit_input_emits_no_marker() {
    let dict = make_dict();
    let bytes: Vec<u8> = (0u8..11).collect();
    let words = encode(&dict, &bytes);
    // 11 bytes are 88 bits: exactly eight 11-bit groups, no marker.
    assert_eq!(words.len(), 8);
    assert!(words.iter().all(|w| w != "of"));
    let line = join_words(&words);
    assert_eq!(decode_str(&dict, &line), Ok(bytes));
}

#[test]
fn off_boundary_input_emits_marker_and_padding_word() {
    let dict = make_dict();
    // One zero byte: one group of value 0, remainder 8, padding word at
    // index 8 ("aai").
    assert_eq!(encode_to_string(&dict, &vec![0x00]), "aaa-of-aai");
    assert_eq!(decode_str(&dict, "aaa-of-aai"), Ok(vec![0x00]));
    // 0xFF gives the group 0b11111111000 == 2040, spelled "dam".
    assert_eq!(encode_to_string(&dict, &vec![0xFF]), "dam-of-aai");
    assert_eq!(decode_str(&dict, "dam-of-aai"), Ok(vec![0xFF]));
}

#[test]
fn every_encoded_word_maps_back_to_a_value_below_2048() {
    let dict = make_dict();
    let bytes: Vec<u8> = vec![0x12, 0x34, 0x56, 0x78, 0x9a];
    let words = encode(&dict, &bytes);
    let marker = "of".to_string();
    for w in &words {
        if *w != marker {
            let index = dict.index_of(w).expect("an encoded word is in the dictionary");
            assert!(index < 2048);
        }
    }
}

#[test]
fn unknown_word_is_rejected() {
    let dict = make_dict();
    assert_eq!(decode_str(&dict, "hello"), Err(DecodeError::UnknownWord));
    // A single bad token among good ones still fails.
    assert_eq!(
        decode_str(&dict, "aaa-zzzz-aab"),
        Err(DecodeError::UnknownWord)
    );
    let words: Vec<String> = vec!["aaa".to_string(), "zzzz".to_string()];
    assert_eq!(decode(&dict, &words), Err(DecodeError::UnknownWord));
}

#[test]
fn misplaced_or_invalid_marker_is_rejected() {
    let dict = make_dict();
    // The marker alone does not stand immediately before a final word.
    assert_eq!(decode_str(&dict, "of"), Err(DecodeError::MalformedPadding));
    // The marker in the middle of the data words.
    assert_eq!(
        decode_str(&dict, "aaa-of-aab-aac"),
        Err(DecodeError::MalformedPadding)
    );
    // The marker followed by a word that is no designated padding word.
    assert_eq!(
        decode_str(&dict, "of-baa"),
        Err(DecodeError::MalformedPadding)
    );
    // Malformed padding is reported even when a data word is unknown too.
    assert_eq!(
        decode_str(&dict, "zzzz-of-aaa-aab"),
        Err(DecodeError::MalformedPadding)
    );
}

#[test]
fn split_words_follows_dash_separators() {
    let parts = split_words("aaa-bbb-ccc");
    assert_eq!(parts, vec!["aaa", "bbb", "ccc"]);
    let empty: Vec<String> = Vec::new();
    assert_eq!(split_words(""), empty);
    assert_eq!(split_words("-a-"), vec!["", "a", ""]);
}

#[test]
fn join_words_places_single_dashes() {
    let words: Vec<String> = vec!["aaa".to_string(), "bbb".to_string()];
    assert_eq!(join_words(&words), "aaa-bbb");
    assert_eq!(join_words(&Vec::new()), "");
    let one: Vec<String> = vec!["aaa".to_string()];
    assert_eq!(join_words(&one), "aaa");
}

#[test]
fn trim_newline_strips_one_trailing_line_break() {
    let mut s = "aaa-bbb\n".to_string();
    trim_newline(&mut s);
    assert_eq!(s, "aaa-bbb");

    let mut s = "aaa-bbb\r\n".to_string();
    trim_newline(&mut s);
    assert_eq!(s, "aaa-bbb");

    let mut s = "aaa-bbb".to_string();
    trim_newline(&mut s);
    assert_eq!(s, "aaa-bbb");

    let mut s = "aaa-bbb\r".to_string();
    trim_newline(&mut s);
    assert_eq!(s, "aaa-bbb\r");

    let mut s = "aaa-bbb\n\n".to_string();
    trim_newline(&mut s);
    assert_eq!(s, "aaa-bbb\n");
}

#[test]
fn dictionary_rejects_invalid_word_tables() {
    // Wrong size.
    assert!(Dictionary::new(vec!["aaa".to_string(); 3]).is_none());
    // A duplicate entry.
    let mut words: Vec<String> = Vec::new();
    for i in 0..2048u32 {
        let a = b'a' + (i / 676) as u8;
        let b = b'a' + ((i / 26) % 26) as u8;
        let c = b'a' + (i % 26) as u8;
        words.push(String::from_utf8(vec![a, b, c]).unwrap());
    }
    let mut dup = words.clone();
    dup[7] = dup[3].clone();
    assert!(Dictionary::new(dup).is_none());
    // An entry holding the separator dash.
    let mut dashed = words.clone();
    dashed[5] = "a-b".to_string();
    assert!(Dictionary::new(dashed).is_none());
    // An entry equal to the marker word.
    let mut marked = words.clone();
    marked[9] = "of".to_string();
    assert!(Dictionary::new(marked).is_none());
    // An empty entry.
    let mut empty = words.clone();
    empty[11] = String::new();
    assert!(Dictionary::new(empty).is_none());
    // The unchanged table is accepted.
    assert!(Dictionary::new(words).is_some());
}

#[test]
fn dictionary_lookups_invert_each_other() {
    let dict = make_dict();
    assert_eq!(dict.word_at(0), "aaa");
    assert_eq!(dict.word_at(2047), "dat");
    let w = dict.word_at(1234);
    assert_eq!(dict.index_of(&w), Some(1234));
    assert_eq!(dict.index_of(&"of".to_string()), None);
    assert_eq!(dict.index_of(&"zzzz".to_string()), None);
}
