use rand::RngExt;
use std::collections::HashMap;
use std::hash::Hash;

use substitution::encrypt;
use substitution::filter_input;
use substitution::key::english_freq_order;
use substitution::key::Key;
use substitution::unique_chars;
use substitution::START;

#[test]
fn filter_input_keeps_ascii_alphabetic_and_whitespace() {
    assert_eq!(
        filter_input("hello, world! \u{1F60A}".as_bytes()),
        b"hello world ".to_vec()
    );
}

#[test]
fn filter_input_transforms_to_lowercase() {
    assert_eq!(
        filter_input("Hello WORLD".as_bytes()),
        b"hello world".to_vec()
    );
}

#[test]
fn filter_input_maps_dashes_to_spaces() {
    assert_eq!(filter_input("well-known".as_bytes()), b"well known".to_vec());
}

#[test]
fn unique_chars_in_order_of_first_appearance() {
    assert_eq!(unique_chars(b"abcabd e"), b"abcde".to_vec());
}

#[test]
fn encrypt_output_expected_lenght() {
    let input: String = "Moikka tiraprojekti!".into();
    let out = encrypt(input.as_bytes());
    assert_eq!(out.len(), input.len() - 1);
}

#[test]
fn encrypt_permutes_letters() {
    // a run of text long enough that the identity permutation is, for all
    // practical purposes, never drawn
    let input = "the quick brown fox jumps over the lazy dog".repeat(3);
    let out = encrypt(input.as_bytes());
    assert_ne!(out, filter_input(input.as_bytes()));
    assert_eq!(out.len(), filter_input(input.as_bytes()).len());
}

/// Counts how many times each possible value occurs in `of`.
fn stats<'a, T: Eq + Hash>(stats: &mut HashMap<&'a T, usize>, of: impl Iterator<Item = &'a T>) {
    for c in of {
        *stats.entry(c).or_insert(0) += 1;
    }
}

/// Computes frequency profiles for both input and encrypted output, asserts
/// that they match.
fn assert_encrypt_expected_frequencies(input: String) {
    let mut input_freqs = HashMap::new();
    let mut output_freqs = HashMap::new();

    // Count stats about the input string
    let filtered_input = filter_input(input.as_bytes());
    stats(&mut input_freqs, filtered_input.iter());

    // Encrypt the input
    let out = encrypt(input.as_bytes());

    // Count stats about the output string
    stats(&mut output_freqs, out.iter());

    // Count stats about input and output frequencies
    let mut input_stats = HashMap::new();
    let mut output_stats = HashMap::new();
    stats(&mut input_stats, input_freqs.values());
    stats(&mut output_stats, output_freqs.values());

    // Assert that character frequency profiles match
    assert_eq!(input_stats, output_stats);
}

#[test]
fn encrypt_frequencies_simple() {
    assert_encrypt_expected_frequencies("Moikka tiraprojekti!".into());
    assert_encrypt_expected_frequencies("Hello World!".into());
    assert_encrypt_expected_frequencies("Returns a reference to the value corresponding to the key. The key may be any borrowed form of the map\u{2019}s key type, but Hash and Eq on the borrowed form must match those for the key type.".into());
    assert_encrypt_expected_frequencies("Inserts a key-value pair into the map. If the map did not have this key present, None is returned. If the map did have this key present, the value is updated, and the old value is returned. The key is not updated, though; this matters for types that can be == without being identical. See the module-level documentation for more.".into());
}

#[test]
fn encrypt_frequencies_random() {
    let input: Vec<u8> = (0..100000)
        .map(|_| rand::rng().random_range(b' '..=b'~'))
        .collect();
    assert_encrypt_expected_frequencies(String::from_utf8(input).unwrap());
}

#[test]
fn key_input_frequency_order() {
    let input = filter_input("aaaaa bbvvvbb oo e".as_bytes());
    let key = Key::new(input.as_slice(), english_freq_order());

    assert_eq!(key.input_rank_of(b'a'), 0);
    assert_eq!(key.input_rank_of(b'b'), 1);
    assert_eq!(key.input_rank_of(b'v'), 2);
    assert_eq!(key.input_rank_of(b'o'), 3);
    assert_eq!(key.input_rank_of(b'e'), 4);
}

#[test]
fn key_next_in_freq_order_covers_all_for_all() {
    for start_from in b'a'..=b'z' {
        let mut values_got = [0; 26];
        let mut current = start_from;
        let dummy = Key::new(b"", english_freq_order());
        while {
            println!("Got '{}'", char::from(current));
            values_got[usize::from(current - START)] += 1;
            current = dummy.next_in_freq_order(start_from, current);
            current != 0
        } {}
        assert_eq!(values_got, [1; 26]);
    }
}

fn assert_key_next_in_freq_order(start: u8, expected: &[u8]) {
    let mut current = start;
    let dummy = Key::new(b"", english_freq_order());
    for chr in expected {
        match dummy.next_in_freq_order(start, current) {
            0 => {
                assert_eq!(*chr, 0);
            }
            val => {
                current = val;
                println!("{} == {}", char::from(current), char::from(*chr));
                assert_eq!(current, *chr);
            }
        }
    }
}

#[test]
fn key_next_in_freq_order_looks_correct() {
    assert_key_next_in_freq_order(b'a', b"toen");
    assert_key_next_in_freq_order(b'o', b"antiehsrd");
    assert_key_next_in_freq_order(b'b', b"pkyvgjfxcqmzwuldrshinoate\0");
}
