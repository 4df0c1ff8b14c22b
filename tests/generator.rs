use std::collections::HashSet;

use bruteforce::generator::{ConfigurationError, StringGenerator};

fn text(generator: &StringGenerator) -> String {
    String::from_utf8(generator.value().to_vec()).unwrap()
}

fn all_strings(generator: &mut StringGenerator) -> Vec<String> {
    let mut out = Vec::new();
    while generator.advance() {
        out.push(text(generator));
    }
    out
}

#[test]
fn string_iterator() {
    let mut generator = StringGenerator::new(b"abc", 1, 3).unwrap();

    let expected = vec![
        "a", "b", "c", "aa", "ab", "ac", "ba", "bb", "bc", "ca", "cb", "cc", "aaa", "aab",
        "aac", "aba", "abb", "abc", "aca", "acb", "acc", "baa", "bab", "bac", "bba", "bbb",
        "bbc", "bca", "bcb", "bcc", "caa", "cab", "cac", "cba", "cbb", "cbc", "cca", "ccb",
        "ccc",
    ];

    let result = (0..39)
        .map(|_| {
            assert!(generator.advance());
            text(&generator)
        })
        .collect::<Vec<_>>();

    assert_eq!(result, expected);
    assert_eq!(generator.value(), b"ccc");
    assert_eq!(generator.indexes(), &[2, 2, 2]);
    assert!(!generator.advance());

    generator.reset();

    assert_eq!(generator.value(), b"a");
    assert_eq!(generator.indexes(), &[0]);
}

#[test]
fn exhausted_generator_stays_exhausted() {
    let mut generator = StringGenerator::new(b"abc", 1, 2).unwrap();
    assert_eq!(all_strings(&mut generator).len(), 12);
    assert!(!generator.advance());
    assert!(!generator.advance());
    assert_eq!(generator.value(), b"cc");
    assert_eq!(generator.indexes(), &[2, 2]);
}

#[test]
fn first_call_hands_out_the_initial_string() {
    let mut generator = StringGenerator::new(b"xyz", 2, 2).unwrap();
    assert_eq!(generator.value(), b"xy");
    assert!(generator.advance());
    assert_eq!(generator.value(), b"xy");
    assert!(generator.advance());
    assert_eq!(generator.value(), b"xz");
}

#[test]
fn start_is_first_min_length_characters() {
    let mut generator = StringGenerator::new(b"abc", 2, 3).unwrap();
    let strings = all_strings(&mut generator);
    assert_eq!(&strings[..4], &["ab", "ac", "ba", "bb"]);
    assert_eq!(strings.len(), 8 + 27);
    assert_eq!(strings.last().unwrap(), "ccc");
}

#[test]
fn alphabet_shorter_than_min_length() {
    let mut generator = StringGenerator::new(b"ab", 3, 3).unwrap();
    assert_eq!(generator.value(), b"ab");
    let strings = all_strings(&mut generator);
    assert_eq!(&strings[..4], &["ab", "ba", "bb", "aaa"]);
    assert_eq!(strings.len(), 3 + 8);
}

#[test]
fn count_matches_sum_of_powers() {
    let mut generator = StringGenerator::new(b"wxyz", 1, 4).unwrap();
    let strings = all_strings(&mut generator);
    assert_eq!(strings.len(), 4 + 16 + 64 + 256);
    let distinct: HashSet<&String> = strings.iter().collect();
    assert_eq!(distinct.len(), strings.len());
    for pair in strings.windows(2) {
        assert!(pair[0].len() < pair[1].len() || (pair[0].len() == pair[1].len() && pair[0] < pair[1]));
    }
}

#[test]
fn single_character_alphabet() {
    let mut generator = StringGenerator::new(b"q", 1, 3).unwrap();
    assert_eq!(all_strings(&mut generator), vec!["q", "qq", "qqq"]);
}

#[test]
fn reset_is_idempotent_and_forgets_progress() {
    let mut generator = StringGenerator::new(b"abc", 2, 3).unwrap();
    for _ in 0..4 {
        assert!(generator.advance());
    }
    assert_eq!(generator.value(), b"bb");
    generator.reset();
    assert_eq!(generator.value(), b"ab");
    assert_eq!(generator.indexes(), &[0, 1]);
    generator.reset();
    assert_eq!(generator.value(), b"ab");
    assert_eq!(generator.indexes(), &[0, 1]);
    let again = all_strings(&mut generator);
    assert_eq!(again.len(), 35);
    assert_eq!(again[0], "ab");
}

#[test]
fn reset_after_exhaustion_restarts() {
    let mut generator = StringGenerator::new(b"ab", 1, 2).unwrap();
    let first = all_strings(&mut generator);
    generator.reset();
    let second = all_strings(&mut generator);
    assert_eq!(first, second);
    assert_eq!(first, vec!["a", "b", "aa", "ab", "ba", "bb"]);
}

#[test]
fn empty_alphabet_is_rejected() {
    assert_eq!(
        StringGenerator::new(b"", 1, 3).err(),
        Some(ConfigurationError::EmptyAlphabet)
    );
}

#[test]
fn inverted_bounds_are_rejected() {
    assert_eq!(
        StringGenerator::new(b"abc", 4, 3).err(),
        Some(ConfigurationError::MinExceedsMax)
    );
    assert_eq!(
        StringGenerator::new(b"", 4, 3).err(),
        Some(ConfigurationError::MinExceedsMax)
    );
}
