use bruteforce::bruteforce::{Bruteforce, Step};
use bruteforce::generator::{ConfigurationError, StringGenerator};

fn sequence(chars: &[u8], min_length: usize, max_length: usize) -> Vec<Vec<u8>> {
    let mut generator = StringGenerator::new(chars, min_length, max_length).unwrap();
    let mut out = Vec::new();
    while generator.advance() {
        out.push(generator.value().to_vec());
    }
    out
}

fn run(search: &mut Bruteforce, hash: i32) -> (Vec<(Vec<u8>, Vec<u8>)>, Vec<(Vec<u8>, Vec<u8>)>) {
    let mut checked = Vec::new();
    let mut matches = Vec::new();
    loop {
        let step = search.step(hash);
        if step == Step::Exhausted {
            break;
        }
        let pair = search.credentials();
        let pair = (pair.username.to_vec(), pair.password.to_vec());
        if step == Step::Match {
            matches.push(pair.clone());
        }
        checked.push(pair);
    }
    (checked, matches)
}

#[test]
fn every_pair_checked_once_in_nested_order() {
    let mut search = Bruteforce::new(b"ab", 1, 2).unwrap();
    let (checked, _) = run(&mut search, 0);
    let axis = sequence(b"ab", 1, 2);
    let mut expected = Vec::new();
    for username in &axis {
        for password in &axis {
            expected.push((username.clone(), password.clone()));
        }
    }
    assert_eq!(checked.len(), 36);
    assert_eq!(checked, expected);
    assert_eq!(search.step(0), Step::Exhausted);
}

#[test]
fn cross_product_with_longer_minimum() {
    let mut search = Bruteforce::new(b"abc", 2, 3).unwrap();
    let (checked, _) = run(&mut search, 0);
    let axis = sequence(b"abc", 2, 3);
    assert_eq!(checked.len(), axis.len() * axis.len());
    assert_eq!(checked[0], (b"ab".to_vec(), b"ab".to_vec()));
    assert_eq!(checked[axis.len()], (b"ac".to_vec(), b"ab".to_vec()));
    assert_eq!(checked.last().unwrap(), &(b"ccc".to_vec(), b"ccc".to_vec()));
}

#[test]
fn match_is_reported_and_search_goes_on() {
    let hash = -1608160232;
    let mut search = Bruteforce::new(b"abfor", 3, 3).unwrap();
    let (checked, matches) = run(&mut search, hash);
    assert_eq!(matches, vec![(b"foo".to_vec(), b"bar".to_vec())]);
    assert_eq!(checked.len(), 118 * 118);
}

#[test]
fn end_to_end_small_alphabet() {
    let mut search = Bruteforce::new(b"hky4", 1, 4).unwrap();
    let (checked, matches) = run(&mut search, 1315459805);
    assert_eq!(checked.len(), 340 * 340);
    assert_eq!(matches, vec![(b"4hyk".to_vec(), b"4yk".to_vec())]);
    assert_eq!(search.step(1315459805), Step::Exhausted);
}

#[test]
fn end_to_end_full_alphabet_start() {
    let chars = b"abcdefghijklmnopqrstuvwxyz0123456789";
    let mut search = Bruteforce::new(chars, 1, 6).unwrap();
    assert_eq!(search.step(1315459805), Step::Miss);
    let pair = search.credentials();
    assert_eq!((pair.username, pair.password), (&b"a"[..], &b"a"[..]));
    assert_eq!(search.step(1315459805), Step::Miss);
    let pair = search.credentials();
    assert_eq!((pair.username, pair.password), (&b"a"[..], &b"b"[..]));
}

#[test]
fn search_configuration_errors() {
    assert_eq!(Bruteforce::new(b"", 1, 2).err(), Some(ConfigurationError::EmptyAlphabet));
    assert_eq!(Bruteforce::new(b"ab", 3, 2).err(), Some(ConfigurationError::MinExceedsMax));
}
