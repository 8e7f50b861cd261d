use wordsets::bit_word::BitWord;
use wordsets::solution::{alphabet, dedup_sets, masks, same_words, ConfigError};

fn set(raw: &[u32]) -> Vec<BitWord> {
    raw.iter().map(|m| BitWord(*m)).collect()
}

#[test]
fn the_alphabet_is_the_latin_one() {
    assert_eq!(alphabet(), "ABCDEFGHIJKLMNOPQRSTUVWXYZ");
    assert_eq!(alphabet().len(), 26);
}

#[test]
fn masks_are_the_raw_words() {
    assert_eq!(masks(&set(&[3, 1, 2])), vec![3, 1, 2]);
    assert!(masks(&Vec::new()).is_empty());
}

#[test]
fn same_words_compares_place_by_place() {
    assert!(same_words(&set(&[1, 2]), &set(&[1, 2])));
    assert!(!same_words(&set(&[1, 2]), &set(&[2, 1])));
    assert!(!same_words(&set(&[1, 2]), &set(&[1])));
    assert!(same_words(&Vec::new(), &Vec::new()));
}

#[test]
fn dedup_sets_takes_each_group_once() {
    let sets = vec![set(&[1, 2]), set(&[1, 2]), set(&[1, 4]), set(&[2, 4]), set(&[2, 4])];
    assert_eq!(dedup_sets(&sets), vec![set(&[1, 2]), set(&[1, 4]), set(&[2, 4])]);
    assert!(dedup_sets(&Vec::new()).is_empty());
}

#[test]
fn the_config_error_compares_and_prints() {
    let e = ConfigError::AlphabetTooSmall;
    assert_eq!(e, e.clone());
    assert_eq!(format!("{:?}", e), "AlphabetTooSmall");
}
