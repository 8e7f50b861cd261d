use wordsets::bit_word::BitWord;
use wordsets::lookup::{WordIndex, WordSet};

fn cap() -> String {
    "ABCDEFGHIJKLMNOPQRSTUVWXYZ".to_string()
}

fn text(words: &[&str]) -> Vec<String> {
    words.iter().map(|w| w.to_string()).collect()
}

fn mask(s: &str) -> BitWord {
    BitWord::encode(&s.to_string(), &cap())
}

#[test]
fn word_set_holds_the_words_of_the_list() {
    let set = WordSet::new(&vec![mask("abc"), mask("xyz"), mask("abc")]);
    assert!(set.contains(&mask("abc")));
    assert!(set.contains(&mask("cba")));
    assert!(set.contains(&mask("xyz")));
    assert!(!set.contains(&mask("abd")));
    assert!(!set.contains(&BitWord(0)));
    assert!(!WordSet::new(&Vec::new()).contains(&BitWord(0)));
}

#[test]
fn word_index_keeps_the_last_spelling() {
    let lines = text(&["abcde", "fghij", "edcba", "abcda", "toolong", "ab-de"]);
    let index = WordIndex::new(&lines, &cap(), 5);
    assert_eq!(index.line(&mask("abcde")), Some(2));
    assert_eq!(index.line(&mask("fghij")), Some(1));
    assert_eq!(index.line(&mask("abcd")), None);
    assert_eq!(index.line(&mask("klmno")), None);
}

#[test]
fn word_index_spells_a_group() {
    let lines = text(&["abcde", "Fghij", "edcba"]);
    let index = WordIndex::new(&lines, &cap(), 5);
    let group = vec![mask("abcde"), mask("fghij")];
    assert_eq!(index.spell(&lines, &group), Some(text(&["edcba", "Fghij"])));
    assert_eq!(index.spell(&lines, &Vec::new()), Some(Vec::new()));
    assert_eq!(index.spell(&lines, &vec![mask("abcde"), mask("klmno")]), None);
}

#[test]
fn word_index_needs_the_lines_it_was_made_from() {
    let lines = text(&["abcde", "fghij"]);
    let index = WordIndex::new(&lines, &cap(), 5);
    let fewer = text(&["abcde"]);
    assert_eq!(index.spell(&fewer, &vec![mask("fghij")]), None);
    assert_eq!(index.spell(&fewer, &vec![mask("abcde")]), Some(text(&["abcde"])));
}
