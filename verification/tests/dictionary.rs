use wordsets::bit_word::BitWord;
use wordsets::dictionary::{collect_words, dedup, prepare, prepare_par, sorted_once};

fn abc() -> String {
    "ABCDEFGHIJKLMNOPQRSTUVWXYZ".to_string()
}

fn raw(words: &[&str]) -> Vec<String> {
    words.iter().map(|w| w.to_string()).collect()
}

fn enc(s: &str) -> BitWord {
    BitWord::encode(&s.to_string(), &abc())
}

#[test]
fn collect_words_keeps_the_order_of_the_lines() {
    let lines = raw(&["fghij", "abcde", "abcda", "edcba", "abcd", "abcdef", "ab1de"]);
    assert_eq!(collect_words(&lines, &abc(), 5), vec![enc("fghij"), enc("abcde"), enc("abcde")]);
}

#[test]
fn collect_words_counts_characters() {
    let lines = raw(&["abc", "ab", "äb", "abcd"]);
    assert_eq!(collect_words(&lines, &abc(), 3), vec![enc("abc")]);
    assert!(collect_words(&lines, &abc(), 0).is_empty());
    assert_eq!(collect_words(&raw(&["", "a"]), &abc(), 0), vec![BitWord(0)]);
}

#[test]
fn collect_words_reads_in_the_given_alphabet() {
    let lines = raw(&["cab", "abd"]);
    assert_eq!(collect_words(&lines, &"CBA".to_string(), 3), vec![BitWord(0b111)]);
}

#[test]
fn dedup_takes_each_word_once() {
    let words = vec![BitWord(1), BitWord(1), BitWord(4), BitWord(9), BitWord(9), BitWord(9)];
    assert_eq!(dedup(&words), vec![BitWord(1), BitWord(4), BitWord(9)]);
    assert!(dedup(&Vec::new()).is_empty());
    assert_eq!(dedup(&vec![BitWord(7)]), vec![BitWord(7)]);
}

#[test]
fn sorted_once_sorts_and_dedups_either_way() {
    let words = vec![BitWord(9), BitWord(1), BitWord(4), BitWord(1), BitWord(9)];
    let expected = vec![BitWord(1), BitWord(4), BitWord(9)];
    assert_eq!(sorted_once(words.clone(), false), expected);
    assert_eq!(sorted_once(words, true), expected);
}

#[test]
fn prepare_sorts_and_collapses_anagrams() {
    let lines = raw(&["vwxyz", "abcde", "edcba", "ABCDE", "fghij", "abcda"]);
    let mut expected = vec![enc("abcde"), enc("fghij"), enc("vwxyz")];
    expected.sort();
    assert_eq!(prepare(&lines, &abc(), 5), expected);
    assert_eq!(prepare_par(&lines, &abc(), 5), expected);
}

#[test]
fn prepare_of_a_duplicate_spelling_has_one_mask() {
    let lines = raw(&["abcde", "abcde"]);
    assert_eq!(prepare(&lines, &abc(), 5), vec![BitWord(0b11111)]);
}

#[test]
fn prepare_drops_a_word_with_a_repeated_letter() {
    let lines = raw(&["abcda"]);
    assert!(prepare(&lines, &abc(), 5).is_empty());
    assert_eq!(enc("abcda").count(), 3);
}

#[test]
fn prepare_of_many_words_is_sorted() {
    let mut lines = Vec::new();
    for a in 0..20u8 {
        for b in (a + 1)..21u8 {
            let word = [b'a' + a, b'a' + b, b'z'];
            lines.push(String::from_utf8(word.to_vec()).unwrap());
        }
    }
    lines.reverse();
    let words = prepare_par(&lines, &abc(), 3);
    assert_eq!(words.len(), 210);
    for pair in words.windows(2) {
        assert!(pair[0] < pair[1]);
    }
    assert_eq!(words, prepare(&lines, &abc(), 3));
}
