use wordsets::bit_word::BitWord;
use wordsets::gigo::{find_from, find_set, find_set_par, solve};
use wordsets::solution::ConfigError;

fn lines(words: &[&str]) -> Vec<String> {
    words.iter().map(|w| w.to_string()).collect()
}

fn word(s: &str) -> BitWord {
    BitWord::encode(&s.to_string(), &"ABCDEFGHIJKLMNOPQRSTUVWXYZ".to_string())
}

fn group(words: &[&str]) -> Vec<BitWord> {
    let mut set: Vec<BitWord> = words.iter().map(|w| word(w)).collect();
    set.sort();
    set
}

#[test]
fn five_disjoint_words_make_one_solution() {
    let dictionary = lines(&["abcde", "fghij", "klmno", "pqrst", "uvwxy"]);
    let found = solve(&dictionary, 5, 5).unwrap();
    assert_eq!(found, vec![group(&["abcde", "fghij", "klmno", "pqrst", "uvwxy"])]);
}

#[test]
fn a_duplicate_spelling_is_one_word() {
    let dictionary = lines(&["abcde", "abcde"]);
    assert_eq!(solve(&dictionary, 5, 2).unwrap(), Vec::<Vec<BitWord>>::new());
    assert_eq!(solve(&dictionary, 5, 1).unwrap(), vec![group(&["abcde"])]);
}

#[test]
fn anagrams_are_one_word() {
    let dictionary = lines(&["abcde", "edcba", "fghij"]);
    assert_eq!(solve(&dictionary, 5, 2).unwrap(), vec![group(&["abcde", "fghij"])]);
}

#[test]
fn a_word_with_a_repeated_letter_is_left_out() {
    let dictionary = lines(&["abcda", "fghij"]);
    assert_eq!(solve(&dictionary, 5, 2).unwrap(), Vec::<Vec<BitWord>>::new());
    assert_eq!(solve(&dictionary, 5, 1).unwrap(), vec![group(&["fghij"])]);
}

#[test]
fn too_many_letters_is_a_config_error() {
    let dictionary = lines(&["abcde", "fghij", "klmno", "pqrst", "uvwxy"]);
    assert_eq!(solve(&dictionary, 5, 6), Err(ConfigError::AlphabetTooSmall));
    assert_eq!(solve(&dictionary, 27, 1), Err(ConfigError::AlphabetTooSmall));
    assert_eq!(solve(&dictionary, 3, 9), Err(ConfigError::AlphabetTooSmall));
    assert_eq!(solve(&dictionary, u32::MAX, u32::MAX), Err(ConfigError::AlphabetTooSmall));
    assert_eq!(solve(&dictionary, 0x1_0000, 0x1_0000), Err(ConfigError::AlphabetTooSmall));
}

#[test]
fn the_whole_alphabet_is_allowed() {
    let dictionary = lines(&["abcdefghijklm", "nopqrstuvwxyz", "abcdefghijklz"]);
    let found = solve(&dictionary, 13, 2).unwrap();
    assert_eq!(found, vec![group(&["abcdefghijklm", "nopqrstuvwxyz"])]);
    assert!(solve(&dictionary, 26, 1).unwrap().is_empty());
    assert!(solve(&dictionary, 2, 13).unwrap().is_empty());
}

#[test]
fn no_solution_is_an_empty_result() {
    assert!(solve(&Vec::new(), 5, 5).unwrap().is_empty());
    assert!(solve(&lines(&["abcde", "efghi"]), 5, 2).unwrap().is_empty());
    assert!(solve(&lines(&["abcde"]), 5, 5).unwrap().is_empty());
}

#[test]
fn lines_of_another_length_or_with_other_characters_are_skipped() {
    let dictionary = lines(&["abcd", "abcdef", "ab-de", "ab de", "abçde", "fghij", "KLMNO", ""]);
    let found = solve(&dictionary, 5, 2).unwrap();
    assert_eq!(found, vec![group(&["fghij", "klmno"])]);
}

#[test]
fn every_solution_is_found_when_letters_are_left_over() {
    // three letters each, two words: twenty letters stay unused
    let dictionary = lines(&["abc", "def", "ghi", "adg", "xyz"]);
    let found = solve(&dictionary, 3, 2).unwrap();
    let mut expected = vec![
        group(&["abc", "def"]),
        group(&["abc", "ghi"]),
        group(&["abc", "xyz"]),
        group(&["def", "ghi"]),
        group(&["def", "xyz"]),
        group(&["ghi", "xyz"]),
        group(&["adg", "xyz"]),
    ];
    expected.sort();
    assert_eq!(found, expected);
}

#[test]
fn solutions_with_two_seeds_come_once() {
    // q and z are the rarest letters; the one solution holds both seeds
    let dictionary = lines(&[
        "abcdq", "efghz", "ijklm", "noprs", "tuvwx", "ijkln", "tuvwy", "abcde",
    ]);
    let found = solve(&dictionary, 5, 5).unwrap();
    let mut expected = vec![
        group(&["abcdq", "efghz", "ijklm", "noprs", "tuvwx"]),
        group(&["abcdq", "efghz", "ijklm", "noprs", "tuvwy"]),
    ];
    expected.sort();
    assert_eq!(found, expected);
}

#[test]
fn solutions_have_the_right_shape() {
    let dictionary = lines(&[
        "abcde", "fghij", "klmno", "pqrst", "uvwxy", "uvwxz", "pqrsu", "klmnp", "vwxyz", "fghik",
    ]);
    let found = solve(&dictionary, 5, 5).unwrap();
    assert!(!found.is_empty());
    for set in &found {
        assert_eq!(set.len(), 5);
        let mut all = BitWord(0);
        for (i, a) in set.iter().enumerate() {
            for b in &set[i + 1..] {
                assert!(a.intersect(b).empty());
                assert!(a < b);
            }
            all = all.merge(a);
        }
        assert_eq!(all.count(), 25);
    }
    for pair in found.windows(2) {
        assert!(pair[0] < pair[1]);
    }
}

#[test]
fn the_same_input_gives_the_same_result() {
    let dictionary = lines(&[
        "abcde", "fghij", "klmno", "pqrst", "uvwxy", "uvwxz", "pqrsu", "klmnp", "vwxyz", "fghik",
    ]);
    let first = solve(&dictionary, 5, 5).unwrap();
    let second = solve(&dictionary, 5, 5).unwrap();
    assert_eq!(first, second);
    let mut reversed = dictionary.clone();
    reversed.reverse();
    assert_eq!(solve(&reversed, 5, 5).unwrap(), first);
}

#[test]
fn a_group_of_no_words_is_the_one_solution_for_count_zero() {
    assert_eq!(solve(&lines(&["abcde"]), 5, 0).unwrap(), vec![Vec::<BitWord>::new()]);
    assert_eq!(solve(&Vec::new(), 0, 0).unwrap(), vec![Vec::<BitWord>::new()]);
}

#[test]
fn words_of_no_letters() {
    assert_eq!(solve(&lines(&["", "a"]), 0, 1).unwrap(), vec![vec![BitWord(0)]]);
    assert!(solve(&lines(&["", ""]), 0, 2).unwrap().is_empty());
    assert!(solve(&lines(&["a"]), 0, 1).unwrap().is_empty());
}

#[test]
fn single_words_are_solutions_for_count_one() {
    let found = solve(&lines(&["cab", "abd", "bca", "aab"]), 3, 1).unwrap();
    assert_eq!(found, vec![vec![word("abc")], vec![word("abd")]]);
}

#[test]
fn find_set_extends_in_list_order() {
    let words = vec![word("ab"), word("cd"), word("ef"), word("ac")];
    let mut set = Vec::new();
    let found = find_set(&words, 0, BitWord(0), &mut set, 2);
    assert_eq!(
        found,
        vec![
            group(&["ab", "cd"]),
            group(&["ab", "ef"]),
            group(&["cd", "ef"]),
            group(&["ef", "ac"]),
        ]
    );
    assert!(set.is_empty());
}

#[test]
fn find_set_skips_words_before_the_start() {
    let words = vec![word("ab"), word("cd"), word("ef")];
    let mut set = Vec::new();
    assert_eq!(find_set(&words, 1, BitWord(0), &mut set, 2), vec![group(&["cd", "ef"])]);
    assert!(find_set(&words, 3, BitWord(0), &mut set, 2).is_empty());
    assert!(find_set(&words, 9, BitWord(0), &mut set, 2).is_empty());
}

#[test]
fn find_set_avoids_used_letters_and_keeps_the_chosen_words() {
    let words = vec![word("ab"), word("cd"), word("ef"), word("gh")];
    let mut set = vec![word("xy")];
    let found = find_set(&words, 0, word("xyc"), &mut set, 3);
    assert_eq!(
        found,
        vec![group(&["xy", "ab", "ef"]), group(&["xy", "ab", "gh"]), group(&["xy", "ef", "gh"])]
    );
    assert_eq!(set, vec![word("xy")]);
}

#[test]
fn find_set_finds_nothing_for_a_group_that_is_full() {
    let words = vec![word("ab"), word("cd")];
    let mut set = vec![word("xy")];
    assert!(find_set(&words, 0, word("xy"), &mut set, 1).is_empty());
    assert!(find_set(&words, 0, word("xy"), &mut set, 0).is_empty());
}

#[test]
fn find_from_starts_with_the_seed() {
    let words = vec![word("ab"), word("cd"), word("ef")];
    let seeds = vec![word("cd")];
    assert_eq!(
        find_from(&words, &seeds, 0, 2),
        vec![group(&["cd", "ab"]), group(&["cd", "ef"])]
    );
}

#[test]
fn find_set_par_goes_seed_by_seed() {
    let words = vec![word("ab"), word("cd"), word("ef")];
    let seeds = vec![word("ab"), word("cd")];
    assert_eq!(
        find_set_par(&seeds, &words, 2),
        vec![
            group(&["ab", "cd"]),
            group(&["ab", "ef"]),
            group(&["ab", "cd"]),
            group(&["cd", "ef"]),
        ]
    );
    assert!(find_set_par(&Vec::new(), &words, 2).is_empty());
}
