use wordsets::bit_word::BitWord;
use wordsets::bored_person::{
    all_pairs, combine, completions, pairs_from, rare_words, search_at, search_pair, search_pairs,
    solve, with_seed, words_in_pair, WORD_COUNT, WORD_LENGTH,
};
use wordsets::lookup::WordSet;

fn latin() -> String {
    "ABCDEFGHIJKLMNOPQRSTUVWXYZ".to_string()
}

fn lines(words: &[&str]) -> Vec<String> {
    words.iter().map(|w| w.to_string()).collect()
}

fn word(s: &str) -> BitWord {
    BitWord::encode(&s.to_string(), &latin())
}

fn sorted(words: &[&str]) -> Vec<BitWord> {
    let mut set: Vec<BitWord> = words.iter().map(|w| word(w)).collect();
    set.sort();
    set.dedup();
    set
}

const TEN: [&str; 10] = [
    "abcde", "fghij", "klmno", "pqrst", "uvwxy", "uvwxz", "pqrsu", "klmnp", "vwxyz", "fghik",
];

#[test]
fn pair_search_constants() {
    assert_eq!(WORD_LENGTH, 5);
    assert_eq!(WORD_COUNT, 5);
}

#[test]
fn pair_search_finds_the_one_solution() {
    let dictionary = lines(&["abcde", "fghij", "klmno", "pqrst", "uvwxy"]);
    assert_eq!(solve(&dictionary), vec![sorted(&["abcde", "fghij", "klmno", "pqrst", "uvwxy"])]);
}

#[test]
fn pair_search_takes_duplicates_and_anagrams_as_one_word() {
    assert!(solve(&lines(&["abcde", "abcde"])).is_empty());
    let dictionary = lines(&["abcde", "edcba", "fghij", "klmno", "pqrst", "uvwxy", "yxwvu"]);
    assert_eq!(solve(&dictionary), vec![sorted(&["abcde", "fghij", "klmno", "pqrst", "uvwxy"])]);
}

#[test]
fn pair_search_leaves_out_repeated_letters_and_other_lines() {
    let dictionary = lines(&[
        "abcda", "fghij", "klmno", "pqrst", "uvwxy", "abcd", "abcdef", "ab-de", "",
    ]);
    assert!(solve(&dictionary).is_empty());
    assert!(solve(&Vec::new()).is_empty());
}

#[test]
fn pair_search_agrees_with_the_search_by_rare_letters() {
    let dictionary = lines(&TEN);
    let by_pairs = solve(&dictionary);
    let by_letters = wordsets::gigo::solve(&dictionary, 5, 5).unwrap();
    assert_eq!(by_pairs, by_letters);
    assert_eq!(by_pairs.len(), 4);
    assert_eq!(by_pairs[0].len(), 5);
}

#[test]
fn pair_search_gives_each_solution_once_and_in_order() {
    let mut dictionary = lines(&TEN);
    dictionary.extend(lines(&["abcdf", "eghij", "bcdef", "aghij"]));
    let found = solve(&dictionary);
    assert!(found.len() > 2);
    for pair in found.windows(2) {
        assert!(pair[0] < pair[1]);
    }
    for set in &found {
        let mut all = BitWord(0);
        for w in set {
            assert!(!all.has_overlap(w));
            all = all.merge(w);
        }
        assert_eq!(all.count(), 25);
        assert_eq!(set.len(), 5);
    }
    assert_eq!(found, solve(&dictionary));
    assert_eq!(found, wordsets::gigo::solve(&dictionary, 5, 5).unwrap());
}

#[test]
fn pairs_from_joins_with_later_disjoint_words() {
    let words = sorted(&["abcde", "fghij", "klmno", "efghi"]);
    let at = words.iter().position(|w| *w == word("abcde")).unwrap();
    let found = pairs_from(&words, at);
    for p in &found {
        assert_eq!(p.count(), 10);
    }
    assert!(found.contains(&word("abcdefghij")));
    assert!(found.contains(&word("abcdeklmno")));
    assert!(!found.contains(&word("abcdefghi")));
}

#[test]
fn all_pairs_are_the_disjoint_unions() {
    let words = sorted(&["abcde", "fghij", "klmno", "efghi"]);
    let mut expected = vec![
        word("abcdefghij"),
        word("abcdeklmno"),
        word("fghijklmno"),
        word("efghiklmno"),
    ];
    expected.sort();
    assert_eq!(all_pairs(&words), expected);
    assert!(all_pairs(&Vec::new()).is_empty());
}

#[test]
fn all_pairs_joins_equal_unions() {
    // abcde|fghij and abcdf|eghij are the same ten letters
    let words = sorted(&["abcde", "fghij", "abcdf", "eghij"]);
    assert_eq!(all_pairs(&words), vec![word("abcdefghij")]);
}

#[test]
fn rare_words_joins_two_buckets() {
    let buckets = vec![
        vec![word("abcde"), word("axyzw")],
        vec![word("bfghi"), word("abcde")],
        vec![word("cklmn")],
    ];
    let mut expected = vec![word("abcde"), word("axyzw"), word("bfghi")];
    expected.sort();
    assert_eq!(rare_words(&buckets, 0, 1), expected);
    assert_eq!(rare_words(&buckets, 2, 2), vec![word("cklmn")]);
}

#[test]
fn words_in_pair_gives_every_split_both_ways() {
    let words = sorted(&["abcde", "fghij", "abcdf", "eghij", "klmno"]);
    let set = WordSet::new(&words);
    let mut halves = words_in_pair(word("abcdefghij"), &words, &set);
    halves.sort();
    let mut expected = vec![
        (word("abcde"), word("fghij")),
        (word("fghij"), word("abcde")),
        (word("abcdf"), word("eghij")),
        (word("eghij"), word("abcdf")),
    ];
    expected.sort();
    assert_eq!(halves, expected);
    assert!(words_in_pair(word("abcdeklmnp"), &words, &set).is_empty());
}

#[test]
fn completions_are_the_pairs_in_the_letters_left() {
    let words = sorted(&["klmno", "pqrst", "uvwxy", "uvwxz", "abcde", "fghij"]);
    let pairs = all_pairs(&words);
    let pair_set = WordSet::new(&pairs);
    let mut found = completions(word("abcde"), word("fghijklmno"), &pair_set, &latin());
    found.sort();
    let mut expected = vec![word("pqrstuvwxy"), word("pqrstuvwxz")];
    expected.sort();
    assert_eq!(found, expected);
}

#[test]
fn combine_makes_a_group_of_each_choice_of_splits() {
    let halves = vec![(word("fghij"), word("klmno")), (word("klmno"), word("fghij"))];
    let others = vec![(word("pqrst"), word("uvwxy"))];
    let found = combine(word("abcde"), &halves, &others);
    let group = sorted(&["abcde", "fghij", "klmno", "pqrst", "uvwxy"]);
    assert_eq!(found, vec![group.clone(), group]);
    assert!(combine(word("abcde"), &Vec::new(), &others).is_empty());
}

#[test]
fn with_seed_and_search_pair_find_the_groups_of_a_pair() {
    let words = sorted(&TEN);
    let set = WordSet::new(&words);
    let pairs = all_pairs(&words);
    let pair_set = WordSet::new(&pairs);
    let p = word("fghijklmno");
    let halves = words_in_pair(p, &words, &set);
    let mut found = with_seed(word("abcde"), p, &halves, &words, &set, &pair_set, &latin());
    found.sort();
    found.dedup();
    let mut expected = vec![
        sorted(&["abcde", "fghij", "klmno", "pqrst", "uvwxy"]),
        sorted(&["abcde", "fghij", "klmno", "pqrst", "uvwxz"]),
        sorted(&["abcde", "fghij", "klmno", "pqrst", "vwxyz"]),
        sorted(&["abcde", "fghij", "klmno", "pqrsu", "vwxyz"]),
    ];
    expected.sort();
    assert_eq!(found, expected);

    let rare = vec![word("abcde"), word("fghij")];
    let mut by_pair = search_pair(p, &words, &set, &rare, &pair_set, &latin());
    by_pair.sort();
    by_pair.dedup();
    assert_eq!(by_pair, expected);

    let at = pairs.iter().position(|q| *q == p).unwrap();
    let mut by_place = search_at(&pairs, at, &words, &set, &rare, &pair_set, &latin());
    by_place.sort();
    by_place.dedup();
    assert_eq!(by_place, expected);

    let mut all = search_pairs(&pairs, &words, &set, &rare, &pair_set, &latin());
    all.sort();
    all.dedup();
    assert_eq!(all, expected);
}
