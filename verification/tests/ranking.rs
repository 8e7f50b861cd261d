use wordsets::bit_word::BitWord;
use wordsets::ranking::{bucket, by_rarity, rank_letters, rarest_letter};

fn w(s: &str) -> BitWord {
    BitWord::encode(&s.to_string(), &"ABCDEFGHIJKLMNOPQRSTUVWXYZ".to_string())
}

#[test]
fn bucket_holds_the_words_with_the_letter() {
    let words = vec![w("abc"), w("bcd"), w("xyz"), w("cab")];
    assert_eq!(bucket(&words, 0), vec![w("abc"), w("cab")]);
    assert_eq!(bucket(&words, 1), vec![w("abc"), w("bcd"), w("cab")]);
    assert_eq!(bucket(&words, 25), vec![w("xyz")]);
    assert!(bucket(&words, 10).is_empty());
    assert!(bucket(&words, 40).is_empty());
}

#[test]
fn rank_letters_puts_rare_letters_first() {
    let buckets = vec![
        vec![w("a"), w("ab"), w("ac")],
        vec![w("ab")],
        vec![w("ac"), w("c")],
        vec![],
    ];
    assert_eq!(rank_letters(&buckets), vec![3, 1, 2, 0]);
}

#[test]
fn rank_letters_breaks_ties_by_the_alphabet() {
    let buckets = vec![vec![w("a")], vec![], vec![w("c")], vec![], vec![w("e")]];
    assert_eq!(rank_letters(&buckets), vec![1, 3, 0, 2, 4]);
    assert_eq!(rank_letters(&Vec::new()), Vec::<u32>::new());
}

#[test]
fn rarest_letter_is_the_first_rank_held() {
    let order = vec![25, 3, 0, 1];
    assert_eq!(rarest_letter(&w("abz"), &order), 0);
    assert_eq!(rarest_letter(&w("abd"), &order), 1);
    assert_eq!(rarest_letter(&w("ab"), &order), 2);
    assert_eq!(rarest_letter(&w("b"), &order), 3);
    assert_eq!(rarest_letter(&w("xy"), &order), 4);
    assert_eq!(rarest_letter(&BitWord(0), &order), 4);
}

#[test]
fn by_rarity_puts_the_seeds_first() {
    let order = vec![25, 23, 0, 1, 2];
    let words = vec![w("abc"), w("abx"), w("bcz"), w("ab"), w("xyz")];
    let (sorted, seeds) = by_rarity(&words, &order);
    assert_eq!(seeds, 3);
    assert_eq!(sorted, vec![w("bcz"), w("xyz"), w("abx"), w("abc"), w("ab")]);
}

#[test]
fn by_rarity_without_two_letters() {
    let words = vec![w("a"), w("b")];
    let (sorted, seeds) = by_rarity(&words, &Vec::new());
    assert_eq!(seeds, 0);
    assert_eq!(sorted, words);
    let (sorted, seeds) = by_rarity(&words, &vec![1]);
    assert_eq!(seeds, 1);
    assert_eq!(sorted, vec![w("b"), w("a")]);
}
