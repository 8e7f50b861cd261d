use wordsets::bit_word::{BitWord, EncodingError};

fn latin() -> String {
    "ABCDEFGHIJKLMNOPQRSTUVWXYZ".to_string()
}

fn word(s: &str) -> BitWord {
    BitWord::encode(&s.to_string(), &latin())
}

#[test]
fn encode_sets_one_bit_per_letter() {
    assert_eq!(word("abcde"), BitWord(0b11111));
    assert_eq!(word("EA"), BitWord(0b10001));
    assert_eq!(word("z"), BitWord(1 << 25));
    assert_eq!(word(""), BitWord(0));
}

#[test]
fn encode_ignores_case() {
    assert_eq!(word("fJoRd"), word("FJORD"));
    assert_eq!(word("fjord"), word("FJORD"));
}

#[test]
fn encode_cancels_a_repeated_letter() {
    assert_eq!(word("abcda"), BitWord(0b1110));
    assert_eq!(word("abcda").count(), 3);
    assert_eq!(word("aaa"), BitWord(1));
    assert_eq!(word("aa"), BitWord(0));
}

#[test]
fn count_is_at_most_the_length() {
    for w in ["abcde", "abcda", "zzzzz", "vozhd", "aabbc", ""] {
        let n = word(w).count() as usize;
        assert!(n <= w.len());
        let mut letters: Vec<char> = w.chars().collect();
        letters.sort();
        letters.dedup();
        assert_eq!(n == w.len(), letters.len() == w.len());
    }
}

#[test]
fn try_encode_rejects_a_foreign_character() {
    let at = |position| Err(EncodingError { position });
    assert_eq!(BitWord::try_encode(&"ab-de".to_string(), &latin()), at(2));
    assert_eq!(BitWord::try_encode(&"abéde".to_string(), &latin()), at(2));
    assert_eq!(BitWord::try_encode(&"abcde".to_string(), &latin()), Ok(BitWord(0b11111)));
    assert_eq!(BitWord::try_encode(&"d".to_string(), &"ABC".to_string()), at(0));
    assert_eq!(BitWord::try_encode(&"a b c".to_string(), &latin()), at(1));
    assert_eq!(BitWord::try_encode(&"abcd!".to_string(), &latin()), at(4));
    assert_eq!(BitWord::try_encode(&String::new(), &String::new()), Ok(BitWord(0)));
}

#[test]
fn try_encode_rejects_a_letter_beyond_the_bits() {
    let wide = "ABCDEFGHIJKLMNOPQRSTUVWXYZ0123456789".to_string();
    assert_eq!(BitWord::try_encode(&"5".to_string(), &wide), Ok(BitWord(1 << 31)));
    assert_eq!(
        BitWord::try_encode(&"a6".to_string(), &wide),
        Err(EncodingError { position: 1 })
    );
}

#[test]
fn encode_takes_the_first_occurrence_in_the_alphabet() {
    let doubled = "ABCA".to_string();
    assert_eq!(BitWord::encode(&"a".to_string(), &doubled), BitWord(1));
}

#[test]
fn format_marks_missing_letters() {
    let w = word("eiowz");
    assert_eq!(w.format(&latin()), "----E---I-----O-------W--Z");
    assert_eq!(BitWord(0).format(&"ABC".to_string()), "---");
    assert_eq!(BitWord(0b101).format(&"ABC".to_string()), "A-C");
    assert_eq!(BitWord(0b101).format(&String::new()), "");
}

#[test]
fn decode_lists_the_letters() {
    assert_eq!(word("eiowz").decode(&latin()), "EIOWZ");
    assert_eq!(word("zebra").decode(&latin()), "ABERZ");
    assert_eq!(BitWord(0).decode(&latin()), "");
}

#[test]
fn decode_then_encode_is_the_identity() {
    for raw in [0u32, 1, 0b11111, 0x2aa_aaaa, 0x3ff_ffff, 1 << 25] {
        let w = BitWord(raw);
        let spelt = w.decode(&latin());
        assert_eq!(BitWord::encode(&spelt, &latin()), w);
    }
}

#[test]
fn toggle_adds_and_removes() {
    let w = BitWord(0b0101);
    assert_eq!(w.toggle(1), BitWord(0b0111));
    assert_eq!(w.toggle(0), BitWord(0b0100));
    assert_eq!(w.toggle(31), BitWord(0x8000_0005));
    assert_eq!(w.toggle(3).toggle(3), w);
}

#[test]
fn invert_complements_within_the_alphabet() {
    assert_eq!(BitWord(0b0101).invert(&"ABCD".to_string()), BitWord(0b1010));
    assert_eq!(BitWord(0).invert(&latin()), BitWord(0x3ff_ffff));
    assert_eq!(BitWord(0x3ff_ffff).invert(&latin()), BitWord(0));
    assert_eq!(BitWord(0b1_0001).invert(&"ABC".to_string()), BitWord(0b110));
    assert_eq!(BitWord(0).invert(&String::new()), BitWord(0));
}

#[test]
fn invert_with_a_full_width_alphabet() {
    let full = "ABCDEFGHIJKLMNOPQRSTUVWXYZ012345".to_string();
    assert_eq!(full.len(), 32);
    assert_eq!(BitWord(0).invert(&full), BitWord(u32::MAX));
    assert_eq!(BitWord(0xffff_0000).invert(&full), BitWord(0x0000_ffff));
}

#[test]
fn empty_only_for_no_letters() {
    assert!(BitWord(0).empty());
    assert!(BitWord::default().empty());
    assert!(!BitWord(1).empty());
    assert!(!BitWord(1 << 31).empty());
}

#[test]
fn merge_intersect_flip() {
    let a = BitWord(0b0110);
    let b = BitWord(0b0011);
    assert_eq!(a.merge(&b), BitWord(0b0111));
    assert_eq!(a.intersect(&b), BitWord(0b0010));
    assert_eq!(a.flip(&b), BitWord(0b0101));
}

#[test]
fn merge_with_itself_changes_nothing() {
    for w in ["abcde", "fjord", "zzz", ""] {
        assert_eq!(word(w).merge(&word(w)), word(w));
    }
}

#[test]
fn overlap_and_disjointness() {
    assert!(word("abcde").has_overlap(&word("efghi")));
    assert!(!word("abcde").has_overlap(&word("fghij")));
    assert!(word("abcde").intersect(&word("fghij")).empty());
    assert!(!word("abcde").intersect(&word("efghi")).empty());
    assert!(!BitWord(0).has_overlap(&BitWord(0)));
}

#[test]
fn merged_count_adds_up_only_for_disjoint_words() {
    let pairs = [("abcde", "fghij"), ("abcde", "efghi"), ("abcde", "abcde"), ("", "xyz")];
    for (a, b) in pairs {
        let (a, b) = (word(a), word(b));
        let adds_up = a.merge(&b).count() == a.count() + b.count();
        assert_eq!(adds_up, !a.has_overlap(&b));
    }
}

#[test]
fn flip_recovers_the_other_half_of_a_pair() {
    let a = word("abcde");
    let b = word("fghij");
    let pair = a.merge(&b);
    assert_eq!(pair.flip(&a), b);
    assert_eq!(pair.flip(&b), a);
}

#[test]
fn contains_reads_single_letters() {
    let w = word("ace");
    assert!(w.contains(0));
    assert!(!w.contains(1));
    assert!(w.contains(2));
    assert!(w.contains(4));
    assert!(!w.contains(31));
    assert!(!w.contains(32));
    assert!(!w.contains(1000));
    assert!(BitWord(u32::MAX).contains(31));
}

#[test]
fn count_counts_letters() {
    assert_eq!(BitWord(0).count(), 0);
    assert_eq!(BitWord(0b1011).count(), 3);
    assert_eq!(BitWord(u32::MAX).count(), 32);
    assert_eq!(word("fjord").count(), 5);
}

#[test]
fn bits_lists_positions_in_ascending_order() {
    assert_eq!(BitWord(0).bits(), Vec::<u32>::new());
    assert_eq!(BitWord(0b1011).bits(), vec![0, 1, 3]);
    assert_eq!(BitWord(0x8000_0001).bits(), vec![0, 31]);
    assert_eq!(BitWord(u32::MAX).bits().len(), 32);
}

#[test]
fn bits_can_be_asked_again() {
    let w = word("fjord");
    let first = w.bits();
    let second = w.bits();
    assert_eq!(first, second);
    assert_eq!(first.len() as u32, w.count());
    assert_eq!(w, word("fjord"));
}

#[test]
fn words_order_by_their_masks() {
    let mut ws = vec![BitWord(9), BitWord(3), BitWord(7)];
    ws.sort();
    assert_eq!(ws, vec![BitWord(3), BitWord(7), BitWord(9)]);
    assert!(BitWord(3) < BitWord(4));
}
