//! From raw lines to the list of words that a search runs on.

use crate::bit_word::{
    encodable, encoding, lemma_bit_set_injective, lemma_encoding_len, no_repeated_letter, BitWord,
};
use rayon::slice::ParallelSliceMut;
use vstd::prelude::*;

verus! {

/// Whether a line is a word of the dictionary: it has the wanted length, all
/// its characters are letters of the alphabet, and no letter is written twice.
pub open spec fn is_word(line: Seq<char>, alphabet: Seq<char>, length: nat) -> bool {
    &&& line.len() == length
    &&& encodable(line, alphabet)
    &&& no_repeated_letter(line)
}

/// Whether one of the first `n` lines is a word with the letters of `w`.
pub open spec fn spelt_among(
    w: BitWord,
    lines: Seq<String>,
    alphabet: Seq<char>,
    length: nat,
    n: int,
) -> bool {
    exists|k: int|
        0 <= k < n && k < lines.len() && is_word(#[trigger] lines[k]@, alphabet, length) && w@
            == encoding(lines[k]@, alphabet)
}

/// The letter set that a line spells.
pub open spec fn spelt(line: Seq<char>, alphabet: Seq<char>) -> BitWord {
    choose|w: BitWord| w@ == encoding(line, alphabet)
}

/// The letter sets of the lines that are words, in the order of the lines:
/// one for each such line, also where two lines spell the same letters.
pub open spec fn words_of(lines: Seq<String>, alphabet: Seq<char>, length: nat) -> Seq<BitWord>
    decreases lines.len(),
{
    if lines.len() == 0 {
        Seq::empty()
    } else {
        let before = words_of(lines.drop_last(), alphabet, length);
        if is_word(lines.last()@, alphabet, length) {
            before.push(spelt(lines.last()@, alphabet))
        } else {
            before
        }
    }
}

/// Whether the words stand in ascending order of their masks, none twice.
pub open spec fn ascending(words: Seq<BitWord>) -> bool {
    forall|i: int, j: int| 0 <= i < j < words.len() ==> words[i].0 < words[j].0
}

/// Whether `words` is the dictionary of the lines: the letter sets of all
/// their words, each once whatever the number of its spellings, in ascending
/// order.
pub open spec fn is_dictionary(
    words: Seq<BitWord>,
    lines: Seq<String>,
    alphabet: Seq<char>,
    length: nat,
) -> bool {
    &&& ascending(words)
    &&& forall|w: BitWord|
        words.contains(w) <==> spelt_among(w, lines, alphabet, length, lines.len() as int)
}

/// Every word of a dictionary has exactly as many letters as was asked for.
pub proof fn lemma_dictionary_word_len(
    words: Seq<BitWord>,
    lines: Seq<String>,
    alphabet: Seq<char>,
    length: nat,
    w: BitWord,
)
    requires
        is_dictionary(words, lines, alphabet, length),
        words.contains(w),
    ensures
        w@.finite(),
        w@.len() == length,
{
    let k = choose|k: int|
        0 <= k < lines.len() && is_word(#[trigger] lines[k]@, alphabet, length) && w@ == encoding(
            lines[k]@,
            alphabet,
        );
    lemma_encoding_len(lines[k]@, alphabet);
}

/// A dictionary is determined by the lines it was made from.
pub proof fn lemma_dictionary_unique(
    a: Seq<BitWord>,
    b: Seq<BitWord>,
    lines: Seq<String>,
    alphabet: Seq<char>,
    length: nat,
)
    requires
        is_dictionary(a, lines, alphabet, length),
        is_dictionary(b, lines, alphabet, length),
    ensures
        a == b,
{
    assert forall|w: BitWord| a.contains(w) == b.contains(w) by {}
    lemma_ascending_unique(a, b);
}

/// Two ascending lists with the same words are the same list.
pub proof fn lemma_ascending_unique(a: Seq<BitWord>, b: Seq<BitWord>)
    requires
        ascending(a),
        ascending(b),
        forall|w: BitWord| a.contains(w) == b.contains(w),
    ensures
        a == b,
    decreases a.len(),
{
    if a.len() == 0 {
        if b.len() > 0 {
            assert(b.contains(b[0]));
        }
        assert(a =~= b);
    } else if b.len() == 0 {
        assert(a.contains(a[0]));
    } else {
        // the greatest word of either list is the last of both
        let x = a.last();
        let y = b.last();
        assert(a.contains(x));
        assert(b.contains(y));
        let i = choose|i: int| 0 <= i < b.len() && b[i] == x;
        let j = choose|j: int| 0 <= j < a.len() && a[j] == y;
        assert(x == y);
        let a0 = a.drop_last();
        let b0 = b.drop_last();
        assert forall|w: BitWord| a0.contains(w) == b0.contains(w) by {
            if a0.contains(w) {
                let k = choose|k: int| 0 <= k < a0.len() && a0[k] == w;
                assert(a[k] == w);
                assert(a.contains(w));
                let m = choose|m: int| 0 <= m < b.len() && b[m] == w;
                assert(m < b.len() - 1);
                assert(b0[m] == w);
            }
            if b0.contains(w) {
                let k = choose|k: int| 0 <= k < b0.len() && b0[k] == w;
                assert(b[k] == w);
                assert(b.contains(w));
                let m = choose|m: int| 0 <= m < a.len() && a[m] == w;
                assert(m < a.len() - 1);
                assert(a0[m] == w);
            }
        }
        lemma_ascending_unique(a0, b0);
        assert(a =~= a0.push(x));
        assert(b =~= b0.push(y));
    }
}

/// The letter sets of the lines that are words, in the order of the lines;
/// a set comes once for each line that spells it.
pub fn collect_words(lines: &Vec<String>, alphabet: &String, length: u32) -> (words: Vec<BitWord>)
    ensures
        words@ == words_of(lines@, alphabet@, length as nat),
        forall|w: BitWord|
            words@.contains(w) <==> spelt_among(
                w,
                lines@,
                alphabet@,
                length as nat,
                lines@.len() as int,
            ),
{
    let mut words: Vec<BitWord> = Vec::new();
    let mut i: usize = 0;
    while i < lines.len()
        invariant
            i <= lines@.len(),
            words@ == words_of(lines@.take(i as int), alphabet@, length as nat),
            forall|w: BitWord|
                words@.contains(w) <==> spelt_among(w, lines@, alphabet@, length as nat, i as int),
        decreases lines@.len() - i,
    {
        let ghost before = words@;
        let ghost line = lines@[i as int]@;
        assert(forall|w: BitWord|
            before.contains(w) <==> spelt_among(w, lines@, alphabet@, length as nat, i as int));
        let mut taken: Option<BitWord> = None;
        if lines[i].as_str().unicode_len() == length as usize {
            if let Ok(w) = BitWord::try_encode(&lines[i], alphabet) {
                if w.count() == length {
                    taken = Some(w);
                    words.push(w);
                }
            }
        }
        proof {
            if encodable(line, alphabet@) {
                lemma_encoding_len(line, alphabet@);
            }
            assert(taken is Some == is_word(line, alphabet@, length as nat));
            assert(lines@.take(i + 1).drop_last() =~= lines@.take(i as int));
            assert(lines@.take(i + 1).last() == lines@[i as int]);
            if taken is Some {
                let newest: BitWord = taken->0;
                lemma_bit_set_injective(newest.0, spelt(line, alphabet@).0);
            }
            assert(words@ =~= words_of(lines@.take(i + 1), alphabet@, length as nat));
            assert forall|w: BitWord|
                words@.contains(w) <==> spelt_among(
                    w,
                    lines@,
                    alphabet@,
                    length as nat,
                    i + 1,
                ) by {
                if words@.contains(w) {
                    let k = choose|k: int| 0 <= k < words@.len() && words@[k] == w;
                    if k < before.len() {
                        assert(before[k] == w);
                        assert(before.contains(w));
                        assert(spelt_among(w, lines@, alphabet@, length as nat, i as int));
                    } else {
                        assert(is_word(lines@[i as int]@, alphabet@, length as nat));
                    }
                    assert(spelt_among(w, lines@, alphabet@, length as nat, i + 1));
                }
                if spelt_among(w, lines@, alphabet@, length as nat, i + 1) {
                    let k = choose|k: int|
                        0 <= k < i + 1 && k < lines@.len() && is_word(
                            #[trigger] lines@[k]@,
                            alphabet@,
                            length as nat,
                        ) && w@ == encoding(lines@[k]@, alphabet@);
                    if k < i {
                        assert(spelt_among(w, lines@, alphabet@, length as nat, i as int));
                        assert(before.contains(w));
                        let m = choose|m: int| 0 <= m < before.len() && before[m] == w;
                        assert(words@[m] == w);
                    } else {
                        let newest: BitWord = taken->0;
                        lemma_bit_set_injective(w.0, newest.0);
                        assert(words@[words@.len() - 1] == w);
                    }
                }
            }
        }
        i += 1;
    }
    proof {
        assert(lines@.take(lines@.len() as int) =~= lines@);
    }
    words
}

/// `<[T]>::sort_by_key` of std, with a word's mask as its key: the same
/// words, each as often as before, in ascending order of their masks.
#[verifier::external_body]
pub(crate) fn sort_words(words: &mut Vec<BitWord>)
    ensures
        final(words)@.to_multiset() == old(words)@.to_multiset(),
        forall|i: int, j: int|
            0 <= i < j < final(words)@.len() ==> final(words)@[i].0 <= final(words)@[j].0,
{
    words.sort_by_key(|w| w.0);
}

/// rayon's `par_sort_unstable_by_key`, with a word's mask as its key: the
/// same words, each as often as before, in ascending order of their masks.
#[verifier::external_body]
pub(crate) fn par_sort_words(words: &mut Vec<BitWord>)
    ensures
        final(words)@.to_multiset() == old(words)@.to_multiset(),
        forall|i: int, j: int|
            0 <= i < j < final(words)@.len() ==> final(words)@[i].0 <= final(words)@[j].0,
{
    words.par_sort_unstable_by_key(|w| w.0);
}

/// The words of a sorted list, each once.
pub fn dedup(words: &Vec<BitWord>) -> (unique: Vec<BitWord>)
    requires
        forall|i: int, j: int| 0 <= i < j < words@.len() ==> words@[i].0 <= words@[j].0,
    ensures
        ascending(unique@),
        forall|w: BitWord| unique@.contains(w) == words@.contains(w),
{
    let mut unique: Vec<BitWord> = Vec::new();
    let mut i: usize = 0;
    while i < words.len()
        invariant
            i <= words@.len(),
            forall|i: int, j: int| 0 <= i < j < words@.len() ==> words@[i].0 <= words@[j].0,
            ascending(unique@),
            unique@.len() <= i,
            i > 0 ==> unique@.len() > 0 && unique@.last() == words@[i - 1],
            forall|k: int| 0 <= k < unique@.len() ==> words@.contains(#[trigger] unique@[k]),
            forall|k: int| 0 <= k < i ==> unique@.contains(#[trigger] words@[k]),
        decreases words@.len() - i,
    {
        let w = words[i];
        let ghost before = unique@;
        if i == 0 || words[i - 1].0 != w.0 {
            unique.push(w);
            proof {
                assert forall|a: int, b: int| 0 <= a < b < unique@.len() implies unique@[a].0
                    < unique@[b].0 by {
                    if b == unique@.len() - 1 {
                        assert(before.contains(before[a]));
                        assert(words@.contains(before[a]));
                        assert(before[a].0 <= before.last().0);
                    }
                }
                assert forall|k: int| 0 <= k < i + 1 implies unique@.contains(
                    #[trigger] words@[k],
                ) by {
                    if k < i {
                        let m = choose|m: int| 0 <= m < before.len() && before[m] == words@[k];
                        assert(unique@[m] == words@[k]);
                    } else {
                        assert(unique@[unique@.len() - 1] == words@[k]);
                    }
                }
                assert(words@.contains(w));
            }
        } else {
            proof {
                assert(words@[i as int] == words@[i - 1]);
            }
        }
        i += 1;
    }
    proof {
        assert forall|w: BitWord| unique@.contains(w) == words@.contains(w) by {
            if unique@.contains(w) {
                let k = choose|k: int| 0 <= k < unique@.len() && unique@[k] == w;
                assert(words@.contains(unique@[k]));
            }
            if words@.contains(w) {
                let k = choose|k: int| 0 <= k < words@.len() && words@[k] == w;
                assert(unique@.contains(words@[k]));
            }
        }
    }
    unique
}

/// The words of a list in ascending order, each once. A long list is
/// better sorted on several threads at once.
pub fn sorted_once(found: Vec<BitWord>, parallel: bool) -> (words: Vec<BitWord>)
    ensures
        ascending(words@),
        forall|w: BitWord| words@.contains(w) == found@.contains(w),
{
    let mut found = found;
    let ghost unsorted = found@;
    if parallel {
        par_sort_words(&mut found);
    } else {
        sort_words(&mut found);
    }
    proof {
        unsorted.to_multiset_ensures();
        found@.to_multiset_ensures();
        assert forall|w: BitWord| found@.contains(w) == unsorted.contains(w) by {
            assert(found@.contains(w) == (found@.to_multiset().count(w) > 0));
            assert(unsorted.contains(w) == (unsorted.to_multiset().count(w) > 0));
        }
    }
    dedup(&found)
}

/// The dictionary of the lines: the letter set of each line that is a word
/// of the wanted length, in ascending order, anagrams taken as one.
pub fn prepare(lines: &Vec<String>, alphabet: &String, length: u32) -> (words: Vec<BitWord>)
    ensures
        is_dictionary(words@, lines@, alphabet@, length as nat),
{
    sorted_once(collect_words(lines, alphabet, length), false)
}

/// As [`prepare`], sorting on several threads.
pub fn prepare_par(lines: &Vec<String>, alphabet: &String, length: u32) -> (words: Vec<BitWord>)
    ensures
        is_dictionary(words@, lines@, alphabet@, length as nat),
{
    sorted_once(collect_words(lines, alphabet, length), true)
}

} // verus!
