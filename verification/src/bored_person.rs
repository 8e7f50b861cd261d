//! The search by pairs, for five words of five letters: the words are
//! first joined two by two, and a group is a word with a rare letter and two
//! pairs that use up all other letters but one.

use crate::bit_word::{
    lemma_bit_set_finite, lemma_bit_set_injective, lemma_bit_set_union, lemma_merge_count,
    lemma_word_of, letters_below, word_of, BitWord,
};
use crate::dictionary::{ascending, lemma_ascending_unique, prepare_par, sort_words, sorted_once};
use crate::gigo::{lemma_dictionary_word, lemma_seed_in_every_solution, lemma_solution_of_dictionary};
use crate::lookup::WordSet;
use crate::ranking::{is_seed, lemma_holding, par_buckets, rank_letters};
use crate::solution::{
    all_solutions, alphabet, canonical, dedup_sets, groups, is_solution, lemma_canonical_group,
    lemma_canonical_unique, lemma_groups_append, lemma_groups_push, solves, sort_sets,
};
use rayon::iter::{IntoParallelIterator, ParallelIterator};
use vstd::prelude::*;
use vstd::set_lib::{lemma_int_range, lemma_set_difference_len, set_int_range};

verus! {

/// The number of letters of a word.
pub const WORD_LENGTH: u32 = 5;

/// The number of words of a group.
pub const WORD_COUNT: u32 = 5;

/// Whether every word of the list has five letters, all among the 26.
pub open spec fn five_letter(words: Seq<BitWord>) -> bool {
    forall|k: int|
        0 <= k < words.len() ==> (#[trigger] words[k])@.len() == 5 && words[k]@.subset_of(
            set_int_range(0, 26),
        )
}

/// Whether `p` holds just the letters of `a` and `b`, which share none.
pub open spec fn splits(p: BitWord, a: BitWord, b: BitWord) -> bool {
    a@.disjoint(b@) && p@ == a@.union(b@)
}

/// Whether `p` is a pair: two words of the list, joined, that share no
/// letter.
pub open spec fn is_pair(p: BitWord, words: Seq<BitWord>) -> bool {
    exists|a: BitWord, b: BitWord| words.contains(a) && words.contains(b) && #[trigger] splits(p, a, b)
}

/// What is left of a set of ten letters when five of them are flipped: if
/// five letters are left, those that were flipped were all in the set.
pub proof fn lemma_flip_within(p: BitWord, w: BitWord)
    requires
        p@.len() == 10,
        w@.len() == 5,
    ensures
        (p@.difference(w@).union(w@.difference(p@)).len() == 5) == w@.subset_of(p@),
        w@.subset_of(p@) ==> p@.difference(w@).union(w@.difference(p@)) == p@.difference(w@),
{
    lemma_bit_set_finite(p.0);
    lemma_bit_set_finite(w.0);
    let left = p@.difference(w@);
    let right = w@.difference(p@);
    lemma_set_difference_len(p@, w@);
    lemma_set_difference_len(w@, p@);
    assert(p@.intersect(w@) =~= w@.intersect(p@));
    vstd::set_lib::lemma_set_disjoint_lens(left, right);
    assert(left.disjoint(right));
    if w@.subset_of(p@) {
        assert(right =~= Set::<int>::empty());
        assert(left.union(right) =~= left);
        assert(w@.intersect(p@) =~= w@);
    } else {
        let i = choose|i: int| w@.contains(i) && !p@.contains(i);
        assert(right.contains(i));
        assert(right.len() > 0);
    }
}

/// The word at position `i` joined with each of the words from `i` up to
/// `n` that share no letter with it, in the order of the list.
pub open spec fn joined_with(words: Seq<BitWord>, i: int, n: int) -> Seq<BitWord>
    decreases n - i,
{
    if n <= i {
        Seq::empty()
    } else {
        let before = joined_with(words, i, n - 1);
        if words[i]@.disjoint(words[n - 1]@) {
            before.push(BitWord(words[n - 1].0 | words[i].0))
        } else {
            before
        }
    }
}

/// The words from position `i` on that share no letter with the word at
/// `i`, each joined with it.
pub fn pairs_from(words: &Vec<BitWord>, i: usize) -> (pairs: Vec<BitWord>)
    requires
        i < words@.len(),
        five_letter(words@),
    ensures
        pairs@ == joined_with(words@, i as int, words@.len() as int),
        forall|p: BitWord|
            pairs@.contains(p) == exists|j: int|
                i <= j < words@.len() && #[trigger] splits(p, words@[i as int], words@[j]),
{
    let word = words[i];
    let mut pairs: Vec<BitWord> = Vec::new();
    let mut j: usize = i;
    while j < words.len()
        invariant
            i <= j <= words@.len(),
            five_letter(words@),
            word == words@[i as int],
            pairs@ == joined_with(words@, i as int, j as int),
            forall|p: BitWord|
                pairs@.contains(p) == exists|k: int| i <= k < j && #[trigger] splits(p, word, words@[k]),
        decreases words@.len() - j,
    {
        let other = words[j];
        let joined = other.merge(&word);
        let ghost before = pairs@;
        let both = joined.count() == 10;
        if both {
            pairs.push(joined);
        }
        proof {
            lemma_merge_count(word, other);
            assert(word@.union(other@) =~= other@.union(word@));
            assert(both == word@.disjoint(other@));
            assert forall|p: BitWord|
                pairs@.contains(p) == exists|k: int|
                    i <= k < j + 1 && #[trigger] splits(p, word, words@[k]) by {
                if pairs@.contains(p) {
                    let m = choose|m: int| 0 <= m < pairs@.len() && pairs@[m] == p;
                    if m < before.len() {
                        assert(before[m] == p);
                        assert(before.contains(p));
                        let k = choose|k: int| i <= k < j && #[trigger] splits(p, word, words@[k]);
                        assert(splits(p, word, words@[k]));
                    } else {
                        assert(splits(p, word, words@[j as int]));
                    }
                }
                if exists|k: int| i <= k < j + 1 && #[trigger] splits(p, word, words@[k]) {
                    let k = choose|k: int| i <= k < j + 1 && #[trigger] splits(p, word, words@[k]);
                    if k < j {
                        assert(before.contains(p));
                        let m = choose|m: int| 0 <= m < before.len() && before[m] == p;
                        assert(pairs@[m] == p);
                    } else {
                        lemma_bit_set_injective(p.0, joined.0);
                        assert(pairs@[pairs@.len() - 1] == p);
                    }
                }
            }
        }
        j += 1;
    }
    pairs
}

/// rayon's parallel `map` over the positions of the words, collected into
/// a `Vec`: the result holds, at the place of each word, what
/// [`pairs_from`] returns for it.
#[verifier::external_body]
fn par_pairs(words: &Vec<BitWord>) -> (parts: Vec<Vec<BitWord>>)
    requires
        five_letter(words@),
    ensures
        parts@.len() == words@.len(),
        forall|i: int|
            0 <= i < parts@.len() ==> (#[trigger] parts@[i])@ == joined_with(
                words@,
                i,
                words@.len() as int,
            ),
        forall|i: int, p: BitWord|
            0 <= i < parts@.len() ==> (#[trigger] parts@[i]@.contains(p)) == exists|j: int|
                i <= j < words@.len() && #[trigger] splits(p, words@[i], words@[j]),
{
    (0..words.len()).into_par_iter().map(|i| pairs_from(words, i)).collect()
}

/// All pairs of the list, each once, in ascending order.
pub fn all_pairs(words: &Vec<BitWord>) -> (pairs: Vec<BitWord>)
    requires
        five_letter(words@),
    ensures
        ascending(pairs@),
        forall|p: BitWord| pairs@.contains(p) == is_pair(p, words@),
{
    let mut parts = par_pairs(words);
    let mut found: Vec<BitWord> = Vec::new();
    let mut i: usize = 0;
    while i < parts.len()
        invariant
            i <= parts@.len(),
            parts@.len() == words@.len(),
            forall|k: int, p: BitWord|
                i <= k < parts@.len() ==> (#[trigger] parts@[k]@.contains(p)) == exists|j: int|
                    k <= j < words@.len() && #[trigger] splits(p, words@[k], words@[j]),
            forall|p: BitWord|
                found@.contains(p) == exists|k: int, j: int|
                    0 <= k < i && k <= j < words@.len() && #[trigger] splits(p, words@[k], words@[j]),
        decreases parts@.len() - i,
    {
        let ghost before = found@;
        let ghost added = parts@[i as int]@;
        let ghost rest = parts@;
        let mut part: Vec<BitWord> = Vec::new();
        std::mem::swap(&mut part, &mut parts[i]);
        found.append(&mut part);
        proof {
            assert(found@ =~= before + added);
            assert forall|k: int, p: BitWord| i + 1 <= k < parts@.len() implies (#[trigger] parts@[k]@.contains(
                p,
            )) == exists|j: int|
                k <= j < words@.len() && #[trigger] splits(p, words@[k], words@[j]) by {
                assert(parts@[k] == rest[k]);
                assert(rest[k]@.contains(p) == exists|j: int|
                    k <= j < words@.len() && #[trigger] splits(p, words@[k], words@[j]));
            }
            assert forall|p: BitWord|
                found@.contains(p) == exists|k: int, j: int|
                    0 <= k < i + 1 && k <= j < words@.len() && #[trigger] splits(
                        p,
                        words@[k],
                        words@[j],
                    ) by {
                assert(rest[i as int]@.contains(p) == exists|j: int|
                    i <= j < words@.len() && #[trigger] splits(p, words@[i as int], words@[j]));
                if found@.contains(p) {
                    let m = choose|m: int| 0 <= m < found@.len() && found@[m] == p;
                    if m < before.len() {
                        assert(before[m] == p);
                        assert(before.contains(p));
                        let (k, j) = choose|k: int, j: int|
                            0 <= k < i && k <= j < words@.len() && #[trigger] splits(
                                p,
                                words@[k],
                                words@[j],
                            );
                        assert(splits(p, words@[k], words@[j]));
                    } else {
                        assert(added[m - before.len()] == p);
                        assert(added.contains(p));
                        let j = choose|j: int|
                            i <= j < words@.len() && #[trigger] splits(
                                p,
                                words@[i as int],
                                words@[j],
                            );
                        assert(splits(p, words@[i as int], words@[j]));
                    }
                }
                if exists|k: int, j: int|
                    0 <= k < i + 1 && k <= j < words@.len() && #[trigger] splits(
                        p,
                        words@[k],
                        words@[j],
                    ) {
                    let (k, j) = choose|k: int, j: int|
                        0 <= k < i + 1 && k <= j < words@.len() && #[trigger] splits(
                            p,
                            words@[k],
                            words@[j],
                        );
                    if k < i {
                        assert(before.contains(p));
                        let m = choose|m: int| 0 <= m < before.len() && before[m] == p;
                        assert(found@[m] == p);
                    } else {
                        assert(added.contains(p));
                        let m = choose|m: int| 0 <= m < added.len() && added[m] == p;
                        assert(found@[before.len() + m] == p);
                    }
                }
            }
        }
        i += 1;
    }
    let ghost raw = found@;
    let pairs = sorted_once(found, true);
    proof {
        assert forall|p: BitWord| pairs@.contains(p) == is_pair(p, words@) by {
            assert(pairs@.contains(p) == raw.contains(p));
            if raw.contains(p) {
                let (k, j) = choose|k: int, j: int|
                    0 <= k < words@.len() && k <= j < words@.len() && #[trigger] splits(
                        p,
                        words@[k],
                        words@[j],
                    );
                assert(words@.contains(words@[k]));
                assert(words@.contains(words@[j]));
            }
            if is_pair(p, words@) {
                let (a, b) = choose|a: BitWord, b: BitWord|
                    words@.contains(a) && words@.contains(b) && #[trigger] splits(p, a, b);
                let k = choose|k: int| 0 <= k < words@.len() && words@[k] == a;
                let j = choose|j: int| 0 <= j < words@.len() && words@[j] == b;
                if k <= j {
                    assert(splits(p, words@[k], words@[j]));
                } else {
                    assert(b@.union(a@) =~= a@.union(b@));
                    assert(splits(p, words@[j], words@[k]));
                }
            }
        }
    }
    pairs
}

/// The words of two buckets, each once, in ascending order.
pub fn rare_words(buckets: &Vec<Vec<BitWord>>, first: u32, second: u32) -> (rare: Vec<BitWord>)
    requires
        first < buckets@.len(),
        second < buckets@.len(),
    ensures
        ascending(rare@),
        forall|w: BitWord|
            rare@.contains(w) == (buckets@[first as int]@.contains(w) || buckets@[second as int]@.contains(
                w,
            )),
{
    let mut both: Vec<BitWord> = buckets[first as usize].clone();
    let mut other: Vec<BitWord> = buckets[second as usize].clone();
    let ghost one = both@;
    let ghost two = other@;
    both.append(&mut other);
    proof {
        assert forall|w: BitWord| both@.contains(w) == (one.contains(w) || two.contains(w)) by {
            if both@.contains(w) {
                let k = choose|k: int| 0 <= k < both@.len() && both@[k] == w;
                if k < one.len() {
                    assert(one[k] == w);
                } else {
                    assert(two[k - one.len()] == w);
                }
            }
            if one.contains(w) {
                let k = choose|k: int| 0 <= k < one.len() && one[k] == w;
                assert(both@[k] == w);
            }
            if two.contains(w) {
                let k = choose|k: int| 0 <= k < two.len() && two[k] == w;
                assert(both@[one.len() + k] == w);
            }
        }
    }
    sorted_once(both, false)
}

/// The splits of a pair by the first `n` words of the list: each of these
/// words within the pair whose other half is a word of the list, with that
/// half, in the order of the list.
pub open spec fn halves_of(p: BitWord, words: Seq<BitWord>, n: int) -> Seq<(BitWord, BitWord)>
    decreases n,
{
    if n <= 0 {
        Seq::empty()
    } else {
        let before = halves_of(p, words, n - 1);
        let w = words[n - 1];
        let rest = BitWord(p.0 ^ w.0);
        if w@.subset_of(p@) && words.contains(rest) {
            before.push((w, rest))
        } else {
            before
        }
    }
}

/// The ways to split a pair into two words of the list: each word of the
/// list within the pair whose other half is a word too, with that half.
pub fn words_in_pair(p: BitWord, words: &Vec<BitWord>, set: &WordSet) -> (halves: Vec<
    (BitWord, BitWord),
>)
    requires
        five_letter(words@),
        p@.len() == 10,
        forall|w: BitWord| set@.contains(w) == words@.contains(w),
    ensures
        halves@ == halves_of(p, words@, words@.len() as int),
        forall|a: BitWord, b: BitWord|
            #[trigger] halves@.contains((a, b)) == (words@.contains(a) && words@.contains(b)
                && splits(p, a, b)),
{
    let mut halves: Vec<(BitWord, BitWord)> = Vec::new();
    let mut i: usize = 0;
    while i < words.len()
        invariant
            i <= words@.len(),
            five_letter(words@),
            p@.len() == 10,
            forall|w: BitWord| set@.contains(w) == words@.contains(w),
            halves@ == halves_of(p, words@, i as int),
            forall|a: BitWord, b: BitWord|
                #[trigger] halves@.contains((a, b)) == (words@.take(i as int).contains(a)
                    && words@.contains(b) && splits(p, a, b)),
        decreases words@.len() - i,
    {
        let w = words[i];
        let rest = p.flip(&w);
        let ghost before = halves@;
        let ghost seen = words@.take(i as int);
        let ghost next = words@.take(i + 1);
        let fits = rest.count() == 5 && set.contains(&rest);
        if fits {
            halves.push((w, rest));
        }
        proof {
            assert(next =~= seen.push(w));
            assert(words@[i as int]@.len() == 5);
            lemma_flip_within(p, w);
            if w@.subset_of(p@) {
                assert(rest@ =~= p@.difference(w@));
                assert(w@.union(rest@) =~= p@);
            }
            assert(fits == (words@.contains(rest) && splits(p, w, rest))) by {
                if words@.contains(rest) && splits(p, w, rest) {
                    assert(w@.subset_of(p@));
                    let k = choose|k: int| 0 <= k < words@.len() && words@[k] == rest;
                    assert(words@[k]@.len() == 5);
                }
            }
            assert(fits == (w@.subset_of(p@) && words@.contains(rest))) by {
                if words@.contains(rest) && w@.subset_of(p@) {
                    assert(splits(p, w, rest));
                }
            }
            assert(rest == BitWord(p.0 ^ w.0));
            assert forall|a: BitWord, b: BitWord|
                #[trigger] halves@.contains((a, b)) == (next.contains(a) && words@.contains(b)
                    && splits(p, a, b)) by {
                let wanted = next.contains(a) && words@.contains(b) && splits(p, a, b);
                if halves@.contains((a, b)) {
                    let k = choose|k: int| 0 <= k < halves@.len() && halves@[k] == (a, b);
                    if k < before.len() {
                        assert(before[k] == (a, b));
                        assert(before.contains((a, b)));
                        let m = choose|m: int| 0 <= m < seen.len() && seen[m] == a;
                        assert(next[m] == a);
                    } else {
                        assert(next[i as int] == a);
                    }
                }
                if wanted {
                    let m = choose|m: int| 0 <= m < next.len() && next[m] == a;
                    if m < i {
                        assert(seen[m] == a);
                        assert(before.contains((a, b)));
                        let k = choose|k: int| 0 <= k < before.len() && before[k] == (a, b);
                        assert(halves@[k] == (a, b));
                    } else {
                        assert(a == w);
                        assert(b@ =~= p@.difference(w@));
                        lemma_bit_set_injective(b.0, rest.0);
                        assert(halves@[halves@.len() - 1] == (a, b));
                    }
                }
            }
        }
        i += 1;
    }
    proof {
        assert(words@.take(words@.len() as int) =~= words@);
    }
    halves
}

/// The letters that the alphabet has besides those of the set.
pub open spec fn unused(used: Set<int>) -> Set<int> {
    set_int_range(0, 26).difference(used)
}

/// For each of the first `k` of the free letters in turn, the other free
/// letters as one word, where that word is a pair.
pub open spec fn fits(left: Set<int>, free: Seq<u32>, pairs: Set<BitWord>, k: int) -> Seq<BitWord>
    decreases k,
{
    if k <= 0 {
        Seq::empty()
    } else {
        let before = fits(left, free, pairs, k - 1);
        let e = word_of(left.remove(free[k - 1] as int));
        if pairs.contains(e) {
            before.push(e)
        } else {
            before
        }
    }
}

/// What [`completions`] returns for the letters that are left: a pair for
/// each letter, in ascending order, without which the others make a pair.
pub open spec fn fitting_pairs(left: Set<int>, pairs: Set<BitWord>) -> Seq<BitWord> {
    fits(left, letters_below(left, 32), pairs, letters_below(left, 32).len() as int)
}

/// The pairs that can complete a word and a pair to a group: those made of
/// ten of the eleven letters that the two leave.
pub fn completions(sw: BitWord, p: BitWord, pairs: &WordSet, letters: &String) -> (fitting: Vec<
    BitWord,
>)
    requires
        letters@.len() == 26,
        sw@.union(p@).len() == 15,
        sw@.union(p@).subset_of(set_int_range(0, 26)),
    ensures
        fitting@ == fitting_pairs(unused(sw@.union(p@)), pairs@),
        forall|e: BitWord|
            fitting@.contains(e) == (pairs@.contains(e) && e@.len() == 10 && e@.subset_of(
                set_int_range(0, 26),
            ) && e@.disjoint(sw@.union(p@))),
{
    let combined = sw.merge(&p);
    let remaining = combined.invert(letters);
    let free = remaining.bits();
    let mut fitting: Vec<BitWord> = Vec::new();
    let mut k: usize = 0;
    proof {
        lemma_int_range(0, 26);
        lemma_bit_set_finite(combined.0);
        lemma_bit_set_finite(remaining.0);
        lemma_set_difference_len(set_int_range(0, 26), combined@);
        assert(set_int_range(0, 26).intersect(combined@) =~= combined@);
        assert(remaining@.len() == 11);
    }
    while k < free.len()
        invariant
            k <= free@.len(),
            remaining@ == set_int_range(0, 26).difference(sw@.union(p@)),
            remaining@.len() == 11,
            remaining@.finite(),
            forall|j: int| 0 <= j < free@.len() ==> remaining@.contains(#[trigger] free@[j] as int),
            fitting@ == fits(remaining@, free@, pairs@, k as int),
            forall|e: BitWord|
                fitting@.contains(e) == (pairs@.contains(e) && exists|j: int|
                    0 <= j < k && e@ == remaining@.remove(#[trigger] free@[j] as int)),
        decreases free@.len() - k,
    {
        let i = free[k];
        let ghost before = fitting@;
        assert(remaining@.contains(free@[k as int] as int));
        let e = remaining.toggle(i);
        if pairs.contains(&e) {
            fitting.push(e);
        }
        proof {
            lemma_word_of(e);
            assert forall|x: BitWord|
                fitting@.contains(x) == (pairs@.contains(x) && exists|j: int|
                    0 <= j < k + 1 && x@ == remaining@.remove(#[trigger] free@[j] as int)) by {
                if fitting@.contains(x) {
                    let m = choose|m: int| 0 <= m < fitting@.len() && fitting@[m] == x;
                    if m < before.len() {
                        assert(before[m] == x);
                        assert(before.contains(x));
                        let j = choose|j: int|
                            0 <= j < k && x@ == remaining@.remove(#[trigger] free@[j] as int);
                        assert(x@ == remaining@.remove(free@[j] as int));
                    } else {
                        assert(x@ == remaining@.remove(free@[k as int] as int));
                    }
                }
                if pairs@.contains(x) && exists|j: int|
                    0 <= j < k + 1 && x@ == remaining@.remove(#[trigger] free@[j] as int) {
                    let j = choose|j: int|
                        0 <= j < k + 1 && x@ == remaining@.remove(#[trigger] free@[j] as int);
                    if j < k {
                        assert(before.contains(x));
                        let m = choose|m: int| 0 <= m < before.len() && before[m] == x;
                        assert(fitting@[m] == x);
                    } else {
                        lemma_bit_set_injective(x.0, e.0);
                        assert(fitting@[fitting@.len() - 1] == x);
                    }
                }
            }
        }
        k += 1;
    }
    proof {
        let used = sw@.union(p@);
        assert forall|e: BitWord|
            fitting@.contains(e) == (pairs@.contains(e) && e@.len() == 10 && e@.subset_of(
                set_int_range(0, 26),
            ) && e@.disjoint(used)) by {
            lemma_bit_set_finite(e.0);
            if fitting@.contains(e) {
                let j = choose|j: int|
                    0 <= j < free@.len() && e@ == remaining@.remove(#[trigger] free@[j] as int);
                assert(remaining@.contains(free@[j] as int));
            }
            if pairs@.contains(e) && e@.len() == 10 && e@.subset_of(set_int_range(0, 26))
                && e@.disjoint(used) {
                assert(e@.subset_of(remaining@));
                let spare = remaining@.difference(e@);
                lemma_set_difference_len(remaining@, e@);
                assert(remaining@.intersect(e@) =~= e@);
                assert(spare.len() == 1);
                let i = spare.choose();
                assert(spare.contains(i));
                assert(spare.remove(i).len() == 0);
                assert(spare.remove(i) =~= Set::<int>::empty());
                assert(e@ =~= remaining@.remove(i)) by {
                    assert forall|x: int| remaining@.remove(i).contains(x) implies e@.contains(
                        x,
                    ) by {
                        if !e@.contains(x) {
                            assert(spare.remove(i).contains(x));
                        }
                    }
                }
                let j = choose|j: int| 0 <= j < free@.len() && free@[j] == i;
                assert(e@ == remaining@.remove(free@[j] as int));
            }
        }
    }
    fitting
}

/// The group of a rare word and the halves of two pairs.
pub open spec fn joined(sw: BitWord, x: (BitWord, BitWord), y: (BitWord, BitWord)) -> Seq<BitWord> {
    canonical(seq![sw, x.0, x.1, y.0, y.1])
}

/// Whether the group is made of the rare word and the halves of the two
/// pairs.
pub open spec fn joins(
    set: Seq<BitWord>,
    sw: BitWord,
    x: (BitWord, BitWord),
    y: (BitWord, BitWord),
) -> bool {
    set == joined(sw, x, y)
}

/// The groups of the rare word, the halves `x` and each of the first `n`
/// other splits in turn.
pub open spec fn row(
    sw: BitWord,
    x: (BitWord, BitWord),
    others: Seq<(BitWord, BitWord)>,
    n: int,
) -> Seq<Seq<BitWord>>
    decreases n,
{
    if n <= 0 {
        Seq::empty()
    } else {
        row(sw, x, others, n - 1).push(joined(sw, x, others[n - 1]))
    }
}

/// The groups of the rare word, each of the first `n` splits of the one
/// pair in turn, and each split of the other.
pub open spec fn grid(
    sw: BitWord,
    halves: Seq<(BitWord, BitWord)>,
    others: Seq<(BitWord, BitWord)>,
    n: int,
) -> Seq<Seq<BitWord>>
    decreases n,
{
    if n <= 0 {
        Seq::empty()
    } else {
        grid(sw, halves, others, n - 1) + row(sw, halves[n - 1], others, others.len() as int)
    }
}

/// The five words as a group.
fn five(sw: BitWord, x: (BitWord, BitWord), y: (BitWord, BitWord)) -> (set: Vec<BitWord>)
    ensures
        set@ == joined(sw, x, y),
{
    let mut set: Vec<BitWord> = Vec::new();
    set.push(sw);
    set.push(x.0);
    set.push(x.1);
    set.push(y.0);
    set.push(y.1);
    let ghost unsorted = set@;
    sort_words(&mut set);
    proof {
        assert(unsorted =~= seq![sw, x.0, x.1, y.0, y.1]);
        lemma_canonical_unique(unsorted, set@);
    }
    set
}

/// The groups of a rare word, the halves of one pair and those of another
/// in each of its splits.
fn combine_one(sw: BitWord, x: (BitWord, BitWord), others: &Vec<(BitWord, BitWord)>) -> (found: Vec<
    Vec<BitWord>,
>)
    ensures
        groups(found@) == row(sw, x, others@, others@.len() as int),
        forall|set: Seq<BitWord>|
            groups(found@).contains(set) == exists|y: (BitWord, BitWord)|
                others@.contains(y) && #[trigger] joins(set, sw, x, y),
{
    let mut found: Vec<Vec<BitWord>> = Vec::new();
    let mut j: usize = 0;
    proof {
        assert(groups(found@) =~= row(sw, x, others@, 0));
    }
    while j < others.len()
        invariant
            j <= others@.len(),
            groups(found@) == row(sw, x, others@, j as int),
            forall|set: Seq<BitWord>|
                groups(found@).contains(set) == exists|y: (BitWord, BitWord)|
                    others@.take(j as int).contains(y) && #[trigger] joins(set, sw, x, y),
        decreases others@.len() - j,
    {
        let ghost before = found@;
        let ghost seen = others@.take(j as int);
        let ghost next = others@.take(j + 1);
        let hit = five(sw, x, others[j]);
        found.push(hit);
        proof {
            assert(groups(found@) =~= groups(before).push(hit@));
            assert(next =~= seen.push(others@[j as int]));
            assert forall|set: Seq<BitWord>|
                groups(found@).contains(set) == exists|y: (BitWord, BitWord)|
                    next.contains(y) && #[trigger] joins(set, sw, x, y) by {
                lemma_groups_push(before, hit, set);
                if groups(before).contains(set) {
                    let y = choose|y: (BitWord, BitWord)|
                        seen.contains(y) && #[trigger] joins(set, sw, x, y);
                    let m = choose|m: int| 0 <= m < seen.len() && seen[m] == y;
                    assert(next[m] == y);
                    assert(next.contains(y) && joins(set, sw, x, y));
                }
                if set == hit@ {
                    assert(next[j as int] == others@[j as int]);
                    assert(next.contains(others@[j as int]) && joins(set, sw, x, others@[j as int]));
                }
                if exists|y: (BitWord, BitWord)|
                    next.contains(y) && #[trigger] joins(set, sw, x, y) {
                    let y = choose|y: (BitWord, BitWord)|
                        next.contains(y) && #[trigger] joins(set, sw, x, y);
                    let m = choose|m: int| 0 <= m < next.len() && next[m] == y;
                    if m < j {
                        assert(seen[m] == y);
                        assert(seen.contains(y) && joins(set, sw, x, y));
                    }
                }
            }
        }
        j += 1;
    }
    proof {
        assert(others@.take(others@.len() as int) =~= others@);
    }
    found
}

/// The groups of a rare word and two pairs, in all the splits of both.
pub fn combine(sw: BitWord, halves: &Vec<(BitWord, BitWord)>, others: &Vec<(BitWord, BitWord)>) -> (found:
    Vec<Vec<BitWord>>)
    ensures
        groups(found@) == grid(sw, halves@, others@, halves@.len() as int),
        forall|set: Seq<BitWord>|
            groups(found@).contains(set) == exists|x: (BitWord, BitWord), y: (BitWord, BitWord)|
                halves@.contains(x) && others@.contains(y) && #[trigger] joins(set, sw, x, y),
{
    let mut found: Vec<Vec<BitWord>> = Vec::new();
    let mut i: usize = 0;
    proof {
        assert(groups(found@) =~= grid(sw, halves@, others@, 0));
    }
    while i < halves.len()
        invariant
            i <= halves@.len(),
            groups(found@) == grid(sw, halves@, others@, i as int),
            forall|set: Seq<BitWord>|
                groups(found@).contains(set) == exists|x: (BitWord, BitWord), y: (BitWord, BitWord)|
                    halves@.take(i as int).contains(x) && others@.contains(y) && #[trigger] joins(
                        set,
                        sw,
                        x,
                        y,
                    ),
        decreases halves@.len() - i,
    {
        let ghost before = found@;
        let ghost seen = halves@.take(i as int);
        let ghost next = halves@.take(i + 1);
        let mut more = combine_one(sw, halves[i], others);
        let ghost added = more@;
        found.append(&mut more);
        proof {
            assert(groups(found@) =~= groups(before) + groups(added));
            assert(next =~= seen.push(halves@[i as int]));
            assert forall|set: Seq<BitWord>|
                groups(found@).contains(set) == exists|x: (BitWord, BitWord), y: (BitWord, BitWord)|
                    next.contains(x) && others@.contains(y) && #[trigger] joins(set, sw, x, y) by {
                lemma_groups_append(before, added, set);
                if groups(before).contains(set) {
                    let (x, y) = choose|x: (BitWord, BitWord), y: (BitWord, BitWord)|
                        seen.contains(x) && others@.contains(y) && #[trigger] joins(set, sw, x, y);
                    let m = choose|m: int| 0 <= m < seen.len() && seen[m] == x;
                    assert(next[m] == x);
                    assert(next.contains(x) && others@.contains(y) && joins(set, sw, x, y));
                }
                if groups(added).contains(set) {
                    let y = choose|y: (BitWord, BitWord)|
                        others@.contains(y) && #[trigger] joins(set, sw, halves@[i as int], y);
                    assert(next[i as int] == halves@[i as int]);
                    assert(next.contains(halves@[i as int]) && others@.contains(y) && joins(
                        set,
                        sw,
                        halves@[i as int],
                        y,
                    ));
                }
                if exists|x: (BitWord, BitWord), y: (BitWord, BitWord)|
                    next.contains(x) && others@.contains(y) && #[trigger] joins(set, sw, x, y) {
                    let (x, y) = choose|x: (BitWord, BitWord), y: (BitWord, BitWord)|
                        next.contains(x) && others@.contains(y) && #[trigger] joins(set, sw, x, y);
                    let m = choose|m: int| 0 <= m < next.len() && next[m] == x;
                    if m < i {
                        assert(seen[m] == x);
                        assert(seen.contains(x) && others@.contains(y) && joins(set, sw, x, y));
                    } else {
                        assert(others@.contains(y) && joins(set, sw, halves@[i as int], y));
                    }
                }
            }
        }
        i += 1;
    }
    proof {
        assert(halves@.take(halves@.len() as int) =~= halves@);
    }
    found
}

/// Whether the group is made of the rare word, the two halves `x` of the
/// pair `p`, and two more words `y` of the list that share no letter with
/// these or with each other.
pub open spec fn makes(
    set: Seq<BitWord>,
    p: BitWord,
    sw: BitWord,
    x: (BitWord, BitWord),
    y: (BitWord, BitWord),
    words: Seq<BitWord>,
) -> bool {
    &&& words.contains(x.0) && words.contains(x.1) && splits(p, x.0, x.1)
    &&& words.contains(y.0) && words.contains(y.1) && y.0@.disjoint(y.1@)
    &&& y.0@.union(y.1@).disjoint(sw@.union(p@))
    &&& set == joined(sw, x, y)
}

/// Whether the splits of `halves` are all the splits of the pair into
/// words of the list.
pub open spec fn are_halves(halves: Seq<(BitWord, BitWord)>, p: BitWord, words: Seq<BitWord>) -> bool {
    forall|a: BitWord, b: BitWord|
        #[trigger] halves.contains((a, b)) == (words.contains(a) && words.contains(b) && splits(
            p,
            a,
            b,
        ))
}

/// Whether the set of pairs holds just the pairs of the list.
pub open spec fn holds_pairs(pairs: Set<BitWord>, words: Seq<BitWord>) -> bool {
    forall|e: BitWord| pairs.contains(e) == is_pair(e, words)
}

/// The groups of the rare word, the splits `halves` of one pair, and the
/// splits of each of the first `k` fitting pairs in turn.
pub open spec fn seeded(
    sw: BitWord,
    halves: Seq<(BitWord, BitWord)>,
    words: Seq<BitWord>,
    fitting: Seq<BitWord>,
    k: int,
) -> Seq<Seq<BitWord>>
    decreases k,
{
    if k <= 0 {
        Seq::empty()
    } else {
        seeded(sw, halves, words, fitting, k - 1) + grid(
            sw,
            halves,
            halves_of(fitting[k - 1], words, words.len() as int),
            halves.len() as int,
        )
    }
}

/// What [`with_seed`] returns: the groups of the rare word, the splits of
/// the pair and the splits of each pair that fits, pair by pair.
pub open spec fn groups_with(
    sw: BitWord,
    p: BitWord,
    halves: Seq<(BitWord, BitWord)>,
    words: Seq<BitWord>,
    pairs: Set<BitWord>,
) -> Seq<Seq<BitWord>> {
    let fitting = fitting_pairs(unused(sw@.union(p@)), pairs);
    seeded(sw, halves, words, fitting, fitting.len() as int)
}

/// The groups that hold the rare word and the halves of the pair `p`.
pub fn with_seed(
    sw: BitWord,
    p: BitWord,
    halves: &Vec<(BitWord, BitWord)>,
    words: &Vec<BitWord>,
    set: &WordSet,
    pairs: &WordSet,
    letters: &String,
) -> (found: Vec<Vec<BitWord>>)
    requires
        letters@.len() == 26,
        five_letter(words@),
        sw@.union(p@).len() == 15,
        sw@.union(p@).subset_of(set_int_range(0, 26)),
        forall|w: BitWord| set@.contains(w) == words@.contains(w),
        holds_pairs(pairs@, words@),
        are_halves(halves@, p, words@),
    ensures
        groups(found@) == groups_with(sw, p, halves@, words@, pairs@),
        forall|hit: Seq<BitWord>|
            groups(found@).contains(hit) == exists|x: (BitWord, BitWord), y: (BitWord, BitWord)|
                #[trigger] makes(hit, p, sw, x, y, words@),
{
    let fitting = completions(sw, p, pairs, letters);
    let mut found: Vec<Vec<BitWord>> = Vec::new();
    let mut k: usize = 0;
    proof {
        assert(groups(found@) =~= seeded(sw, halves@, words@, fitting@, 0));
    }
    while k < fitting.len()
        invariant
            k <= fitting@.len(),
            groups(found@) == seeded(sw, halves@, words@, fitting@, k as int),
            five_letter(words@),
            forall|w: BitWord| set@.contains(w) == words@.contains(w),
            are_halves(halves@, p, words@),
            forall|e: BitWord|
                fitting@.contains(e) == (pairs@.contains(e) && e@.len() == 10 && e@.subset_of(
                    set_int_range(0, 26),
                ) && e@.disjoint(sw@.union(p@))),
            forall|hit: Seq<BitWord>|
                groups(found@).contains(hit) == exists|x: (BitWord, BitWord), y: (BitWord, BitWord)|
                    halves@.contains(x) && words@.contains(y.0) && words@.contains(y.1)
                        && fitting@.take(k as int).contains(BitWord(y.0.0 | y.1.0)) && y.0@.disjoint(
                        y.1@,
                    ) && #[trigger] joins(hit, sw, x, y),
        decreases fitting@.len() - k,
    {
        let e = fitting[k];
        let ghost before = found@;
        let ghost seen = fitting@.take(k as int);
        let ghost next = fitting@.take(k + 1);
        assert(fitting@.contains(fitting@[k as int]));
        let others = words_in_pair(e, words, set);
        let mut more = combine(sw, halves, &others);
        let ghost added = more@;
        found.append(&mut more);
        proof {
            assert(groups(found@) =~= groups(before) + groups(added));
            assert(next =~= seen.push(e));
            assert forall|hit: Seq<BitWord>|
                groups(found@).contains(hit) == exists|x: (BitWord, BitWord), y: (BitWord, BitWord)|
                    halves@.contains(x) && words@.contains(y.0) && words@.contains(y.1)
                        && next.contains(BitWord(y.0.0 | y.1.0)) && y.0@.disjoint(y.1@)
                        && #[trigger] joins(hit, sw, x, y) by {
                lemma_groups_append(before, added, hit);
                if groups(before).contains(hit) {
                    let (x, y) = choose|x: (BitWord, BitWord), y: (BitWord, BitWord)|
                        halves@.contains(x) && words@.contains(y.0) && words@.contains(y.1)
                            && seen.contains(BitWord(y.0.0 | y.1.0)) && y.0@.disjoint(y.1@)
                            && #[trigger] joins(hit, sw, x, y);
                    let both = BitWord(y.0.0 | y.1.0);
                    let m = choose|m: int| 0 <= m < seen.len() && seen[m] == both;
                    assert(next[m] == both);
                    assert(halves@.contains(x) && words@.contains(y.0) && words@.contains(y.1)
                        && next.contains(BitWord(y.0.0 | y.1.0)) && y.0@.disjoint(y.1@) && joins(
                        hit,
                        sw,
                        x,
                        y,
                    ));
                }
                if groups(added).contains(hit) {
                    let (x, y) = choose|x: (BitWord, BitWord), y: (BitWord, BitWord)|
                        halves@.contains(x) && others@.contains(y) && #[trigger] joins(hit, sw, x, y);
                    assert(others@.contains((y.0, y.1)));
                    lemma_bit_set_union(y.0.0, y.1.0);
                    lemma_bit_set_injective(e.0, y.0.0 | y.1.0);
                    assert(next[k as int] == BitWord(y.0.0 | y.1.0));
                    assert(halves@.contains(x) && words@.contains(y.0) && words@.contains(y.1)
                        && next.contains(BitWord(y.0.0 | y.1.0)) && y.0@.disjoint(y.1@) && joins(
                        hit,
                        sw,
                        x,
                        y,
                    ));
                }
                if exists|x: (BitWord, BitWord), y: (BitWord, BitWord)|
                    halves@.contains(x) && words@.contains(y.0) && words@.contains(y.1)
                        && next.contains(BitWord(y.0.0 | y.1.0)) && y.0@.disjoint(y.1@)
                        && #[trigger] joins(hit, sw, x, y) {
                    let (x, y) = choose|x: (BitWord, BitWord), y: (BitWord, BitWord)|
                        halves@.contains(x) && words@.contains(y.0) && words@.contains(y.1)
                            && next.contains(BitWord(y.0.0 | y.1.0)) && y.0@.disjoint(y.1@)
                            && #[trigger] joins(hit, sw, x, y);
                    let both = BitWord(y.0.0 | y.1.0);
                    let m = choose|m: int| 0 <= m < next.len() && next[m] == both;
                    if m < k {
                        assert(seen[m] == both);
                        assert(halves@.contains(x) && words@.contains(y.0) && words@.contains(y.1)
                            && seen.contains(BitWord(y.0.0 | y.1.0)) && y.0@.disjoint(y.1@)
                            && joins(hit, sw, x, y));
                    } else {
                        lemma_bit_set_union(y.0.0, y.1.0);
                        assert(splits(e, y.0, y.1));
                        assert(others@.contains((y.0, y.1)));
                        assert(y == (y.0, y.1));
                        assert(halves@.contains(x) && others@.contains(y) && joins(hit, sw, x, y));
                    }
                }
            }
        }
        k += 1;
    }
    proof {
        assert(fitting@.take(fitting@.len() as int) =~= fitting@);
        assert forall|hit: Seq<BitWord>|
            groups(found@).contains(hit) == exists|x: (BitWord, BitWord), y: (BitWord, BitWord)|
                #[trigger] makes(hit, p, sw, x, y, words@) by {
            if groups(found@).contains(hit) {
                let (x, y) = choose|x: (BitWord, BitWord), y: (BitWord, BitWord)|
                    halves@.contains(x) && words@.contains(y.0) && words@.contains(y.1)
                        && fitting@.contains(BitWord(y.0.0 | y.1.0)) && y.0@.disjoint(y.1@)
                        && #[trigger] joins(hit, sw, x, y);
                lemma_bit_set_union(y.0.0, y.1.0);
                assert(halves@.contains((x.0, x.1)));
                assert(makes(hit, p, sw, x, y, words@));
            }
            if exists|x: (BitWord, BitWord), y: (BitWord, BitWord)|
                #[trigger] makes(hit, p, sw, x, y, words@) {
                let (x, y) = choose|x: (BitWord, BitWord), y: (BitWord, BitWord)|
                    #[trigger] makes(hit, p, sw, x, y, words@);
                let both = BitWord(y.0.0 | y.1.0);
                lemma_bit_set_union(y.0.0, y.1.0);
                assert(splits(both, y.0, y.1));
                assert(is_pair(both, words@));
                let i = choose|i: int| 0 <= i < words@.len() && words@[i] == y.0;
                let j = choose|j: int| 0 <= j < words@.len() && words@[j] == y.1;
                assert(words@[i]@.len() == 5 && words@[j]@.len() == 5);
                lemma_merge_count(y.0, y.1);
                assert(both@.subset_of(set_int_range(0, 26)));
                assert(fitting@.contains(both));
                assert(halves@.contains((x.0, x.1)));
                assert(x == (x.0, x.1));
                assert(halves@.contains(x) && words@.contains(y.0) && words@.contains(y.1)
                    && fitting@.contains(BitWord(y.0.0 | y.1.0)) && y.0@.disjoint(y.1@) && joins(
                    hit,
                    sw,
                    x,
                    y,
                ));
            }
        }
    }
    found
}

/// Whether the group is made of a rare word, the two halves of the pair
/// `p`, and two more words.
pub open spec fn made_from(set: Seq<BitWord>, p: BitWord, words: Seq<BitWord>, rare: Seq<BitWord>) -> bool {
    exists|sw: BitWord, x: (BitWord, BitWord), y: (BitWord, BitWord)|
        rare.contains(sw) && sw@.disjoint(p@) && #[trigger] makes(set, p, sw, x, y, words)
}

/// The groups of the pair `p` and each of the first `k` rare words in turn
/// that shares no letter with it.
pub open spec fn from_pair(
    p: BitWord,
    words: Seq<BitWord>,
    pairs: Set<BitWord>,
    rare: Seq<BitWord>,
    k: int,
) -> Seq<Seq<BitWord>>
    decreases k,
{
    if k <= 0 {
        Seq::empty()
    } else {
        let before = from_pair(p, words, pairs, rare, k - 1);
        let sw = rare[k - 1];
        if sw@.disjoint(p@) {
            before + groups_with(sw, p, halves_of(p, words, words.len() as int), words, pairs)
        } else {
            before
        }
    }
}

/// The groups that hold the halves of the pair `p`, a rare word and two
/// more words.
pub fn search_pair(
    p: BitWord,
    words: &Vec<BitWord>,
    set: &WordSet,
    rare: &Vec<BitWord>,
    pairs: &WordSet,
    letters: &String,
) -> (found: Vec<Vec<BitWord>>)
    requires
        letters@.len() == 26,
        five_letter(words@),
        five_letter(rare@),
        p@.len() == 10,
        p@.subset_of(set_int_range(0, 26)),
        forall|w: BitWord| set@.contains(w) == words@.contains(w),
        holds_pairs(pairs@, words@),
    ensures
        groups(found@) == from_pair(p, words@, pairs@, rare@, rare@.len() as int),
        forall|hit: Seq<BitWord>| groups(found@).contains(hit) == made_from(hit, p, words@, rare@),
{
    let halves = words_in_pair(p, words, set);
    let mut found: Vec<Vec<BitWord>> = Vec::new();
    let mut k: usize = 0;
    proof {
        assert(groups(found@) =~= from_pair(p, words@, pairs@, rare@, 0));
    }
    while k < rare.len()
        invariant
            k <= rare@.len(),
            halves@ == halves_of(p, words@, words@.len() as int),
            groups(found@) == from_pair(p, words@, pairs@, rare@, k as int),
            letters@.len() == 26,
            five_letter(words@),
            five_letter(rare@),
            p@.len() == 10,
            p@.subset_of(set_int_range(0, 26)),
            forall|w: BitWord| set@.contains(w) == words@.contains(w),
            holds_pairs(pairs@, words@),
            are_halves(halves@, p, words@),
            forall|hit: Seq<BitWord>|
                groups(found@).contains(hit) == made_from(hit, p, words@, rare@.take(k as int)),
        decreases rare@.len() - k,
    {
        let sw = rare[k];
        let ghost before = found@;
        let ghost seen = rare@.take(k as int);
        let ghost next = rare@.take(k + 1);
        let combined = sw.merge(&p);
        let free = combined.count() == 15;
        let ghost added: Seq<Vec<BitWord>> = Seq::empty();
        proof {
            assert(rare@[k as int]@.len() == 5);
            lemma_merge_count(sw, p);
            assert(free == sw@.disjoint(p@));
        }
        if free {
            let mut more = with_seed(sw, p, &halves, words, set, pairs, letters);
            proof {
                added = more@;
            }
            found.append(&mut more);
        }
        proof {
            assert(next =~= seen.push(sw));
            assert(found@ =~= before + added);
            assert(groups(found@) =~= groups(before) + groups(added));
            assert(!free ==> groups(added) =~= Seq::<Seq<BitWord>>::empty());
            assert(groups(before) + Seq::<Seq<BitWord>>::empty() =~= groups(before));
            assert forall|hit: Seq<BitWord>|
                groups(found@).contains(hit) == made_from(hit, p, words@, next) by {
                lemma_groups_append(before, added, hit);
                if groups(before).contains(hit) {
                    let (s0, x, y) = choose|
                        s0: BitWord,
                        x: (BitWord, BitWord),
                        y: (BitWord, BitWord),
                    |
                        seen.contains(s0) && s0@.disjoint(p@) && #[trigger] makes(
                            hit,
                            p,
                            s0,
                            x,
                            y,
                            words@,
                        );
                    let m = choose|m: int| 0 <= m < seen.len() && seen[m] == s0;
                    assert(next[m] == s0);
                    assert(next.contains(s0) && s0@.disjoint(p@) && makes(hit, p, s0, x, y, words@));
                }
                if groups(added).contains(hit) {
                    let (x, y) = choose|x: (BitWord, BitWord), y: (BitWord, BitWord)|
                        #[trigger] makes(hit, p, sw, x, y, words@);
                    assert(next[k as int] == sw);
                    assert(next.contains(sw) && sw@.disjoint(p@) && makes(hit, p, sw, x, y, words@));
                }
                if made_from(hit, p, words@, next) {
                    let (s0, x, y) = choose|
                        s0: BitWord,
                        x: (BitWord, BitWord),
                        y: (BitWord, BitWord),
                    |
                        next.contains(s0) && s0@.disjoint(p@) && #[trigger] makes(
                            hit,
                            p,
                            s0,
                            x,
                            y,
                            words@,
                        );
                    let m = choose|m: int| 0 <= m < next.len() && next[m] == s0;
                    if m < k {
                        assert(seen[m] == s0);
                        assert(seen.contains(s0) && s0@.disjoint(p@) && makes(
                            hit,
                            p,
                            s0,
                            x,
                            y,
                            words@,
                        ));
                    } else {
                        assert(makes(hit, p, sw, x, y, words@));
                    }
                }
            }
        }
        k += 1;
    }
    proof {
        assert(rare@.take(rare@.len() as int) =~= rare@);
    }
    found
}

/// A group made of a rare word, the halves of a pair and two more words is
/// a solution.
pub proof fn lemma_made_is_solution(
    hit: Seq<BitWord>,
    p: BitWord,
    words: Seq<BitWord>,
    rare: Seq<BitWord>,
)
    requires
        five_letter(words),
        forall|w: BitWord| rare.contains(w) ==> words.contains(w),
        made_from(hit, p, words, rare),
    ensures
        is_solution(hit, words, 5),
{
    let (sw, x, y) = choose|sw: BitWord, x: (BitWord, BitWord), y: (BitWord, BitWord)|
        rare.contains(sw) && sw@.disjoint(p@) && #[trigger] makes(hit, p, sw, x, y, words);
    let all = seq![sw, x.0, x.1, y.0, y.1];
    assert forall|k: int| 0 <= k < 5 implies words.contains(#[trigger] all[k]) && all[k]@.len()
        == 5 by {
        assert(words.contains(all[k]));
        let m = choose|m: int| 0 <= m < words.len() && words[m] == all[k];
        assert(words[m]@.len() == 5);
    }
    let (a, b, c, d) = (x.0, x.1, y.0, y.1);
    assert(sw@.disjoint(a@) && sw@.disjoint(b@) && a@.disjoint(b@));
    assert(c@.disjoint(d@));
    assert forall|w: BitWord| w == sw || w == a || w == b implies w@.disjoint(c@) && w@.disjoint(
        d@,
    ) by {
        assert(w@.subset_of(sw@.union(p@)));
        assert(c@.subset_of(c@.union(d@)));
        assert(d@.subset_of(c@.union(d@)));
    }
    assert forall|j: int, k: int| 0 <= j < k < 5 implies all[j]@.disjoint(all[k]@) by {
        if k >= 3 && j < 3 {
            assert(all[j] == sw || all[j] == a || all[j] == b);
        }
    }
    assert forall|j: int, k: int| 0 <= j < 5 && 0 <= k < 5 && j != k implies all[j] != all[k] by {
        if all[j] == all[k] {
            if j < k {
                assert(all[j]@.disjoint(all[k]@));
            } else {
                assert(all[k]@.disjoint(all[j]@));
            }
            assert(all[j]@ =~= Set::<int>::empty());
            assert(all[j]@.len() == 5);
        }
    }
    lemma_canonical_group(all);
    assert forall|k: int| 0 <= k < hit.len() implies words.contains(#[trigger] hit[k]) by {
        assert(hit.contains(hit[k]));
        assert(all.contains(hit[k]));
        let m = choose|m: int| 0 <= m < all.len() && all[m] == hit[k];
        assert(words.contains(all[m]));
    }
}

/// A solution with a rare word is made of that word, the halves of a pair
/// and two more words.
pub proof fn lemma_solution_is_made(
    hit: Seq<BitWord>,
    at: int,
    words: Seq<BitWord>,
    rare: Seq<BitWord>,
) -> (p: BitWord)
    requires
        five_letter(words),
        is_solution(hit, words, 5),
        0 <= at < 5,
        rare.contains(hit[at]),
    ensures
        is_pair(p, words),
        made_from(hit, p, words, rare),
{
    let sw = hit[at];
    let others = hit.remove(at);
    assert forall|k: int| 0 <= k < 4 implies others[k] == (if k < at {
        hit[k]
    } else {
        hit[k + 1]
    }) by {}
    let x = (others[0], others[1]);
    let y = (others[2], others[3]);
    let p = BitWord(x.0.0 | x.1.0);
    lemma_bit_set_union(x.0.0, x.1.0);
    let all = seq![sw, x.0, x.1, y.0, y.1];
    assert forall|k: int| 1 <= k < 5 implies exists|m: int|
        0 <= m < 5 && m != at && hit[m] == #[trigger] all[k] by {
        let m = if k - 1 < at {
            k - 1
        } else {
            k
        };
        assert(hit[m] == all[k]);
    }
    assert forall|j: int, k: int| 0 <= j < 5 && 0 <= k < 5 && j != k implies hit[j]@.disjoint(
        hit[k]@,
    ) && hit[j] != hit[k] by {
        if j < k {
            assert(hit[j]@.disjoint(hit[k]@));
            assert(hit[j].0 < hit[k].0);
        } else {
            assert(hit[k]@.disjoint(hit[j]@));
            assert(hit[k].0 < hit[j].0);
        }
    }
    assert forall|k: int| 0 <= k < 5 implies words.contains(#[trigger] hit[k]) by {}
    assert(words.contains(x.0) && words.contains(x.1) && words.contains(y.0) && words.contains(
        y.1,
    ));
    assert(splits(p, x.0, x.1));
    assert(is_pair(p, words));
    let m0 = if 0 < at { 0int } else { 1int };
    let m1 = if 1 < at { 1int } else { 2int };
    let m2 = if 2 < at { 2int } else { 3int };
    let m3 = if 3 < at { 3int } else { 4int };
    assert(x.0 == hit[m0] && x.1 == hit[m1] && y.0 == hit[m2] && y.1 == hit[m3]);
    assert(hit[at]@.disjoint(hit[m0]@) && hit[at]@.disjoint(hit[m1]@));
    assert(hit[m2]@.disjoint(hit[at]@) && hit[m2]@.disjoint(hit[m0]@) && hit[m2]@.disjoint(
        hit[m1]@,
    ));
    assert(hit[m3]@.disjoint(hit[at]@) && hit[m3]@.disjoint(hit[m0]@) && hit[m3]@.disjoint(
        hit[m1]@,
    ));
    assert(hit[m0]@.disjoint(hit[m1]@) && hit[m2]@.disjoint(hit[m3]@));
    assert(sw@.disjoint(p@));
    assert(y.0@.disjoint(y.1@));
    assert(y.0@.union(y.1@).disjoint(sw@.union(p@)));
    assert forall|j: int, k: int| 0 <= j < 5 && 0 <= k < 5 && j != k implies all[j] != all[k] by {}
    lemma_canonical_group(all);
    assert forall|w: BitWord| canonical(all).contains(w) == hit.contains(w) by {
        if all.contains(w) {
            let k = choose|k: int| 0 <= k < 5 && all[k] == w;
            if k == 0 {
                assert(hit[at] == w);
            } else {
                let m = if k - 1 < at {
                    k - 1
                } else {
                    k
                };
                assert(hit[m] == w);
            }
        }
        if hit.contains(w) {
            let m = choose|m: int| 0 <= m < 5 && hit[m] == w;
            if m == at {
                assert(all[0] == w);
            } else {
                let k = if m < at {
                    m + 1
                } else {
                    m
                };
                assert(all[k] == w);
            }
        }
    }
    lemma_ascending_unique(canonical(all), hit);
    assert(makes(hit, p, sw, x, y, words));
    p
}

/// Whether every pair of the list has ten letters, all among the 26.
pub open spec fn ten_letter(pairs: Seq<BitWord>) -> bool {
    forall|k: int|
        0 <= k < pairs.len() ==> (#[trigger] pairs[k])@.len() == 10 && pairs[k]@.subset_of(
            set_int_range(0, 26),
        )
}

/// The groups that hold the halves of the pair at position `i`.
pub fn search_at(
    pairs: &Vec<BitWord>,
    i: usize,
    words: &Vec<BitWord>,
    set: &WordSet,
    rare: &Vec<BitWord>,
    pair_set: &WordSet,
    letters: &String,
) -> (found: Vec<Vec<BitWord>>)
    requires
        i < pairs@.len(),
        letters@.len() == 26,
        five_letter(words@),
        five_letter(rare@),
        ten_letter(pairs@),
        forall|w: BitWord| set@.contains(w) == words@.contains(w),
        holds_pairs(pair_set@, words@),
    ensures
        groups(found@) == from_pair(
            pairs@[i as int],
            words@,
            pair_set@,
            rare@,
            rare@.len() as int,
        ),
        forall|hit: Seq<BitWord>|
            groups(found@).contains(hit) == made_from(hit, pairs@[i as int], words@, rare@),
{
    search_pair(pairs[i], words, set, rare, pair_set, letters)
}

/// rayon's parallel `map` over the positions of the pairs, collected into
/// a `Vec`: the result holds, at the place of each pair, what [`search_at`]
/// returns for it.
#[verifier::external_body]
fn par_solutions(
    pairs: &Vec<BitWord>,
    words: &Vec<BitWord>,
    set: &WordSet,
    rare: &Vec<BitWord>,
    pair_set: &WordSet,
    letters: &String,
) -> (parts: Vec<Vec<Vec<BitWord>>>)
    requires
        letters@.len() == 26,
        five_letter(words@),
        five_letter(rare@),
        ten_letter(pairs@),
        forall|w: BitWord| set@.contains(w) == words@.contains(w),
        holds_pairs(pair_set@, words@),
    ensures
        parts@.len() == pairs@.len(),
        forall|i: int|
            0 <= i < parts@.len() ==> groups((#[trigger] parts@[i])@) == from_pair(
                pairs@[i],
                words@,
                pair_set@,
                rare@,
                rare@.len() as int,
            ),
        forall|i: int, hit: Seq<BitWord>|
            0 <= i < parts@.len() ==> #[trigger] groups(parts@[i]@).contains(hit) == made_from(
                hit,
                pairs@[i],
                words@,
                rare@,
            ),
{
    (0..pairs.len()).into_par_iter().map(
        |i| search_at(pairs, i, words, set, rare, pair_set, letters),
    ).collect()
}

/// The groups of each of the first `k` pairs in turn.
pub open spec fn from_pairs(
    pairs: Seq<BitWord>,
    words: Seq<BitWord>,
    pair_set: Set<BitWord>,
    rare: Seq<BitWord>,
    k: int,
) -> Seq<Seq<BitWord>>
    decreases k,
{
    if k <= 0 {
        Seq::empty()
    } else {
        from_pairs(pairs, words, pair_set, rare, k - 1) + from_pair(
            pairs[k - 1],
            words,
            pair_set,
            rare,
            rare.len() as int,
        )
    }
}

/// The groups made of a rare word, the halves of one of the pairs and two
/// more words; a group comes once for each way to make it.
pub fn search_pairs(
    pairs: &Vec<BitWord>,
    words: &Vec<BitWord>,
    set: &WordSet,
    rare: &Vec<BitWord>,
    pair_set: &WordSet,
    letters: &String,
) -> (found: Vec<Vec<BitWord>>)
    requires
        letters@.len() == 26,
        five_letter(words@),
        five_letter(rare@),
        ten_letter(pairs@),
        forall|w: BitWord| set@.contains(w) == words@.contains(w),
        holds_pairs(pair_set@, words@),
    ensures
        groups(found@) == from_pairs(pairs@, words@, pair_set@, rare@, pairs@.len() as int),
        forall|hit: Seq<BitWord>|
            groups(found@).contains(hit) == exists|p: BitWord|
                pairs@.contains(p) && #[trigger] made_from(hit, p, words@, rare@),
{
    let mut parts = par_solutions(pairs, words, set, rare, pair_set, letters);
    let mut found: Vec<Vec<BitWord>> = Vec::new();
    let mut i: usize = 0;
    proof {
        assert(groups(found@) =~= from_pairs(pairs@, words@, pair_set@, rare@, 0));
    }
    while i < parts.len()
        invariant
            i <= parts@.len(),
            parts@.len() == pairs@.len(),
            groups(found@) == from_pairs(pairs@, words@, pair_set@, rare@, i as int),
            forall|k: int|
                i <= k < parts@.len() ==> groups((#[trigger] parts@[k])@) == from_pair(
                    pairs@[k],
                    words@,
                    pair_set@,
                    rare@,
                    rare@.len() as int,
                ),
            forall|k: int, hit: Seq<BitWord>|
                i <= k < parts@.len() ==> #[trigger] groups(parts@[k]@).contains(hit) == made_from(
                    hit,
                    pairs@[k],
                    words@,
                    rare@,
                ),
            forall|hit: Seq<BitWord>|
                groups(found@).contains(hit) == exists|p: BitWord|
                    pairs@.take(i as int).contains(p) && #[trigger] made_from(hit, p, words@, rare@),
        decreases parts@.len() - i,
    {
        let ghost before = found@;
        let ghost added = parts@[i as int]@;
        let ghost rest = parts@;
        let ghost seen = pairs@.take(i as int);
        let ghost next = pairs@.take(i + 1);
        let mut part: Vec<Vec<BitWord>> = Vec::new();
        std::mem::swap(&mut part, &mut parts[i]);
        found.append(&mut part);
        proof {
            assert(next =~= seen.push(pairs@[i as int]));
            assert(found@ =~= before + added);
            assert(groups(found@) =~= groups(before) + groups(added));
            assert forall|k: int| i + 1 <= k < parts@.len() implies groups((#[trigger] parts@[k])@)
                == from_pair(pairs@[k], words@, pair_set@, rare@, rare@.len() as int) by {
                assert(parts@[k] == rest[k]);
            }
            assert forall|k: int, hit: Seq<BitWord>| i + 1 <= k < parts@.len() implies #[trigger] groups(
                parts@[k]@,
            ).contains(hit) == made_from(hit, pairs@[k], words@, rare@) by {
                assert(parts@[k] == rest[k]);
                assert(groups(rest[k]@).contains(hit) == made_from(hit, pairs@[k], words@, rare@));
            }
            assert forall|hit: Seq<BitWord>|
                groups(found@).contains(hit) == exists|p: BitWord|
                    next.contains(p) && #[trigger] made_from(hit, p, words@, rare@) by {
                lemma_groups_append(before, added, hit);
                assert(groups(rest[i as int]@).contains(hit) == made_from(
                    hit,
                    pairs@[i as int],
                    words@,
                    rare@,
                ));
                if groups(before).contains(hit) {
                    let p = choose|p: BitWord|
                        seen.contains(p) && #[trigger] made_from(hit, p, words@, rare@);
                    let m = choose|m: int| 0 <= m < seen.len() && seen[m] == p;
                    assert(next[m] == p);
                    assert(next.contains(p) && made_from(hit, p, words@, rare@));
                }
                if groups(added).contains(hit) {
                    assert(next[i as int] == pairs@[i as int]);
                    assert(next.contains(pairs@[i as int]) && made_from(
                        hit,
                        pairs@[i as int],
                        words@,
                        rare@,
                    ));
                }
                if exists|p: BitWord|
                    next.contains(p) && #[trigger] made_from(hit, p, words@, rare@) {
                    let p = choose|p: BitWord|
                        next.contains(p) && #[trigger] made_from(hit, p, words@, rare@);
                    let m = choose|m: int| 0 <= m < next.len() && next[m] == p;
                    if m < i {
                        assert(seen[m] == p);
                        assert(seen.contains(p) && made_from(hit, p, words@, rare@));
                    }
                }
            }
        }
        i += 1;
    }
    proof {
        assert(pairs@.take(pairs@.len() as int) =~= pairs@);
    }
    found
}

/// All groups of five words of five letters among the lines, no two words
/// of a group with a letter in common: what [`crate::gigo::solve`] finds
/// for five words of five letters, found by way of the pairs.
pub fn solve(lines: &Vec<String>) -> (found: Vec<Vec<BitWord>>)
    ensures
        all_solutions(groups(found@), lines@, 5, 5),
{
    let letters = alphabet();
    let words = prepare_par(lines, &letters, WORD_LENGTH);
    proof {
        assert forall|k: int| 0 <= k < words@.len() implies (#[trigger] words@[k])@.len() == 5
            && words@[k]@.subset_of(set_int_range(0, 26)) by {
            assert(words@.contains(words@[k]));
            lemma_dictionary_word(words@, lines@, 5, words@[k]);
        }
    }
    let set = WordSet::new(&words);
    let buckets = par_buckets(&words, 26);
    let order = rank_letters(&buckets);
    let rare = rare_words(&buckets, order[0], order[1]);
    let pairs = all_pairs(&words);
    let pair_set = WordSet::new(&pairs);
    proof {
        assert forall|w: BitWord| rare@.contains(w) == (words@.contains(w) && is_seed(
            w,
            order@,
        )) by {
            lemma_holding(words@, order@[0] as int, w);
            lemma_holding(words@, order@[1] as int, w);
            if is_seed(w, order@) {
                let r = choose|r: int|
                    0 <= r < 2 && r < order@.len() && w@.contains(#[trigger] order@[r] as int);
                assert(w@.contains(order@[r] as int));
            }
            if words@.contains(w) && w@.contains(order@[0] as int) {
                assert(is_seed(w, order@));
            }
            if words@.contains(w) && w@.contains(order@[1] as int) {
                assert(is_seed(w, order@));
            }
        }
        assert forall|k: int| 0 <= k < rare@.len() implies (#[trigger] rare@[k])@.len() == 5
            && rare@[k]@.subset_of(set_int_range(0, 26)) by {
            assert(rare@.contains(rare@[k]));
            lemma_dictionary_word(words@, lines@, 5, rare@[k]);
        }
        assert forall|k: int| 0 <= k < pairs@.len() implies (#[trigger] pairs@[k])@.len() == 10
            && pairs@[k]@.subset_of(set_int_range(0, 26)) by {
            let p = pairs@[k];
            assert(pairs@.contains(p));
            assert(is_pair(p, words@));
            let (a, b) = choose|a: BitWord, b: BitWord|
                words@.contains(a) && words@.contains(b) && #[trigger] splits(p, a, b);
            lemma_dictionary_word(words@, lines@, 5, a);
            lemma_dictionary_word(words@, lines@, 5, b);
            lemma_merge_count(a, b);
        }
    }
    let mut found = search_pairs(&pairs, &words, &set, &rare, &pair_set, &letters);
    proof {
        assert forall|hit: Seq<BitWord>| groups(found@).contains(hit) == solves(hit, lines@, 5, 5) by {
            lemma_solution_of_dictionary(hit, words@, lines@, 5, 5);
            if groups(found@).contains(hit) {
                let p = choose|p: BitWord|
                    pairs@.contains(p) && #[trigger] made_from(hit, p, words@, rare@);
                lemma_made_is_solution(hit, p, words@, rare@);
            }
            if is_solution(hit, words@, 5) {
                assert forall|k: int| 0 <= k < hit.len() implies (#[trigger] hit[k])@.len() == 5
                    && hit[k]@.subset_of(set_int_range(0, 26)) by {
                    assert(words@.contains(hit[k]));
                    lemma_dictionary_word(words@, lines@, 5, hit[k]);
                }
                lemma_seed_in_every_solution(hit, order@, 5);
                let at = choose|at: int| 0 <= at < hit.len() && is_seed(#[trigger] hit[at], order@);
                assert(words@.contains(hit[at]));
                let p = lemma_solution_is_made(hit, at, words@, rare@);
                assert(pairs@.contains(p) && made_from(hit, p, words@, rare@));
            }
        }
    }
    let ghost unsorted = found@;
    sort_sets(&mut found);
    proof {
        unsorted.to_multiset_ensures();
        found@.to_multiset_ensures();
        assert forall|hit: Seq<BitWord>|
            groups(found@).contains(hit) == groups(unsorted).contains(hit) by {
            if groups(found@).contains(hit) {
                let k = choose|k: int| 0 <= k < found@.len() && groups(found@)[k] == hit;
                assert(found@.contains(found@[k]));
                assert(found@.to_multiset().count(found@[k]) > 0);
                assert(unsorted.contains(found@[k]));
                let m = choose|m: int| 0 <= m < unsorted.len() && unsorted[m] == found@[k];
                assert(groups(unsorted)[m] == hit);
            }
            if groups(unsorted).contains(hit) {
                let k = choose|k: int| 0 <= k < unsorted.len() && groups(unsorted)[k] == hit;
                assert(unsorted.contains(unsorted[k]));
                assert(unsorted.to_multiset().count(unsorted[k]) > 0);
                assert(found@.contains(unsorted[k]));
                let m = choose|m: int| 0 <= m < found@.len() && found@[m] == unsorted[k];
                assert(groups(found@)[m] == hit);
            }
        }
    }
    let unique = dedup_sets(&found);
    proof {
        assert forall|hit: Seq<BitWord>| groups(unique@).contains(hit) == solves(hit, lines@, 5, 5) by {
            assert(groups(unique@).contains(hit) == groups(found@).contains(hit));
            assert(groups(found@).contains(hit) == groups(unsorted).contains(hit));
        }
    }
    unique
}

} // verus!
