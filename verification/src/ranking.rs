//! Letters ranked by how few words hold them, and the words ordered by the
//! rarest letter that each of them holds.

use crate::bit_word::BitWord;
use rayon::iter::{IntoParallelIterator, ParallelIterator};
use vstd::prelude::*;

verus! {

/// The words that hold the letter, in the order of the list.
pub open spec fn holding(words: Seq<BitWord>, letter: int) -> Seq<BitWord>
    decreases words.len(),
{
    if words.len() == 0 {
        Seq::empty()
    } else {
        let before = holding(words.drop_last(), letter);
        if words.last()@.contains(letter) {
            before.push(words.last())
        } else {
            before
        }
    }
}

/// The words that hold a letter are the words of the list with that letter.
pub proof fn lemma_holding(words: Seq<BitWord>, letter: int, w: BitWord)
    ensures
        holding(words, letter).contains(w) == (words.contains(w) && w@.contains(letter)),
    decreases words.len(),
{
    if words.len() > 0 {
        let shorter = words.drop_last();
        let before = holding(shorter, letter);
        let now = holding(words, letter);
        lemma_holding(shorter, letter, w);
        if now.contains(w) {
            let k = choose|k: int| 0 <= k < now.len() && now[k] == w;
            if k < before.len() {
                assert(before[k] == w);
                assert(before.contains(w));
                let m = choose|m: int| 0 <= m < shorter.len() && shorter[m] == w;
                assert(words[m] == w);
            } else {
                assert(words[words.len() - 1] == w);
            }
        }
        if words.contains(w) && w@.contains(letter) {
            let m = choose|m: int| 0 <= m < words.len() && words[m] == w;
            if m < shorter.len() {
                assert(shorter[m] == w);
                assert(shorter.contains(w));
                let k = choose|k: int| 0 <= k < before.len() && before[k] == w;
                assert(now[k] == w);
            } else {
                assert(now[now.len() - 1] == w);
            }
        }
    }
}

/// Whether `buckets` holds, for each of the first letters of the alphabet,
/// the words with that letter.
pub open spec fn are_buckets(buckets: Seq<Vec<BitWord>>, words: Seq<BitWord>) -> bool {
    forall|i: int| 0 <= i < buckets.len() ==> (#[trigger] buckets[i])@ == holding(words, i)
}

/// Whether letter `a` comes before letter `b` in the ranking: it is in
/// fewer words, or in as many and earlier in the alphabet.
pub open spec fn rarer(buckets: Seq<Vec<BitWord>>, a: int, b: int) -> bool {
    buckets[a]@.len() < buckets[b]@.len() || (buckets[a]@.len() == buckets[b]@.len() && a < b)
}

/// Whether `order` ranks the first `n` letters: each of them once, the
/// rarest first.
pub open spec fn ranks(order: Seq<u32>, buckets: Seq<Vec<BitWord>>, n: int) -> bool {
    &&& order.len() == n
    &&& order.no_duplicates()
    &&& forall|k: int| 0 <= k < order.len() ==> (#[trigger] order[k]) < n
    &&& forall|j: int, k: int|
        0 <= j < k < order.len() ==> rarer(buckets, #[trigger] order[j] as int, #[trigger] order[k] as int)
}

/// The words of the list that hold the letter.
pub fn bucket(words: &Vec<BitWord>, letter: u32) -> (held: Vec<BitWord>)
    ensures
        held@ == holding(words@, letter as int),
{
    let mut held: Vec<BitWord> = Vec::new();
    let mut i: usize = 0;
    while i < words.len()
        invariant
            i <= words@.len(),
            held@ == holding(words@.take(i as int), letter as int),
        decreases words@.len() - i,
    {
        proof {
            assert(words@.take(i + 1).drop_last() =~= words@.take(i as int));
        }
        if words[i].contains(letter) {
            held.push(words[i]);
        }
        i += 1;
    }
    proof {
        assert(words@.take(words@.len() as int) =~= words@);
    }
    held
}

/// rayon's parallel `map` over a range of letters, collected into a `Vec`:
/// the result holds, at the place of each letter, what [`bucket`] returns
/// for it. rayon keeps the order of a range when it collects into a `Vec`.
#[verifier::external_body]
pub(crate) fn par_buckets(words: &Vec<BitWord>, letters: u32) -> (buckets: Vec<Vec<BitWord>>)
    ensures
        buckets@.len() == letters,
        are_buckets(buckets@, words@),
{
    (0..letters).into_par_iter().map(|letter| bucket(words, letter)).collect()
}

/// The letters in ascending order of the number of words that hold them;
/// of two letters in equally many words, the earlier in the alphabet comes
/// first.
pub fn rank_letters(buckets: &Vec<Vec<BitWord>>) -> (order: Vec<u32>)
    requires
        buckets@.len() <= u32::MAX,
    ensures
        ranks(order@, buckets@, buckets@.len() as int),
{
    let mut order: Vec<u32> = Vec::new();
    let mut letter: u32 = 0;
    while (letter as usize) < buckets.len()
        invariant
            letter <= buckets@.len() <= u32::MAX,
            ranks(order@, buckets@, letter as int),
        decreases buckets@.len() - letter,
    {
        let size = buckets[letter as usize].len();
        let mut at: usize = 0;
        while at < order.len() && buckets[order[at] as usize].len() <= size
            invariant
                at <= order@.len(),
                letter < buckets@.len(),
                ranks(order@, buckets@, letter as int),
                size == buckets@[letter as int]@.len(),
                forall|j: int| 0 <= j < at ==> buckets@[order@[j] as int]@.len() <= size,
            decreases order@.len() - at,
        {
            at += 1;
        }
        let ghost before = order@;
        order.insert(at, letter);
        proof {
            assert forall|k: int| 0 <= k < order@.len() implies order@[k] == (if k < at {
                before[k]
            } else if k == at {
                letter
            } else {
                before[k - 1]
            }) by {}
            assert forall|j: int, k: int|
                0 <= j < order@.len() && 0 <= k < order@.len() && j != k implies order@[j]
                != order@[k] by {
                let a = if j < at { j } else { j - 1 };
                let b = if k < at { k } else { k - 1 };
                if j != at && k != at {
                    assert(before[a] != before[b]);
                }
            }
            assert forall|j: int, k: int| 0 <= j < k < order@.len() implies rarer(
                buckets@,
                #[trigger] order@[j] as int,
                #[trigger] order@[k] as int,
            ) by {
                let a = if j < at { j } else { j - 1 };
                let b = if k < at { k } else { k - 1 };
                if j == at {
                    // what follows the new letter is in more words
                    assert(rarer(buckets@, before[at as int] as int, before[b] as int) || at == b);
                } else if k == at {
                    assert(buckets@[before[a] as int]@.len() <= size);
                } else {
                    assert(rarer(buckets@, before[a] as int, before[b] as int));
                }
            }
        }
        letter += 1;
    }
    order
}

/// Whether `r` is the rank of the rarest letter of the word: the first
/// place of the ranking whose letter the word holds, or the number of
/// letters if it holds none.
pub open spec fn is_rarest(w: BitWord, order: Seq<u32>, r: int) -> bool {
    &&& 0 <= r <= order.len()
    &&& r < order.len() ==> w@.contains(order[r] as int)
    &&& forall|j: int| 0 <= j < r ==> !w@.contains(#[trigger] order[j] as int)
}

/// Whether the word holds one of the two rarest letters.
pub open spec fn is_seed(w: BitWord, order: Seq<u32>) -> bool {
    exists|r: int| 0 <= r < 2 && r < order.len() && w@.contains(#[trigger] order[r] as int)
}

/// The rank of the rarest letter of the word.
pub fn rarest_letter(w: &BitWord, order: &Vec<u32>) -> (r: u32)
    requires
        order@.len() <= u32::MAX,
    ensures
        is_rarest(*w, order@, r as int),
{
    let mut r: u32 = 0;
    while (r as usize) < order.len()
        invariant
            r <= order@.len() <= u32::MAX,
            forall|j: int| 0 <= j < r ==> !w@.contains(#[trigger] order@[j] as int),
        decreases order@.len() - r,
    {
        if w.contains(order[r as usize]) {
            return r;
        }
        r += 1;
    }
    r
}

/// The words that are paired with the rank, in the order of the list.
pub open spec fn of_rank(keyed: Seq<(BitWord, u32)>, rank: u32) -> Seq<BitWord>
    decreases keyed.len(),
{
    if keyed.len() == 0 {
        Seq::empty()
    } else {
        let before = of_rank(keyed.drop_last(), rank);
        if keyed.last().1 == rank {
            before.push(keyed.last().0)
        } else {
            before
        }
    }
}

/// The words whose rarest letter has the rank, in the order of the list.
pub open spec fn rank_class(words: Seq<BitWord>, order: Seq<u32>, rank: int) -> Seq<BitWord>
    decreases words.len(),
{
    if words.len() == 0 {
        Seq::empty()
    } else {
        let before = rank_class(words.drop_last(), order, rank);
        if is_rarest(words.last(), order, rank) {
            before.push(words.last())
        } else {
            before
        }
    }
}

/// Where each word is paired with the rank of its rarest letter, the words
/// paired with a rank are those whose rarest letter has it.
proof fn lemma_of_rank(keyed: Seq<(BitWord, u32)>, words: Seq<BitWord>, order: Seq<u32>, rank: int)
    requires
        words.len() == keyed.len(),
        forall|k: int| 0 <= k < keyed.len() ==> (#[trigger] keyed[k]).0 == words[k],
        forall|k: int| 0 <= k < keyed.len() ==> is_rarest(keyed[k].0, order, (#[trigger] keyed[k]).1 as int),
    ensures
        0 <= rank <= u32::MAX ==> rank_class(words, order, rank) == of_rank(keyed, rank as u32),
        !(0 <= rank <= u32::MAX) ==> rank_class(words, order, rank) == Seq::<BitWord>::empty(),
    decreases keyed.len(),
{
    if keyed.len() > 0 {
        let fewer = keyed.drop_last();
        let shorter = words.drop_last();
        assert forall|k: int| 0 <= k < fewer.len() implies (#[trigger] fewer[k]).0
            == shorter[k] && is_rarest(fewer[k].0, order, fewer[k].1 as int) by {
            assert(fewer[k] == keyed[k]);
        }
        lemma_of_rank(fewer, shorter, order, rank);
        let last = keyed[keyed.len() - 1];
        assert(last.0 == words.last());
        let held = last.1 as int;
        assert(is_rarest(last.0, order, held));
        if is_rarest(words.last(), order, rank) {
            // a word has one rarest letter
            if rank < held {
                assert(!last.0@.contains(order[rank] as int));
            }
            if held < rank {
                assert(!last.0@.contains(order[held] as int));
            }
        }
    }
}

/// `<[T]>::sort_by_key` of std, with the rank as key: the same pairs, each
/// as often as before, in ascending order of their ranks, and those of one
/// rank in the order in which they stood.
#[verifier::external_body]
fn sort_by_rank(keyed: &mut Vec<(BitWord, u32)>)
    ensures
        final(keyed)@.to_multiset() == old(keyed)@.to_multiset(),
        forall|i: int, j: int|
            0 <= i < j < final(keyed)@.len() ==> final(keyed)@[i].1 <= final(keyed)@[j].1,
        forall|rank: u32| of_rank(final(keyed)@, rank) == of_rank(old(keyed)@, rank),
{
    keyed.sort_by_key(|pair| pair.1);
}

/// The words in ascending order of the rank of their rarest letter, and the
/// number of seeds: the words that hold one of the two rarest letters come
/// first, and `seeds` is how many they are. Words of the same rank stay in
/// the order in which they came.
pub fn by_rarity(words: &Vec<BitWord>, order: &Vec<u32>) -> (r: (Vec<BitWord>, usize))
    requires
        order@.len() <= u32::MAX,
        words@.no_duplicates(),
    ensures
        r.0@.no_duplicates(),
        forall|w: BitWord| r.0@.contains(w) == words@.contains(w),
        r.1 <= r.0@.len(),
        forall|k: int| 0 <= k < r.0@.len() ==> is_seed(#[trigger] r.0@[k], order@) == (k < r.1),
        forall|i: int, j: int, a: int, b: int|
            0 <= i < j < r.0@.len() && #[trigger] is_rarest(r.0@[i], order@, a) && #[trigger] is_rarest(
                r.0@[j],
                order@,
                b,
            ) ==> a <= b,
        forall|rank: int| rank_class(r.0@, order@, rank) == rank_class(words@, order@, rank),
{
    let mut keyed: Vec<(BitWord, u32)> = Vec::new();
    let mut i: usize = 0;
    while i < words.len()
        invariant
            i <= words@.len(),
            order@.len() <= u32::MAX,
            keyed@.len() == i,
            forall|k: int| 0 <= k < i ==> (#[trigger] keyed@[k]).0 == words@[k],
            forall|k: int| 0 <= k < i ==> is_rarest(keyed@[k].0, order@, (#[trigger] keyed@[k]).1 as int),
        decreases words@.len() - i,
    {
        let rank = rarest_letter(&words[i], order);
        keyed.push((words[i], rank));
        i += 1;
    }
    let ghost unsorted = keyed@;
    proof {
        assert forall|j: int, k: int|
            0 <= j < unsorted.len() && 0 <= k < unsorted.len() && j != k implies unsorted[j]
            != unsorted[k] by {
            assert(unsorted[j].0 == words@[j]);
            assert(unsorted[k].0 == words@[k]);
        }
    }
    sort_by_rank(&mut keyed);
    proof {
        unsorted.to_multiset_ensures();
        keyed@.to_multiset_ensures();
        unsorted.lemma_multiset_has_no_duplicates();
        keyed@.lemma_multiset_has_no_duplicates_conv();
        assert forall|k: int| 0 <= k < keyed@.len() implies is_rarest(
            keyed@[k].0,
            order@,
            (#[trigger] keyed@[k]).1 as int,
        ) && words@.contains(keyed@[k].0) by {
            assert(keyed@.contains(keyed@[k]));
            assert(keyed@.to_multiset().count(keyed@[k]) > 0);
            assert(unsorted.contains(keyed@[k]));
            let m = choose|m: int| 0 <= m < unsorted.len() && unsorted[m] == keyed@[k];
            assert(unsorted[m].0 == words@[m]);
        }
    }
    let mut sorted: Vec<BitWord> = Vec::new();
    let mut seeds: usize = 0;
    let mut k: usize = 0;
    while k < keyed.len()
        invariant
            k <= keyed@.len(),
            sorted@.len() == k,
            seeds <= k,
            forall|j: int| 0 <= j < k ==> #[trigger] sorted@[j] == keyed@[j].0,
            forall|j: int|
                0 <= j < k ==> (keyed@[j].1 < 2 && keyed@[j].1 < order@.len()) == (j < seeds),
            forall|i: int, j: int| 0 <= i < j < keyed@.len() ==> keyed@[i].1 <= keyed@[j].1,
        decreases keyed@.len() - k,
    {
        let pair = keyed[k];
        sorted.push(pair.0);
        if pair.1 < 2 && (pair.1 as usize) < order.len() {
            proof {
                if seeds < k {
                    assert(keyed@[seeds as int].1 <= keyed@[k as int].1);
                }
            }
            seeds += 1;
        }
        k += 1;
    }
    proof {
        assert forall|i: int, j: int|
            0 <= i < sorted@.len() && 0 <= j < sorted@.len() && i != j implies sorted@[i]
            != sorted@[j] by {
            // the rank of a word is determined by the word
            assert(is_rarest(keyed@[i].0, order@, keyed@[i].1 as int));
            assert(is_rarest(keyed@[j].0, order@, keyed@[j].1 as int));
            assert(keyed@[i] != keyed@[j]);
            if keyed@[i].0 == keyed@[j].0 {
                let a = keyed@[i].1 as int;
                let b = keyed@[j].1 as int;
                if a < b {
                    assert(!keyed@[j].0@.contains(order@[a] as int));
                } else if b < a {
                    assert(!keyed@[i].0@.contains(order@[b] as int));
                }
            }
        }
        assert forall|w: BitWord| sorted@.contains(w) == words@.contains(w) by {
            if sorted@.contains(w) {
                let j = choose|j: int| 0 <= j < sorted@.len() && sorted@[j] == w;
                assert(words@.contains(keyed@[j].0));
            }
            if words@.contains(w) {
                let j = choose|j: int| 0 <= j < words@.len() && words@[j] == w;
                assert(unsorted[j].0 == w);
                assert(unsorted.contains(unsorted[j]));
                assert(unsorted.to_multiset().count(unsorted[j]) > 0);
                assert(keyed@.contains(unsorted[j]));
                let m = choose|m: int| 0 <= m < keyed@.len() && keyed@[m] == unsorted[j];
                assert(sorted@[m] == w);
            }
        }
        assert forall|rank: int|
            rank_class(sorted@, order@, rank) == rank_class(words@, order@, rank) by {
            lemma_of_rank(keyed@, sorted@, order@, rank);
            lemma_of_rank(unsorted, words@, order@, rank);
        }
        assert forall|i: int, j: int, a: int, b: int|
            0 <= i < j < sorted@.len() && #[trigger] is_rarest(sorted@[i], order@, a)
                && #[trigger] is_rarest(sorted@[j], order@, b) implies a <= b by {
            let ra = keyed@[i].1 as int;
            let rb = keyed@[j].1 as int;
            assert(is_rarest(keyed@[i].0, order@, ra));
            assert(is_rarest(keyed@[j].0, order@, rb));
            assert(keyed@[i].1 <= keyed@[j].1);
            if a < ra {
                assert(!sorted@[i]@.contains(order@[a] as int));
            }
            if ra < a {
                assert(!sorted@[i]@.contains(order@[ra] as int));
            }
            if b < rb {
                assert(!sorted@[j]@.contains(order@[b] as int));
            }
            if rb < b {
                assert(!sorted@[j]@.contains(order@[rb] as int));
            }
        }
        assert forall|j: int| 0 <= j < sorted@.len() implies is_seed(
            #[trigger] sorted@[j],
            order@,
        ) == (j < seeds) by {
            let w = sorted@[j];
            let rank = keyed@[j].1 as int;
            assert(is_rarest(keyed@[j].0, order@, rank));
            if rank < 2 && rank < order@.len() {
                assert(w@.contains(order@[rank] as int));
            }
            if is_seed(w, order@) {
                let r = choose|r: int|
                    0 <= r < 2 && r < order@.len() && w@.contains(#[trigger] order@[r] as int);
                if rank > r {
                    assert(!w@.contains(order@[r] as int));
                }
            }
        }
    }
    (sorted, seeds)
}

} // verus!
