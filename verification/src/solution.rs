//! What a solution is: a group of words of the dictionary that share no
//! letter, written in one fixed order.

use crate::bit_word::{encoding, lemma_encoding_len, BitWord};
use crate::dictionary::{ascending, is_word, spelt_among};
use vstd::prelude::*;
use vstd::relations::{sorted_by, total_ordering};
use vstd::seq_lib::lemma_sorted_unique;

verus! {

/// The order in which the words of a group are written: by their masks.
pub open spec fn by_mask() -> spec_fn(BitWord, BitWord) -> bool {
    |a: BitWord, b: BitWord| a.0 <= b.0
}

/// The words of a group in the order in which a solution lists them.
pub open spec fn canonical(set: Seq<BitWord>) -> Seq<BitWord> {
    set.sort_by(by_mask())
}

/// Whether no two words of the group share a letter.
pub open spec fn pairwise_disjoint(set: Seq<BitWord>) -> bool {
    forall|j: int, k: int| 0 <= j < k < set.len() ==> set[j]@.disjoint(set[k]@)
}

/// Whether the group is a solution: `count` different words of the list,
/// no two of which share a letter, in ascending order.
pub open spec fn is_solution(set: Seq<BitWord>, words: Seq<BitWord>, count: nat) -> bool {
    &&& set.len() == count
    &&& ascending(set)
    &&& forall|k: int| 0 <= k < set.len() ==> words.contains(#[trigger] set[k])
    &&& pairwise_disjoint(set)
}

/// The alphabet that the searches read words in.
pub open spec fn latin() -> Seq<char> {
    "ABCDEFGHIJKLMNOPQRSTUVWXYZ"@
}

/// Whether the group is a solution for the lines: `count` different letter
/// sets, in ascending order, each spelt by a line that is a word of
/// `length` letters, and no two with a letter in common.
pub open spec fn solves(set: Seq<BitWord>, lines: Seq<String>, length: nat, count: nat) -> bool {
    &&& set.len() == count
    &&& ascending(set)
    &&& pairwise_disjoint(set)
    &&& forall|k: int|
        0 <= k < set.len() ==> spelt_among(
            #[trigger] set[k],
            lines,
            latin(),
            length,
            lines.len() as int,
        )
}

/// Whether `found` is what a search owes for the lines: every solution,
/// once, in ascending order.
pub open spec fn all_solutions(
    found: Seq<Seq<BitWord>>,
    lines: Seq<String>,
    length: nat,
    count: nat,
) -> bool {
    &&& in_order(found)
    &&& forall|set: Seq<BitWord>| found.contains(set) == solves(set, lines, length, count)
}

/// Why a search cannot be run.
#[derive(Debug, Clone, Copy, PartialEq, Eq, Structural)]
pub enum ConfigError {
    /// The words asked for would need more letters than the alphabet has.
    AlphabetTooSmall,
}

/// The alphabet that the searches read words in.
pub fn alphabet() -> (letters: String)
    ensures
        letters@ == latin(),
        letters@.len() == 26,
{
    proof {
        reveal_strlit("ABCDEFGHIJKLMNOPQRSTUVWXYZ");
    }
    String::from_str("ABCDEFGHIJKLMNOPQRSTUVWXYZ")
}

/// All the letters of a group of words.
pub open spec fn letters_of(set: Seq<BitWord>) -> Set<int>
    decreases set.len(),
{
    if set.len() == 0 {
        Set::empty()
    } else {
        letters_of(set.drop_last()).union(set.last()@)
    }
}

/// The groups as sequences of words.
pub open spec fn groups(found: Seq<Vec<BitWord>>) -> Seq<Seq<BitWord>> {
    found.map_values(|set: Vec<BitWord>| set@)
}

pub proof fn lemma_by_mask_total()
    ensures
        total_ordering(by_mask()),
{
    let leq = by_mask();
    assert forall|a: BitWord, b: BitWord| #[trigger] leq(a, b) && leq(b, a) implies a == b by {
        assert(a.0 == b.0);
    }
    assert(vstd::relations::antisymmetric(leq));
    assert(vstd::relations::reflexive(leq));
    assert(vstd::relations::transitive(leq));
    assert(vstd::relations::strongly_connected(leq));
}

/// A list that holds the words of a group in ascending order is the
/// group's canonical form.
pub proof fn lemma_canonical_unique(set: Seq<BitWord>, sorted: Seq<BitWord>)
    requires
        sorted.to_multiset() == set.to_multiset(),
        forall|i: int, j: int| 0 <= i < j < sorted.len() ==> sorted[i].0 <= sorted[j].0,
    ensures
        sorted == canonical(set),
{
    lemma_by_mask_total();
    set.lemma_sort_by_ensures(by_mask());
    assert(sorted_by(sorted, by_mask()));
    lemma_sorted_unique(sorted, canonical(set), by_mask());
}

/// A group and its canonical form hold the same words.
pub proof fn lemma_canonical_same_words(set: Seq<BitWord>)
    ensures
        canonical(set).len() == set.len(),
        forall|w: BitWord| canonical(set).contains(w) == set.contains(w),
{
    let sorted = canonical(set);
    lemma_by_mask_total();
    set.lemma_sort_by_ensures(by_mask());
    set.to_multiset_ensures();
    sorted.to_multiset_ensures();
    assert forall|w: BitWord| sorted.contains(w) == set.contains(w) by {
        assert(sorted.contains(w) == (sorted.to_multiset().count(w) > 0));
        assert(set.contains(w) == (set.to_multiset().count(w) > 0));
    }
}

/// The canonical form of a group of different words: the same words, as
/// many, in ascending order; and no two share a letter if none did before.
pub proof fn lemma_canonical_group(set: Seq<BitWord>)
    requires
        set.no_duplicates(),
    ensures
        canonical(set).len() == set.len(),
        ascending(canonical(set)),
        forall|w: BitWord| canonical(set).contains(w) == set.contains(w),
        pairwise_disjoint(set) ==> pairwise_disjoint(canonical(set)),
{
    let sorted = canonical(set);
    lemma_by_mask_total();
    set.lemma_sort_by_ensures(by_mask());
    set.to_multiset_ensures();
    sorted.to_multiset_ensures();
    assert forall|w: BitWord| sorted.contains(w) == set.contains(w) by {
        assert(sorted.contains(w) == (sorted.to_multiset().count(w) > 0));
        assert(set.contains(w) == (set.to_multiset().count(w) > 0));
    }
    set.lemma_multiset_has_no_duplicates();
    sorted.lemma_multiset_has_no_duplicates_conv();
    assert forall|i: int, j: int| 0 <= i < j < sorted.len() implies sorted[i].0 < sorted[j].0 by {
        assert(by_mask()(sorted[i], sorted[j]));
        assert(sorted[i] != sorted[j]);
    }
    if pairwise_disjoint(set) {
        assert forall|j: int, k: int| 0 <= j < k < sorted.len() implies sorted[j]@.disjoint(
            sorted[k]@,
        ) by {
            assert(sorted.contains(sorted[j]));
            assert(sorted.contains(sorted[k]));
            let a = choose|a: int| 0 <= a < set.len() && set[a] == sorted[j];
            let b = choose|b: int| 0 <= b < set.len() && set[b] == sorted[k];
            assert(sorted[j] != sorted[k]);
            if a < b {
                assert(set[a]@.disjoint(set[b]@));
            } else {
                assert(set[b]@.disjoint(set[a]@));
            }
        }
    }
}

/// Whether group `a` comes before group `b` in a list of solutions: at the
/// first place where they differ `a` has the lesser word, or `a` ends there
/// and `b` goes on.
pub open spec fn precedes(a: Seq<BitWord>, b: Seq<BitWord>) -> bool
    decreases a.len(),
{
    if b.len() == 0 {
        false
    } else if a.len() == 0 {
        true
    } else if a[0].0 != b[0].0 {
        a[0].0 < b[0].0
    } else {
        precedes(a.drop_first(), b.drop_first())
    }
}

/// Whether the groups stand in ascending order, none of them twice.
pub open spec fn in_order(found: Seq<Seq<BitWord>>) -> bool {
    forall|i: int, j: int| 0 <= i < j < found.len() ==> precedes(found[i], found[j])
}

/// No group comes before itself.
pub proof fn lemma_precedes_irreflexive(a: Seq<BitWord>)
    ensures
        !precedes(a, a),
    decreases a.len(),
{
    if a.len() > 0 {
        lemma_precedes_irreflexive(a.drop_first());
    }
}

/// Of two different groups one comes before the other.
pub proof fn lemma_precedes_connected(a: Seq<BitWord>, b: Seq<BitWord>)
    requires
        a != b,
    ensures
        precedes(a, b) || precedes(b, a),
    decreases a.len(),
{
    if a.len() == 0 {
        if b.len() == 0 {
            assert(a =~= b);
        }
    } else if b.len() > 0 && a[0].0 == b[0].0 {
        if a.drop_first() == b.drop_first() {
            assert(a =~= seq![a[0]] + a.drop_first());
            assert(b =~= seq![b[0]] + b.drop_first());
        }
        lemma_precedes_connected(a.drop_first(), b.drop_first());
    }
}

/// What comes before a group comes before all that the group comes before.
pub proof fn lemma_precedes_transitive(a: Seq<BitWord>, b: Seq<BitWord>, c: Seq<BitWord>)
    requires
        precedes(a, b),
        precedes(b, c),
    ensures
        precedes(a, c),
    decreases a.len(),
{
    if a.len() > 0 && a[0].0 == b[0].0 && b[0].0 == c[0].0 {
        lemma_precedes_transitive(a.drop_first(), b.drop_first(), c.drop_first());
    }
}

/// Groups that stand in order are all different.
pub proof fn lemma_in_order_no_duplicates(found: Seq<Seq<BitWord>>)
    requires
        in_order(found),
    ensures
        found.no_duplicates(),
{
    assert forall|i: int, j: int| 0 <= i < found.len() && 0 <= j < found.len() && i != j implies found[i]
        != found[j] by {
        lemma_precedes_irreflexive(found[i]);
        if i < j {
            assert(precedes(found[i], found[j]));
        } else {
            assert(precedes(found[j], found[i]));
        }
    }
}

/// Two lists that stand in order and hold the same groups are the same
/// list: what a search finds does not depend on how it ran.
pub proof fn lemma_in_order_unique(a: Seq<Seq<BitWord>>, b: Seq<Seq<BitWord>>)
    requires
        in_order(a),
        in_order(b),
        forall|set: Seq<BitWord>| a.contains(set) == b.contains(set),
    ensures
        a == b,
    decreases a.len(),
{
    if a.len() == 0 {
        if b.len() > 0 {
            assert(b.contains(b[0]));
        }
        assert(a =~= b);
    } else if b.len() == 0 {
        assert(a.contains(a[0]));
    } else {
        let x = a.last();
        let y = b.last();
        assert(a.contains(x));
        assert(b.contains(y));
        let i = choose|i: int| 0 <= i < b.len() && b[i] == x;
        let j = choose|j: int| 0 <= j < a.len() && a[j] == y;
        if x != y {
            // x comes before y in b, and y before x in a
            assert(precedes(b[i], b[b.len() - 1]));
            assert(precedes(a[j], a[a.len() - 1]));
            lemma_precedes_transitive(x, y, x);
            lemma_precedes_irreflexive(x);
        }
        let a0 = a.drop_last();
        let b0 = b.drop_last();
        lemma_precedes_irreflexive(x);
        assert forall|set: Seq<BitWord>| a0.contains(set) == b0.contains(set) by {
            if a0.contains(set) {
                let k = choose|k: int| 0 <= k < a0.len() && a0[k] == set;
                assert(a[k] == set);
                assert(precedes(a[k], a[a.len() - 1]));
                assert(a.contains(set));
                let m = choose|m: int| 0 <= m < b.len() && b[m] == set;
                assert(b0[m] == set);
            }
            if b0.contains(set) {
                let k = choose|k: int| 0 <= k < b0.len() && b0[k] == set;
                assert(b[k] == set);
                assert(precedes(b[k], b[b.len() - 1]));
                assert(b.contains(set));
                let m = choose|m: int| 0 <= m < a.len() && a[m] == set;
                assert(a0[m] == set);
            }
        }
        lemma_in_order_unique(a0, b0);
        assert(a =~= a0.push(x));
        assert(b =~= b0.push(y));
    }
}

/// The letters of a group are those of its words.
pub proof fn lemma_letters_of(set: Seq<BitWord>, i: int)
    ensures
        letters_of(set).contains(i) == exists|k: int|
            0 <= k < set.len() && (#[trigger] set[k])@.contains(i),
    decreases set.len(),
{
    if set.len() > 0 {
        let shorter = set.drop_last();
        lemma_letters_of(shorter, i);
        if letters_of(set).contains(i) {
            if set.last()@.contains(i) {
                assert(set[set.len() - 1]@.contains(i));
            } else {
                let k = choose|k: int| 0 <= k < shorter.len() && (#[trigger] shorter[k])@.contains(i);
                assert(set[k]@.contains(i));
            }
        }
        if exists|k: int| 0 <= k < set.len() && (#[trigger] set[k])@.contains(i) {
            let k = choose|k: int| 0 <= k < set.len() && (#[trigger] set[k])@.contains(i);
            if k < shorter.len() {
                assert(shorter[k]@.contains(i));
            }
        }
    }
}

/// Words that share no letter have, taken together, as many letters as all
/// of them have one by one: a group of `n` words of `length` letters each
/// covers `n * length` letters.
pub proof fn lemma_letters_count(set: Seq<BitWord>, length: nat)
    requires
        pairwise_disjoint(set),
        forall|k: int| 0 <= k < set.len() ==> (#[trigger] set[k])@.len() == length,
    ensures
        letters_of(set).finite(),
        letters_of(set).len() == set.len() * length,
    decreases set.len(),
{
    if set.len() == 0 {
        assert(letters_of(set) =~= Set::<int>::empty());
        assert(0 * length == 0) by (nonlinear_arith);
    } else {
        let shorter = set.drop_last();
        let last = set.last();
        assert forall|k: int| 0 <= k < shorter.len() implies (#[trigger] shorter[k])@.len()
            == length by {
            assert(shorter[k] == set[k]);
        }
        assert(pairwise_disjoint(shorter)) by {
            assert forall|j: int, k: int| 0 <= j < k < shorter.len() implies shorter[j]@.disjoint(
                shorter[k]@,
            ) by {
                assert(set[j]@.disjoint(set[k]@));
            }
        }
        lemma_letters_count(shorter, length);
        crate::bit_word::lemma_bit_set_finite(last.0);
        assert(letters_of(shorter).disjoint(last@)) by {
            assert forall|i: int| letters_of(shorter).contains(i) implies !last@.contains(i) by {
                lemma_letters_of(shorter, i);
                let k = choose|k: int| 0 <= k < shorter.len() && (#[trigger] shorter[k])@.contains(i);
                assert(set[k]@.disjoint(set[set.len() - 1]@));
            }
        }
        vstd::set_lib::lemma_set_disjoint_lens(letters_of(shorter), last@);
        assert(set[set.len() - 1]@.len() == length);
        assert(set.len() * length == shorter.len() * length + length) by (nonlinear_arith)
            requires
                set.len() == shorter.len() + 1,
        ;
    }
}

/// A list of groups that was made from two holds the groups of either.
pub proof fn lemma_groups_append(a: Seq<Vec<BitWord>>, b: Seq<Vec<BitWord>>, set: Seq<BitWord>)
    ensures
        groups(a + b).contains(set) == (groups(a).contains(set) || groups(b).contains(set)),
{
    let all = groups(a + b);
    if all.contains(set) {
        let k = choose|k: int| 0 <= k < all.len() && all[k] == set;
        if k < a.len() {
            assert(groups(a)[k] == set);
        } else {
            assert(groups(b)[k - a.len()] == set);
        }
    }
    if groups(a).contains(set) {
        let k = choose|k: int| 0 <= k < a.len() && groups(a)[k] == set;
        assert(all[k] == set);
    }
    if groups(b).contains(set) {
        let k = choose|k: int| 0 <= k < b.len() && groups(b)[k] == set;
        assert(all[a.len() + k] == set);
    }
}

/// A list of groups with one more holds that one and those it held.
pub proof fn lemma_groups_push(a: Seq<Vec<BitWord>>, last: Vec<BitWord>, set: Seq<BitWord>)
    ensures
        groups(a.push(last)).contains(set) == (groups(a).contains(set) || set == last@),
{
    let all = groups(a.push(last));
    if all.contains(set) {
        let k = choose|k: int| 0 <= k < all.len() && all[k] == set;
        if k < a.len() {
            assert(groups(a)[k] == set);
        }
    }
    if groups(a).contains(set) {
        let k = choose|k: int| 0 <= k < a.len() && groups(a)[k] == set;
        assert(all[k] == set);
    }
    if set == last@ {
        assert(all[a.len() as int] == set);
    }
}

/// The words of a solution use `count * length` letters between them.
pub proof fn lemma_solution_covers(
    set: Seq<BitWord>,
    lines: Seq<String>,
    length: nat,
    count: nat,
)
    requires
        solves(set, lines, length, count),
    ensures
        letters_of(set).finite(),
        letters_of(set).len() == count * length,
{
    assert forall|k: int| 0 <= k < set.len() implies (#[trigger] set[k])@.len() == length by {
        assert(spelt_among(set[k], lines, latin(), length, lines.len() as int));
        let at = choose|at: int|
            0 <= at < lines.len() && is_word(#[trigger] lines[at]@, latin(), length) && set[k]@
                == encoding(lines[at]@, latin());
        lemma_encoding_len(lines[at]@, latin());
    }
    lemma_letters_count(set, length);
}

/// No solution comes twice in what a search returns.
pub proof fn lemma_no_duplicate_solutions(
    found: Seq<Seq<BitWord>>,
    lines: Seq<String>,
    length: nat,
    count: nat,
)
    requires
        all_solutions(found, lines, length, count),
    ensures
        found.no_duplicates(),
{
    lemma_in_order_no_duplicates(found);
}

/// Two searches on the same lines, for the same length and number of
/// words, return the same: whatever way each of them took.
pub proof fn lemma_search_determined(
    a: Seq<Seq<BitWord>>,
    b: Seq<Seq<BitWord>>,
    lines: Seq<String>,
    length: nat,
    count: nat,
)
    requires
        all_solutions(a, lines, length, count),
        all_solutions(b, lines, length, count),
    ensures
        a == b,
{
    assert forall|set: Seq<BitWord>| a.contains(set) == b.contains(set) by {}
    lemma_in_order_unique(a, b);
}

/// The masks of the words of a group, in their order.
pub fn masks(set: &Vec<BitWord>) -> (r: Vec<u32>)
    ensures
        r@.len() == set@.len(),
        forall|k: int| 0 <= k < r@.len() ==> r@[k] == set@[k].0,
{
    let mut r: Vec<u32> = Vec::new();
    let mut k: usize = 0;
    while k < set.len()
        invariant
            k <= set@.len(),
            r@.len() == k,
            forall|j: int| 0 <= j < k ==> r@[j] == set@[j].0,
        decreases set@.len() - k,
    {
        r.push(set[k].0);
        k += 1;
    }
    r
}

/// `<[T]>::sort_by_cached_key` of std, with the masks of a group as its
/// key: the same groups, each as often as before, and none of them before
/// one that it should follow. std orders vectors of integers by the first
/// place at which they differ, a prefix before what extends it.
#[verifier::external_body]
pub(crate) fn sort_sets(sets: &mut Vec<Vec<BitWord>>)
    ensures
        final(sets)@.to_multiset() == old(sets)@.to_multiset(),
        forall|i: int, j: int|
            0 <= i < j < final(sets)@.len() ==> !precedes(final(sets)@[j]@, final(sets)@[i]@),
{
    sets.sort_by_cached_key(|set| masks(set));
}

/// Whether two groups hold the same words in the same order.
pub fn same_words(a: &Vec<BitWord>, b: &Vec<BitWord>) -> (same: bool)
    ensures
        same == (a@ == b@),
{
    if a.len() != b.len() {
        return false;
    }
    let mut k: usize = 0;
    while k < a.len()
        invariant
            k <= a@.len(),
            a@.len() == b@.len(),
            forall|j: int| 0 <= j < k ==> a@[j] == b@[j],
        decreases a@.len() - k,
    {
        if a[k].0 != b[k].0 {
            return false;
        }
        k += 1;
    }
    proof {
        assert(a@ =~= b@);
    }
    true
}

/// The groups of a sorted list, each once.
pub fn dedup_sets(sets: &Vec<Vec<BitWord>>) -> (unique: Vec<Vec<BitWord>>)
    requires
        forall|i: int, j: int| 0 <= i < j < sets@.len() ==> !precedes(sets@[j]@, sets@[i]@),
    ensures
        in_order(groups(unique@)),
        forall|set: Seq<BitWord>| groups(unique@).contains(set) == groups(sets@).contains(set),
{
    let mut unique: Vec<Vec<BitWord>> = Vec::new();
    let mut i: usize = 0;
    while i < sets.len()
        invariant
            i <= sets@.len(),
            forall|i: int, j: int| 0 <= i < j < sets@.len() ==> !precedes(sets@[j]@, sets@[i]@),
            in_order(groups(unique@)),
            unique@.len() <= i,
            i > 0 ==> unique@.len() > 0 && unique@.last()@ == sets@[i - 1]@,
            forall|k: int|
                0 <= k < unique@.len() ==> groups(sets@).contains(#[trigger] groups(unique@)[k]),
            forall|k: int| 0 <= k < i ==> groups(unique@).contains(#[trigger] groups(sets@)[k]),
        decreases sets@.len() - i,
    {
        let ghost before = groups(unique@);
        let ghost next = sets@[i as int]@;
        assert(groups(sets@)[i as int] == next);
        if i == 0 || !same_words(&sets[i - 1], &sets[i]) {
            let copy = sets[i].clone();
            unique.push(copy);
            proof {
                let after = groups(unique@);
                assert(after =~= before.push(next));
                assert forall|a: int, b: int| 0 <= a < b < after.len() implies precedes(
                    after[a],
                    after[b],
                ) by {
                    if b == after.len() - 1 {
                        let last = before.last();
                        assert(i > 0);
                        assert(before[before.len() - 1] == sets@[i - 1]@);
                        lemma_precedes_connected(last, next);
                        if a < before.len() - 1 {
                            assert(precedes(before[a], before[before.len() - 1]));
                            lemma_precedes_transitive(before[a], last, next);
                        }
                    } else {
                        assert(precedes(before[a], before[b]));
                    }
                }
                assert forall|k: int| 0 <= k < i + 1 implies after.contains(
                    #[trigger] groups(sets@)[k],
                ) by {
                    if k < i {
                        let m = choose|m: int|
                            0 <= m < before.len() && before[m] == groups(sets@)[k];
                        assert(after[m] == groups(sets@)[k]);
                    } else {
                        assert(after[after.len() - 1] == next);
                    }
                }
                assert forall|k: int| 0 <= k < after.len() implies groups(sets@).contains(
                    #[trigger] after[k],
                ) by {
                    if k < before.len() {
                        assert(after[k] == before[k]);
                    } else {
                        assert(groups(sets@)[i as int] == after[k]);
                    }
                }
            }
        } else {
            proof {
                assert forall|k: int| 0 <= k < i + 1 implies groups(unique@).contains(
                    #[trigger] groups(sets@)[k],
                ) by {
                    if k == i {
                        assert(groups(sets@)[k] == groups(sets@)[i - 1]);
                    }
                }
            }
        }
        i += 1;
    }
    proof {
        assert forall|set: Seq<BitWord>|
            groups(unique@).contains(set) == groups(sets@).contains(set) by {
            if groups(unique@).contains(set) {
                let k = choose|k: int| 0 <= k < groups(unique@).len() && groups(unique@)[k] == set;
                assert(groups(sets@).contains(groups(unique@)[k]));
            }
            if groups(sets@).contains(set) {
                let k = choose|k: int| 0 <= k < groups(sets@).len() && groups(sets@)[k] == set;
                assert(groups(unique@).contains(groups(sets@)[k]));
            }
        }
    }
    unique
}

} // verus!
