//! The search by rare letters: every group is built up word by word from
//! the words that share no letter with those already chosen.

use crate::bit_word::{lemma_bit_set_empty, lemma_encoding_within, BitWord};
use crate::dictionary::{
    ascending, is_dictionary, lemma_ascending_unique, lemma_dictionary_word_len, prepare,
    sort_words, spelt_among,
};
use crate::ranking::{by_rarity, is_seed, par_buckets, rank_letters};
use crate::solution::{
    all_solutions, alphabet, canonical, dedup_sets, groups, is_solution, latin, letters_of,
    lemma_canonical_group, lemma_canonical_same_words, lemma_canonical_unique, lemma_letters_count,
    lemma_letters_of, pairwise_disjoint, solves, sort_sets, ConfigError,
};
use rayon::iter::{IntoParallelIterator, ParallelIterator};
use vstd::prelude::*;
use vstd::set_lib::{lemma_int_range, lemma_len_subset, set_int_range};

verus! {

/// What [`find_set`] returns. Each word of the list from position `from` on
/// that is free of the letters in `used` is tried in turn: it completes the
/// group if one word was missing, and else the search goes on behind it.
pub open spec fn hits(
    words: Seq<BitWord>,
    from: int,
    used: Set<int>,
    set: Seq<BitWord>,
    count: nat,
) -> Seq<Seq<BitWord>>
    decreases words.len() - from,
{
    if from < 0 || from >= words.len() {
        Seq::empty()
    } else {
        hits_with(words, from, used, set, count) + hits(words, from + 1, used, set, count)
    }
}

/// The part of [`hits`] in which the word at position `from` is chosen.
pub open spec fn hits_with(
    words: Seq<BitWord>,
    from: int,
    used: Set<int>,
    set: Seq<BitWord>,
    count: nat,
) -> Seq<Seq<BitWord>>
    decreases words.len() - from, 0nat,
{
    if from < 0 || from >= words.len() {
        Seq::empty()
    } else {
        let w = words[from];
        if !w@.disjoint(used) {
            Seq::empty()
        } else if set.len() + 1 == count {
            seq![canonical(set.push(w))]
        } else {
            hits(words, from + 1, used.union(w@), set.push(w), count)
        }
    }
}

/// Whether a group that is being built is in order: its words are all
/// different, share no letter, have their letters in `used`, and none of them
/// can be chosen again from position `from` on.
pub open spec fn tidy(words: Seq<BitWord>, from: int, used: Set<int>, set: Seq<BitWord>) -> bool {
    &&& set.no_duplicates()
    &&& pairwise_disjoint(set)
    &&& forall|k: int| 0 <= k < set.len() ==> (#[trigger] set[k])@.subset_of(used)
    &&& forall|k: int, i: int|
        0 <= k < set.len() && from <= i < words.len() && (#[trigger] words[i])@.disjoint(used)
            ==> words[i] != #[trigger] set[k]
}

/// Whether the word is one of the list from position `from` on.
pub open spec fn listed(words: Seq<BitWord>, from: int, w: BitWord) -> bool {
    exists|i: int| from <= i < words.len() && 0 <= i && #[trigger] words[i] == w
}

/// A group that holds one word more is in order again.
proof fn lemma_tidy_push(words: Seq<BitWord>, from: int, used: Set<int>, set: Seq<BitWord>)
    requires
        words.no_duplicates(),
        0 <= from < words.len(),
        tidy(words, from, used, set),
        words[from]@.disjoint(used),
    ensures
        tidy(words, from + 1, used.union(words[from]@), set.push(words[from])),
        tidy(words, from + 1, used, set),
{
    let w = words[from];
    let more = set.push(w);
    let wider = used.union(w@);
    assert forall|j: int, k: int| 0 <= j < k < more.len() implies more[j]@.disjoint(more[k]@) by {
        if k == set.len() {
            assert(set[j]@.subset_of(used));
        } else {
            assert(set[j]@.disjoint(set[k]@));
        }
    }
    assert forall|j: int, k: int| 0 <= j < more.len() && 0 <= k < more.len() && j != k implies more[j]
        != more[k] by {
        if j == set.len() {
            assert(words[from] != set[k]);
        } else if k == set.len() {
            assert(words[from] != set[j]);
        } else {
            assert(set[j] != set[k]);
        }
    }
    assert forall|k: int| 0 <= k < more.len() implies (#[trigger] more[k])@.subset_of(wider) by {
        if k < set.len() {
            assert(set[k]@.subset_of(used));
        }
    }
    assert forall|k: int, i: int|
        0 <= k < more.len() && from + 1 <= i < words.len() && (#[trigger] words[i])@.disjoint(
            wider,
        ) implies words[i] != #[trigger] more[k] by {
        if k < set.len() {
            assert(words[i]@.disjoint(used));
            assert(words[i] != set[k]);
        }
    }
}

/// Every group that the search returns is made of `count` different words
/// in ascending order, no two of which share a letter; it holds the words
/// that were chosen before, and besides them only words of the list.
pub proof fn lemma_hits_sound(
    words: Seq<BitWord>,
    from: int,
    used: Set<int>,
    set: Seq<BitWord>,
    count: nat,
    hit: Seq<BitWord>,
)
    requires
        words.no_duplicates(),
        0 <= from,
        tidy(words, from, used, set),
        hits(words, from, used, set, count).contains(hit),
    ensures
        hit.len() == count,
        ascending(hit),
        pairwise_disjoint(hit),
        forall|k: int| 0 <= k < set.len() ==> hit.contains(#[trigger] set[k]),
        forall|k: int|
            0 <= k < hit.len() ==> set.contains(#[trigger] hit[k]) || listed(words, from, hit[k]),
    decreases words.len() - from,
{
    if from < words.len() {
        let here = hits_with(words, from, used, set, count);
        let rest = hits(words, from + 1, used, set, count);
        let at = choose|at: int| 0 <= at < (here + rest).len() && (here + rest)[at] == hit;
        let w = words[from];
        if at < here.len() {
            assert(here[at] == hit);
            lemma_tidy_push(words, from, used, set);
            let more = set.push(w);
            if set.len() + 1 == count {
                lemma_canonical_group(more);
                assert forall|k: int| 0 <= k < set.len() implies hit.contains(
                    #[trigger] set[k],
                ) by {
                    assert(more[k] == set[k]);
                    assert(more.contains(set[k]));
                }
                assert forall|k: int| 0 <= k < hit.len() implies set.contains(#[trigger] hit[k])
                    || listed(words, from, hit[k]) by {
                    assert(hit.contains(hit[k]));
                    assert(more.contains(hit[k]));
                    let m = choose|m: int| 0 <= m < more.len() && more[m] == hit[k];
                    if m < set.len() {
                        assert(set[m] == hit[k]);
                    } else {
                        assert(words[from] == hit[k]);
                    }
                }
            } else {
                assert(here.contains(hit));
                lemma_hits_sound(words, from + 1, used.union(w@), more, count, hit);
                assert forall|k: int| 0 <= k < set.len() implies hit.contains(
                    #[trigger] set[k],
                ) by {
                    assert(more[k] == set[k]);
                }
                assert forall|k: int| 0 <= k < hit.len() implies set.contains(#[trigger] hit[k])
                    || listed(words, from, hit[k]) by {
                    if more.contains(hit[k]) {
                        let m = choose|m: int| 0 <= m < more.len() && more[m] == hit[k];
                        if m < set.len() {
                            assert(set[m] == hit[k]);
                        } else {
                            assert(words[from] == hit[k]);
                        }
                    } else {
                        let i = choose|i: int|
                            from + 1 <= i < words.len() && 0 <= i && #[trigger] words[i] == hit[k];
                        assert(words[i] == hit[k]);
                    }
                }
            }
        } else {
            assert(rest[at - here.len()] == hit);
            assert(rest.contains(hit));
            if w@.disjoint(used) {
                lemma_tidy_push(words, from, used, set);
            }
            lemma_hits_sound(words, from + 1, used, set, count, hit);
            assert forall|k: int| 0 <= k < hit.len() implies set.contains(#[trigger] hit[k])
                || listed(words, from, hit[k]) by {
                if !set.contains(hit[k]) {
                    let i = choose|i: int|
                        from + 1 <= i < words.len() && 0 <= i && #[trigger] words[i] == hit[k];
                    assert(words[i] == hit[k]);
                }
            }
        }
    }
}

/// Whether the positions name words that can be chosen together: each
/// position once, none before `from`, and words that share no letter with
/// `used` or with one another.
pub open spec fn is_choice(words: Seq<BitWord>, from: int, used: Set<int>, picks: Seq<int>) -> bool {
    &&& picks.no_duplicates()
    &&& forall|k: int|
        0 <= k < picks.len() ==> from <= #[trigger] picks[k] < words.len() && words[picks[k]]@.disjoint(
            used,
        )
    &&& forall|j: int, k: int|
        0 <= j < k < picks.len() ==> words[#[trigger] picks[j]]@.disjoint(
            words[#[trigger] picks[k]]@,
        )
}

/// Whether the word stands at one of the positions.
pub open spec fn chosen(words: Seq<BitWord>, picks: Seq<int>, w: BitWord) -> bool {
    exists|k: int| 0 <= k < picks.len() && words[#[trigger] picks[k]] == w
}

/// Whatever words can be chosen together to complete the group, the search
/// returns a group that holds just them and the words chosen before.
pub proof fn lemma_hits_complete(
    words: Seq<BitWord>,
    from: int,
    used: Set<int>,
    set: Seq<BitWord>,
    count: nat,
    picks: Seq<int>,
) -> (hit: Seq<BitWord>)
    requires
        0 <= from,
        is_choice(words, from, used, picks),
        picks.len() >= 1,
        picks.len() + set.len() == count,
    ensures
        hits(words, from, used, set, count).contains(hit),
        forall|w: BitWord| hit.contains(w) <==> set.contains(w) || chosen(words, picks, w),
    decreases words.len() - from,
{
    assert(from <= picks[0] < words.len());
    let here = hits_with(words, from, used, set, count);
    let rest = hits(words, from + 1, used, set, count);
    let w = words[from];
    if picks.contains(from) {
        let at = choose|at: int| 0 <= at < picks.len() && picks[at] == from;
        assert(words[picks[at]]@.disjoint(used));
        let more = set.push(w);
        if set.len() + 1 == count {
            let hit = canonical(more);
            assert(here[0] == hit);
            assert((here + rest)[0] == hit);
            lemma_canonical_same_words(more);
            assert forall|x: BitWord| hit.contains(x) <==> set.contains(x) || chosen(
                words,
                picks,
                x,
            ) by {
                if more.contains(x) {
                    let m = choose|m: int| 0 <= m < more.len() && more[m] == x;
                    if m < set.len() {
                        assert(set[m] == x);
                    } else {
                        assert(words[picks[at]] == x);
                    }
                }
                if set.contains(x) {
                    let m = choose|m: int| 0 <= m < set.len() && set[m] == x;
                    assert(more[m] == x);
                }
                if chosen(words, picks, x) {
                    assert(picks.len() == 1);
                    assert(more[set.len() as int] == x);
                }
            }
            hit
        } else {
            let fewer = picks.remove(at);
            assert forall|k: int| 0 <= k < fewer.len() implies fewer[k] == (if k < at {
                picks[k]
            } else {
                picks[k + 1]
            }) by {}
            assert(fewer.no_duplicates());
            assert forall|k: int| 0 <= k < fewer.len() implies from + 1 <= #[trigger] fewer[k]
                < words.len() && words[fewer[k]]@.disjoint(used.union(w@)) by {
                let m = if k < at {
                    k
                } else {
                    k + 1
                };
                assert(fewer[k] == picks[m]);
                assert(picks[m] != picks[at]);
                if m < at {
                    assert(words[picks[m]]@.disjoint(words[picks[at]]@));
                } else {
                    assert(words[picks[at]]@.disjoint(words[picks[m]]@));
                }
            }
            assert forall|j: int, k: int| 0 <= j < k < fewer.len() implies words[#[trigger] fewer[j]]@.disjoint(
                words[#[trigger] fewer[k]]@,
            ) by {
                let a = if j < at {
                    j
                } else {
                    j + 1
                };
                let b = if k < at {
                    k
                } else {
                    k + 1
                };
                assert(words[picks[a]]@.disjoint(words[picks[b]]@));
            }
            let hit = lemma_hits_complete(words, from + 1, used.union(w@), more, count, fewer);
            let found = choose|found: int| 0 <= found < here.len() && here[found] == hit;
            assert((here + rest)[found] == hit);
            assert forall|x: BitWord| hit.contains(x) <==> set.contains(x) || chosen(
                words,
                picks,
                x,
            ) by {
                if more.contains(x) {
                    let m = choose|m: int| 0 <= m < more.len() && more[m] == x;
                    if m < set.len() {
                        assert(set[m] == x);
                    } else {
                        assert(words[picks[at]] == x);
                    }
                }
                if chosen(words, fewer, x) {
                    let k = choose|k: int| 0 <= k < fewer.len() && words[#[trigger] fewer[k]] == x;
                    let m = if k < at {
                        k
                    } else {
                        k + 1
                    };
                    assert(words[picks[m]] == x);
                }
                if set.contains(x) {
                    let m = choose|m: int| 0 <= m < set.len() && set[m] == x;
                    assert(more[m] == x);
                }
                if chosen(words, picks, x) {
                    let k = choose|k: int| 0 <= k < picks.len() && words[#[trigger] picks[k]] == x;
                    if k == at {
                        assert(more[set.len() as int] == x);
                    } else {
                        let m = if k < at {
                            k
                        } else {
                            k - 1
                        };
                        assert(fewer[m] == picks[k]);
                        assert(words[fewer[m]] == x);
                    }
                }
            }
            hit
        }
    } else {
        assert forall|k: int| 0 <= k < picks.len() implies from + 1 <= #[trigger] picks[k] by {
            assert(picks.contains(picks[k]));
        }
        let hit = lemma_hits_complete(words, from + 1, used, set, count, picks);
        let found = choose|found: int| 0 <= found < rest.len() && rest[found] == hit;
        assert((here + rest)[here.len() + found] == hit);
        hit
    }
}

/// The positions at which the words of a group stand in the list.
pub open spec fn positions(words: Seq<BitWord>, set: Seq<BitWord>) -> Seq<int> {
    Seq::new(set.len(), |k: int| words.index_of(set[k]))
}

/// The words of a solution, but for those that share a letter with `used`,
/// can be chosen together.
proof fn lemma_positions_choice(words: Seq<BitWord>, used: Set<int>, set: Seq<BitWord>)
    requires
        ascending(set),
        pairwise_disjoint(set),
        forall|k: int| 0 <= k < set.len() ==> words.contains(#[trigger] set[k]),
        forall|k: int| 0 <= k < set.len() ==> (#[trigger] set[k])@.disjoint(used),
    ensures
        is_choice(words, 0, used, positions(words, set)),
        forall|w: BitWord| chosen(words, positions(words, set), w) == set.contains(w),
{
    let picks = positions(words, set);
    assert forall|k: int| 0 <= k < set.len() implies 0 <= #[trigger] picks[k] < words.len()
        && words[picks[k]] == set[k] by {
        assert(words.contains(set[k]));
    }
    assert forall|j: int, k: int| 0 <= j < picks.len() && 0 <= k < picks.len() && j != k implies picks[j]
        != picks[k] by {
        assert(words[picks[j]] == set[j]);
        assert(words[picks[k]] == set[k]);
        if j < k {
            assert(set[j].0 < set[k].0);
        } else {
            assert(set[k].0 < set[j].0);
        }
    }
    assert forall|k: int| 0 <= k < picks.len() implies 0 <= #[trigger] picks[k] < words.len()
        && words[picks[k]]@.disjoint(used) by {
        assert(words[picks[k]] == set[k]);
    }
    assert forall|j: int, k: int| 0 <= j < k < picks.len() implies words[#[trigger] picks[j]]@.disjoint(
        words[#[trigger] picks[k]]@,
    ) by {
        assert(words[picks[j]] == set[j]);
        assert(words[picks[k]] == set[k]);
    }
    assert forall|w: BitWord| chosen(words, picks, w) == set.contains(w) by {
        if chosen(words, picks, w) {
            let k = choose|k: int| 0 <= k < picks.len() && words[#[trigger] picks[k]] == w;
            assert(set[k] == w);
        }
        if set.contains(w) {
            let k = choose|k: int| 0 <= k < set.len() && set[k] == w;
            assert(words[picks[k]] == w);
        }
    }
}

/// Searched from the start with nothing chosen, a list of different words
/// yields exactly the solutions.
pub proof fn lemma_all_found(words: Seq<BitWord>, count: nat, hit: Seq<BitWord>)
    requires
        words.no_duplicates(),
        count >= 1,
    ensures
        hits(words, 0, Set::empty(), Seq::empty(), count).contains(hit) == is_solution(
            hit,
            words,
            count,
        ),
{
    let none = Set::<int>::empty();
    let start = Seq::<BitWord>::empty();
    let all = hits(words, 0, none, start, count);
    assert(tidy(words, 0, none, start));
    if all.contains(hit) {
        lemma_hits_sound(words, 0, none, start, count, hit);
        assert forall|k: int| 0 <= k < hit.len() implies words.contains(#[trigger] hit[k]) by {
            assert(listed(words, 0, hit[k]));
        }
    }
    if is_solution(hit, words, count) {
        lemma_positions_choice(words, none, hit);
        let picks = positions(words, hit);
        let other = lemma_hits_complete(words, 0, none, start, count, picks);
        lemma_hits_sound(words, 0, none, start, count, other);
        assert forall|w: BitWord| other.contains(w) == hit.contains(w) by {}
        lemma_ascending_unique(other, hit);
    }
}

/// Searched from the start with one word chosen, a list of different words
/// yields exactly the solutions that hold that word.
pub proof fn lemma_seed_found(words: Seq<BitWord>, seed: BitWord, count: nat, hit: Seq<BitWord>)
    requires
        words.no_duplicates(),
        words.contains(seed),
        seed.0 != 0,
        count >= 2,
    ensures
        hits(words, 0, seed@, seq![seed], count).contains(hit) == (is_solution(hit, words, count)
            && hit.contains(seed)),
{
    let start = seq![seed];
    let all = hits(words, 0, seed@, start, count);
    crate::bit_word::lemma_bit_set_empty(seed.0);
    assert forall|k: int, i: int|
        0 <= k < start.len() && 0 <= i < words.len() && (#[trigger] words[i])@.disjoint(
            seed@,
        ) implies words[i] != #[trigger] start[k] by {
        if words[i] == seed {
            assert(seed@ =~= Set::<int>::empty());
        }
    }
    assert(tidy(words, 0, seed@, start));
    if all.contains(hit) {
        lemma_hits_sound(words, 0, seed@, start, count, hit);
        assert(hit.contains(start[0]));
        assert forall|k: int| 0 <= k < hit.len() implies words.contains(#[trigger] hit[k]) by {
            if start.contains(hit[k]) {
                let m = choose|m: int| 0 <= m < start.len() && start[m] == hit[k];
                assert(hit[k] == seed);
            } else {
                assert(listed(words, 0, hit[k]));
            }
        }
    }
    if is_solution(hit, words, count) && hit.contains(seed) {
        let at = choose|at: int| 0 <= at < hit.len() && hit[at] == seed;
        let others = hit.remove(at);
        assert forall|k: int| 0 <= k < others.len() implies others[k] == (if k < at {
            hit[k]
        } else {
            hit[k + 1]
        }) by {}
        assert forall|k: int| 0 <= k < others.len() implies words.contains(#[trigger] others[k])
            && others[k]@.disjoint(seed@) by {
            let m = if k < at {
                k
            } else {
                k + 1
            };
            assert(others[k] == hit[m]);
            assert(words.contains(hit[m]));
            if m < at {
                assert(hit[m]@.disjoint(hit[at]@));
            } else {
                assert(hit[at]@.disjoint(hit[m]@));
            }
        }
        assert(ascending(others));
        assert(pairwise_disjoint(others));
        lemma_positions_choice(words, seed@, others);
        let picks = positions(words, others);
        let other = lemma_hits_complete(words, 0, seed@, start, count, picks);
        lemma_hits_sound(words, 0, seed@, start, count, other);
        assert forall|w: BitWord| other.contains(w) == hit.contains(w) by {
            if others.contains(w) {
                let k = choose|k: int| 0 <= k < others.len() && others[k] == w;
                let m = if k < at {
                    k
                } else {
                    k + 1
                };
                assert(hit[m] == w);
            }
            if start.contains(w) {
                let m = choose|m: int| 0 <= m < start.len() && start[m] == w;
                assert(w == seed);
            }
            if hit.contains(w) {
                let k = choose|k: int| 0 <= k < hit.len() && hit[k] == w;
                if k == at {
                    assert(start[0] == w);
                } else {
                    let m = if k < at {
                        k
                    } else {
                        k - 1
                    };
                    assert(others[m] == w);
                }
            }
        }
        lemma_ascending_unique(other, hit);
    }
}

/// The group with one more word, in canonical order.
fn completed(set: &Vec<BitWord>, w: BitWord) -> (hit: Vec<BitWord>)
    ensures
        hit@ == canonical(set@.push(w)),
{
    let mut hit = set.clone();
    hit.push(w);
    let ghost unsorted = hit@;
    sort_words(&mut hit);
    proof {
        assert(unsorted =~= set@.push(w));
        lemma_canonical_unique(unsorted, hit@);
    }
    hit
}

/// All groups of `count` words that extend `set` by words of the list from
/// position `from` on, taken in the order of the list, none of which shares
/// a letter with `bits` or with another.
pub fn find_set(
    words: &Vec<BitWord>,
    from: usize,
    bits: BitWord,
    set: &mut Vec<BitWord>,
    count: usize,
) -> (found: Vec<Vec<BitWord>>)
    ensures
        final(set)@ == old(set)@,
        groups(found@) == hits(words@, from as int, bits@, old(set)@, count as nat),
    decreases words@.len() - from,
{
    let mut found: Vec<Vec<BitWord>> = Vec::new();
    let mut i: usize = from;
    let ghost all = hits(words@, from as int, bits@, set@, count as nat);
    proof {
        assert(groups(found@) =~= Seq::<Seq<BitWord>>::empty());
    }
    while i < words.len()
        invariant
            from <= i,
            set@ == old(set)@,
            all == hits(words@, from as int, bits@, old(set)@, count as nat),
            groups(found@) + hits(words@, i as int, bits@, set@, count as nat) == all,
        decreases words@.len() - i,
    {
        let w = words[i];
        let ghost before = groups(found@);
        let ghost here = hits_with(words@, i as int, bits@, set@, count as nat);
        let ghost rest = hits(words@, i + 1, bits@, set@, count as nat);
        if !bits.has_overlap(&w) {
            if count > 0 && set.len() == count - 1 {
                let hit = completed(set, w);
                found.push(hit);
                proof {
                    assert(groups(found@) =~= before + here);
                }
            } else {
                set.push(w);
                let mut more = find_set(words, i + 1, bits.merge(&w), set, count);
                set.pop();
                proof {
                    assert(set@ =~= old(set)@);
                }
                let ghost added = groups(more@);
                found.append(&mut more);
                proof {
                    assert(groups(found@) =~= before + added);
                }
            }
        } else {
            proof {
                assert(groups(found@) =~= before + here);
            }
        }
        proof {
            assert((before + here) + rest =~= before + (here + rest));
        }
        i += 1;
    }
    proof {
        assert(groups(found@) + Seq::<Seq<BitWord>>::empty() =~= groups(found@));
    }
    found
}

/// What [`find_set_par`] returns: for each of the first `n` seeds in turn,
/// the groups that the search finds with that seed chosen.
pub open spec fn seeded_hits(
    words: Seq<BitWord>,
    seeds: Seq<BitWord>,
    count: nat,
    n: int,
) -> Seq<Seq<BitWord>>
    decreases n,
{
    if n <= 0 {
        Seq::empty()
    } else {
        seeded_hits(words, seeds, count, n - 1) + hits(
            words,
            0,
            seeds[n - 1]@,
            seq![seeds[n - 1]],
            count,
        )
    }
}

/// A group is among the seeded hits exactly when the search finds it from
/// one of the seeds.
pub proof fn lemma_seeded_hits(
    words: Seq<BitWord>,
    seeds: Seq<BitWord>,
    count: nat,
    n: int,
    hit: Seq<BitWord>,
)
    ensures
        seeded_hits(words, seeds, count, n).contains(hit) == exists|i: int|
            0 <= i < n && #[trigger] hits(words, 0, seeds[i]@, seq![seeds[i]], count).contains(hit),
    decreases n,
{
    if n > 0 {
        let before = seeded_hits(words, seeds, count, n - 1);
        let last = hits(words, 0, seeds[n - 1]@, seq![seeds[n - 1]], count);
        lemma_seeded_hits(words, seeds, count, n - 1, hit);
        if (before + last).contains(hit) {
            let at = choose|at: int| 0 <= at < (before + last).len() && (before + last)[at] == hit;
            if at < before.len() {
                assert(before[at] == hit);
                assert(before.contains(hit));
            } else {
                assert(last[at - before.len()] == hit);
                assert(last.contains(hit));
            }
        }
        if before.contains(hit) {
            let at = choose|at: int| 0 <= at < before.len() && before[at] == hit;
            assert((before + last)[at] == hit);
        }
        if last.contains(hit) {
            let at = choose|at: int| 0 <= at < last.len() && last[at] == hit;
            assert((before + last)[before.len() + at] == hit);
        }
    }
}

/// The groups of `count` words that hold the seed at position `i`.
pub fn find_from(words: &Vec<BitWord>, first_words: &Vec<BitWord>, i: usize, count: usize) -> (found:
    Vec<Vec<BitWord>>)
    requires
        i < first_words@.len(),
    ensures
        groups(found@) == hits(
            words@,
            0,
            first_words@[i as int]@,
            seq![first_words@[i as int]],
            count as nat,
        ),
{
    let seed = first_words[i];
    let mut set: Vec<BitWord> = Vec::new();
    set.push(seed);
    proof {
        assert(set@ =~= seq![seed]);
    }
    find_set(words, 0, seed, &mut set, count)
}

/// rayon's parallel `map` over the positions of the seeds, collected into
/// a `Vec`: the result holds, at the place of each seed, what [`find_from`]
/// returns for it. rayon keeps the order of a range when it collects into a
/// `Vec`.
#[verifier::external_body]
fn par_search(first_words: &Vec<BitWord>, words: &Vec<BitWord>, count: usize) -> (found: Vec<
    Vec<Vec<BitWord>>,
>)
    ensures
        found@.len() == first_words@.len(),
        forall|i: int|
            0 <= i < found@.len() ==> groups((#[trigger] found@[i])@) == hits(
                words@,
                0,
                first_words@[i]@,
                seq![first_words@[i]],
                count as nat,
            ),
{
    (0..first_words.len()).into_par_iter().map(|i| find_from(words, first_words, i, count)).collect()
}

/// The groups of `count` words that hold one of the seeds, seed by seed; a
/// group with two seeds comes once for each.
pub fn find_set_par(first_words: &Vec<BitWord>, words: &Vec<BitWord>, count: usize) -> (found: Vec<
    Vec<BitWord>,
>)
    ensures
        groups(found@) == seeded_hits(
            words@,
            first_words@,
            count as nat,
            first_words@.len() as int,
        ),
{
    let mut parts = par_search(first_words, words, count);
    let mut found: Vec<Vec<BitWord>> = Vec::new();
    let mut i: usize = 0;
    proof {
        assert(groups(found@) =~= Seq::<Seq<BitWord>>::empty());
    }
    while i < parts.len()
        invariant
            i <= parts@.len(),
            parts@.len() == first_words@.len(),
            forall|k: int|
                i <= k < parts@.len() ==> groups((#[trigger] parts@[k])@) == hits(
                    words@,
                    0,
                    first_words@[k]@,
                    seq![first_words@[k]],
                    count as nat,
                ),
            groups(found@) == seeded_hits(words@, first_words@, count as nat, i as int),
        decreases parts@.len() - i,
    {
        let ghost before = groups(found@);
        let ghost added = groups(parts@[i as int]@);
        let ghost rest = parts@;
        let mut part: Vec<Vec<BitWord>> = Vec::new();
        std::mem::swap(&mut part, &mut parts[i]);
        found.append(&mut part);
        proof {
            assert(groups(found@) =~= before + added);
            assert forall|k: int| i + 1 <= k < parts@.len() implies groups((#[trigger] parts@[k])@)
                == hits(words@, 0, first_words@[k]@, seq![first_words@[k]], count as nat) by {
                assert(parts@[k] == rest[k]);
            }
        }
        i += 1;
    }
    found
}

/// A group is a solution over the dictionary of the lines exactly when it
/// is a solution for the lines.
pub proof fn lemma_solution_of_dictionary(
    set: Seq<BitWord>,
    words: Seq<BitWord>,
    lines: Seq<String>,
    length: nat,
    count: nat,
)
    requires
        is_dictionary(words, lines, latin(), length),
    ensures
        is_solution(set, words, count) == solves(set, lines, length, count),
{
    if is_solution(set, words, count) {
        assert forall|k: int| 0 <= k < set.len() implies spelt_among(
            #[trigger] set[k],
            lines,
            latin(),
            length,
            lines.len() as int,
        ) by {
            assert(words.contains(set[k]));
        }
    }
    if solves(set, lines, length, count) {
        assert forall|k: int| 0 <= k < set.len() implies words.contains(#[trigger] set[k]) by {
            assert(spelt_among(set[k], lines, latin(), length, lines.len() as int));
        }
    }
}

/// A word of the dictionary has `length` letters, all among the 26.
pub proof fn lemma_dictionary_word(
    words: Seq<BitWord>,
    lines: Seq<String>,
    length: nat,
    w: BitWord,
)
    requires
        is_dictionary(words, lines, latin(), length),
        latin().len() == 26,
        words.contains(w),
    ensures
        w@.finite(),
        w@.len() == length,
        w@.subset_of(set_int_range(0, 26)),
        length > 0 ==> w.0 != 0,
{
    lemma_dictionary_word_len(words, lines, latin(), length, w);
    let k = choose|k: int|
        0 <= k < lines.len() && crate::dictionary::is_word(#[trigger] lines[k]@, latin(), length)
            && w@ == crate::bit_word::encoding(lines[k]@, latin());
    lemma_encoding_within(lines[k]@, latin());
    lemma_bit_set_empty(w.0);
}

/// Where the words of a group leave at most one of the 26 letters unused,
/// one of them holds one of the two rarest letters, whichever these are.
pub proof fn lemma_seed_in_every_solution(set: Seq<BitWord>, order: Seq<u32>, length: nat)
    requires
        pairwise_disjoint(set),
        forall|k: int|
            0 <= k < set.len() ==> (#[trigger] set[k])@.len() == length && set[k]@.subset_of(
                set_int_range(0, 26),
            ),
        set.len() * length >= 25,
        order.len() == 26,
        order.no_duplicates(),
        forall|k: int| 0 <= k < order.len() ==> (#[trigger] order[k]) < 26,
    ensures
        exists|k: int| 0 <= k < set.len() && is_seed(#[trigger] set[k], order),
{
    let all = letters_of(set);
    lemma_letters_count(set, length);
    let a = order[0] as int;
    let b = order[1] as int;
    assert(a != b);
    assert forall|i: int| all.contains(i) implies 0 <= i < 26 by {
        lemma_letters_of(set, i);
        let k = choose|k: int| 0 <= k < set.len() && (#[trigger] set[k])@.contains(i);
        assert(set[k]@.subset_of(set_int_range(0, 26)));
    }
    if !all.contains(a) && !all.contains(b) {
        let others = set_int_range(0, 26).remove(a).remove(b);
        lemma_int_range(0, 26);
        assert(all.subset_of(others));
        lemma_len_subset(all, others);
        assert(false);
    }
    let rare = if all.contains(a) { 0int } else { 1int };
    let held = order[rare] as int;
    lemma_letters_of(set, held);
    let k = choose|k: int| 0 <= k < set.len() && (#[trigger] set[k])@.contains(held);
    assert(set[k]@.contains(order[rare] as int));
    assert(is_seed(set[k], order));
}

/// The search from the start finds the solutions for the lines, every one.
proof fn lemma_exhaustive_result(
    words: Seq<BitWord>,
    lines: Seq<String>,
    length: nat,
    count: nat,
    hit: Seq<BitWord>,
)
    requires
        is_dictionary(words, lines, latin(), length),
        count >= 1,
    ensures
        hits(words, 0, Set::empty(), Seq::empty(), count).contains(hit) == solves(
            hit,
            lines,
            length,
            count,
        ),
{
    lemma_all_found(words, count, hit);
    lemma_solution_of_dictionary(hit, words, lines, length, count);
}

/// The search from the seeds finds the solutions for the lines, every one,
/// where these leave at most one letter unused.
proof fn lemma_seeded_result(
    words: Seq<BitWord>,
    sorted: Seq<BitWord>,
    seeds: int,
    order: Seq<u32>,
    lines: Seq<String>,
    length: nat,
    count: nat,
    hit: Seq<BitWord>,
)
    requires
        is_dictionary(words, lines, latin(), length),
        latin().len() == 26,
        sorted.no_duplicates(),
        forall|w: BitWord| sorted.contains(w) == words.contains(w),
        0 <= seeds <= sorted.len(),
        forall|k: int| 0 <= k < sorted.len() ==> is_seed(#[trigger] sorted[k], order) == (k < seeds),
        order.len() == 26,
        order.no_duplicates(),
        forall|k: int| 0 <= k < order.len() ==> (#[trigger] order[k]) < 26,
        count >= 2,
        count * length >= 25,
    ensures
        seeded_hits(sorted, sorted.take(seeds), count, seeds).contains(hit) == solves(
            hit,
            lines,
            length,
            count,
        ),
{
    let first = sorted.take(seeds);
    lemma_seeded_hits(sorted, first, count, seeds, hit);
    lemma_solution_of_dictionary(hit, words, lines, length, count);
    assert(length > 0) by (nonlinear_arith)
        requires
            count * length >= 25,
    ;
    assert(is_solution(hit, sorted, count) == is_solution(hit, words, count));
    if seeded_hits(sorted, first, count, seeds).contains(hit) {
        let i = choose|i: int|
            0 <= i < seeds && #[trigger] hits(sorted, 0, first[i]@, seq![first[i]], count).contains(
                hit,
            );
        assert(first[i] == sorted[i]);
        assert(sorted.contains(sorted[i]));
        lemma_dictionary_word(words, lines, length, first[i]);
        lemma_seed_found(sorted, first[i], count, hit);
    }
    if solves(hit, lines, length, count) {
        assert forall|k: int| 0 <= k < hit.len() implies (#[trigger] hit[k])@.len() == length
            && hit[k]@.subset_of(set_int_range(0, 26)) by {
            assert(words.contains(hit[k]));
            lemma_dictionary_word(words, lines, length, hit[k]);
        }
        lemma_seed_in_every_solution(hit, order, length);
        let k = choose|k: int| 0 <= k < hit.len() && is_seed(#[trigger] hit[k], order);
        assert(words.contains(hit[k]));
        assert(sorted.contains(hit[k]));
        let i = choose|i: int| 0 <= i < sorted.len() && sorted[i] == hit[k];
        assert(is_seed(sorted[i], order));
        assert(first[i] == hit[k]);
        lemma_dictionary_word(words, lines, length, first[i]);
        lemma_seed_found(sorted, first[i], count, hit);
        assert(hit.contains(hit[k]));
        assert(hits(sorted, 0, first[i]@, seq![first[i]], count).contains(hit));
    }
}

/// All groups of `word_count` words of `word_length` letters among the
/// lines, no two words of a group with a letter in common. A line is a word
/// if it is made of `word_length` different letters of the 26, in either
/// case; lines that spell the same letters count as one word. Each group
/// comes once, its words in ascending order of their masks, and the groups
/// in ascending order.
///
/// Where the groups leave at most one letter unused, each of them holds one
/// of the two rarest letters, and the search starts from the words with
/// these; else it starts from every word.
pub fn solve(lines: &Vec<String>, word_length: u32, word_count: u32) -> (r: Result<
    Vec<Vec<BitWord>>,
    ConfigError,
>)
    ensures
        match r {
            Ok(found) => word_length * word_count <= 26 && all_solutions(
                groups(found@),
                lines@,
                word_length as nat,
                word_count as nat,
            ),
            Err(e) => word_length * word_count > 26,
        },
{
    assert(word_length * word_count <= 0xffff_ffff * 0xffff_ffff) by (nonlinear_arith)
        requires
            word_length <= 0xffff_ffff,
            word_count <= 0xffff_ffff,
    ;
    let needed: u64 = (word_length as u64) * (word_count as u64);
    if needed > 26 {
        return Err(ConfigError::AlphabetTooSmall);
    }
    let letters = alphabet();
    let words = prepare(lines, &letters, word_length);
    let count: usize = word_count as usize;
    let ghost length = word_length as nat;
    let mut found: Vec<Vec<BitWord>> = if word_count >= 2 && needed >= 25 {
        let buckets = par_buckets(&words, 26);
        let order = rank_letters(&buckets);
        let (sorted, seeds) = by_rarity(&words, &order);
        let mut first_words = sorted.clone();
        first_words.truncate(seeds);
        let found = find_set_par(&first_words, &sorted, count);
        proof {
            assert(first_words@ =~= sorted@.take(seeds as int));
            assert(count * length == needed) by (nonlinear_arith)
                requires
                    count == word_count,
                    length == word_length,
                    needed == word_length * word_count,
            ;
            assert forall|set: Seq<BitWord>|
                groups(found@).contains(set) == solves(set, lines@, length, count as nat) by {
                lemma_seeded_result(
                    words@,
                    sorted@,
                    seeds as int,
                    order@,
                    lines@,
                    length,
                    count as nat,
                    set,
                );
            }
        }
        found
    } else if word_count == 0 {
        let mut found: Vec<Vec<BitWord>> = Vec::new();
        found.push(Vec::new());
        proof {
            assert forall|set: Seq<BitWord>|
                groups(found@).contains(set) == solves(set, lines@, length, 0) by {
                if solves(set, lines@, length, 0) {
                    assert(set =~= groups(found@)[0]);
                }
            }
        }
        found
    } else {
        let mut set: Vec<BitWord> = Vec::new();
        let found = find_set(&words, 0, BitWord::default(), &mut set, count);
        proof {
            assert forall|set: Seq<BitWord>|
                groups(found@).contains(set) == solves(set, lines@, length, count as nat) by {
                lemma_exhaustive_result(words@, lines@, length, count as nat, set);
            }
        }
        found
    };
    let ghost unsorted = found@;
    sort_sets(&mut found);
    proof {
        unsorted.to_multiset_ensures();
        found@.to_multiset_ensures();
        assert forall|set: Seq<BitWord>|
            groups(found@).contains(set) == groups(unsorted).contains(set) by {
            if groups(found@).contains(set) {
                let k = choose|k: int| 0 <= k < found@.len() && groups(found@)[k] == set;
                assert(found@.contains(found@[k]));
                assert(found@.to_multiset().count(found@[k]) > 0);
                assert(unsorted.contains(found@[k]));
                let m = choose|m: int| 0 <= m < unsorted.len() && unsorted[m] == found@[k];
                assert(groups(unsorted)[m] == set);
            }
            if groups(unsorted).contains(set) {
                let k = choose|k: int| 0 <= k < unsorted.len() && groups(unsorted)[k] == set;
                assert(unsorted.contains(unsorted[k]));
                assert(unsorted.to_multiset().count(unsorted[k]) > 0);
                assert(found@.contains(unsorted[k]));
                let m = choose|m: int| 0 <= m < found@.len() && found@[m] == unsorted[k];
                assert(groups(found@)[m] == set);
            }
        }
    }
    let unique = dedup_sets(&found);
    proof {
        assert forall|set: Seq<BitWord>|
            groups(unique@).contains(set) == solves(set, lines@, length, word_count as nat) by {
            assert(groups(unique@).contains(set) == groups(found@).contains(set));
            assert(groups(found@).contains(set) == groups(unsorted).contains(set));
        }
    }
    Ok(unique)
}

} // verus!
