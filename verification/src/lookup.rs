//! Hash sets and maps keyed by masks, for the questions that a search asks
//! of its dictionary again and again.

use crate::bit_word::{encodable, encoding, lemma_bit_set_injective, lemma_encoding_len, BitWord};
use crate::dictionary::{is_word, spelt_among};
use fnv::{FnvHashMap, FnvHashSet};
use vstd::prelude::*;

verus! {

/// The hasher of the `fnv` crate.
#[verifier::external_type_specification]
#[verifier::external_body]
pub struct ExFnvHasher(fnv::FnvHasher);

/// std's builder of hashers that start from their default state.
#[verifier::external_type_specification]
#[verifier::external_body]
#[verifier::reject_recursive_types(H)]
pub struct ExBuildHasherDefault<H>(std::hash::BuildHasherDefault<H>);

/// `FnvHashSet::default`: a set that holds nothing.
#[verifier::external_body]
fn new_set() -> (set: FnvHashSet<u32>)
    ensures
        set@ == Set::<u32>::empty(),
{
    FnvHashSet::default()
}

/// `HashSet::insert` of std on an `FnvHashSet`: the set holds the mask from
/// then on, and what it held before.
#[verifier::external_body]
fn keep(set: &mut FnvHashSet<u32>, mask: u32)
    ensures
        final(set)@ == old(set)@.insert(mask),
{
    set.insert(mask);
}

/// `HashSet::contains` of std on an `FnvHashSet`: whether the set holds the
/// mask.
#[verifier::external_body]
fn kept(set: &FnvHashSet<u32>, mask: u32) -> (held: bool)
    ensures
        held == set@.contains(mask),
{
    set.contains(&mask)
}

/// `FnvHashMap::default`: a map without entries.
#[verifier::external_body]
fn new_map() -> (index: FnvHashMap<u32, usize>)
    ensures
        index@.dom() == Set::<u32>::empty(),
{
    FnvHashMap::default()
}

/// `HashMap::insert` of std on an `FnvHashMap`: the mask leads to the value
/// from then on, whatever it led to before, and the other entries stay.
#[verifier::external_body]
fn enter(index: &mut FnvHashMap<u32, usize>, mask: u32, value: usize)
    ensures
        final(index)@ == old(index)@.insert(mask, value),
{
    index.insert(mask, value);
}

/// `HashMap::get` of std on an `FnvHashMap`: the value that the mask leads
/// to, if it leads to one.
#[verifier::external_body]
fn entry(index: &FnvHashMap<u32, usize>, mask: u32) -> (value: Option<usize>)
    ensures
        value == (if index@.contains_key(mask) {
            Some(index@[mask])
        } else {
            None
        }),
{
    index.get(&mask).copied()
}

/// A set of words for quick questions of membership.
pub struct WordSet {
    masks: FnvHashSet<u32>,
}

impl View for WordSet {
    type V = Set<BitWord>;

    closed spec fn view(&self) -> Set<BitWord> {
        Set::new(|w: BitWord| self.masks@.contains(w.0))
    }
}

impl WordSet {
    /// The set of the words of a list.
    pub fn new(words: &Vec<BitWord>) -> (set: WordSet)
        ensures
            forall|w: BitWord| set@.contains(w) == words@.contains(w),
    {
        let mut masks = new_set();
        let mut i: usize = 0;
        while i < words.len()
            invariant
                i <= words@.len(),
                forall|m: u32| masks@.contains(m) == words@.take(i as int).contains(BitWord(m)),
            decreases words@.len() - i,
        {
            let ghost before = words@.take(i as int);
            let ghost after = words@.take(i + 1);
            keep(&mut masks, words[i].0);
            proof {
                assert(after =~= before.push(words@[i as int]));
                assert forall|m: u32| masks@.contains(m) == after.contains(BitWord(m)) by {
                    if before.contains(BitWord(m)) {
                        let k = choose|k: int| 0 <= k < before.len() && before[k] == BitWord(m);
                        assert(after[k] == BitWord(m));
                    }
                    if m == words@[i as int].0 {
                        assert(after[i as int] == BitWord(m));
                    }
                    if after.contains(BitWord(m)) {
                        let k = choose|k: int| 0 <= k < after.len() && after[k] == BitWord(m);
                        if k < i {
                            assert(before[k] == BitWord(m));
                        }
                    }
                }
            }
            i += 1;
        }
        proof {
            assert(words@.take(words@.len() as int) =~= words@);
        }
        WordSet { masks }
    }

    /// Whether the word is in the set.
    pub fn contains(&self, w: &BitWord) -> (held: bool)
        ensures
            held == self@.contains(*w),
    {
        kept(&self.masks, w.0)
    }
}

/// Whether line `k` is the last of the lines that spells the word.
pub open spec fn is_last_spelling(
    w: BitWord,
    lines: Seq<String>,
    alphabet: Seq<char>,
    length: nat,
    n: int,
    k: int,
) -> bool {
    &&& 0 <= k < n
    &&& k < lines.len()
    &&& is_word(lines[k]@, alphabet, length)
    &&& w@ == encoding(lines[k]@, alphabet)
    &&& forall|j: int|
        k < j < n && j < lines.len() ==> !(is_word(#[trigger] lines[j]@, alphabet, length) && w@
            == encoding(lines[j]@, alphabet))
}

/// For each word of the dictionary, the line that spells it; where several
/// lines spell the same letters, the last of them.
pub struct WordIndex {
    lines: FnvHashMap<u32, usize>,
}

impl WordIndex {
    /// The line that the index has for the word, if it has one.
    pub closed spec fn line_of(&self, w: BitWord) -> Option<int> {
        if self.lines@.contains_key(w.0) {
            Some(self.lines@[w.0] as int)
        } else {
            None
        }
    }

    /// The index of the lines that are words of the wanted length.
    pub fn new(lines: &Vec<String>, alphabet: &String, length: u32) -> (index: WordIndex)
        ensures
            forall|w: BitWord|
                match #[trigger] index.line_of(w) {
                    Some(k) => is_last_spelling(
                        w,
                        lines@,
                        alphabet@,
                        length as nat,
                        lines@.len() as int,
                        k,
                    ),
                    None => !spelt_among(w, lines@, alphabet@, length as nat, lines@.len() as int),
                },
    {
        let mut found = new_map();
        let mut i: usize = 0;
        while i < lines.len()
            invariant
                i <= lines@.len(),
                forall|m: u32|
                    if #[trigger] found@.contains_key(m) {
                        is_last_spelling(
                            BitWord(m),
                            lines@,
                            alphabet@,
                            length as nat,
                            i as int,
                            found@[m] as int,
                        )
                    } else {
                        !spelt_among(BitWord(m), lines@, alphabet@, length as nat, i as int)
                    },
            decreases lines@.len() - i,
        {
            let ghost before = found@;
            let ghost line = lines@[i as int]@;
            let mut taken: Option<BitWord> = None;
            if lines[i].as_str().unicode_len() == length as usize {
                if let Ok(w) = BitWord::try_encode(&lines[i], alphabet) {
                    if w.count() == length {
                        taken = Some(w);
                        enter(&mut found, w.0, i);
                    }
                }
            }
            proof {
                if encodable(line, alphabet@) {
                    lemma_encoding_len(line, alphabet@);
                }
                assert(taken is Some == is_word(line, alphabet@, length as nat));
                assert forall|m: u32|
                    if #[trigger] found@.contains_key(m) {
                        is_last_spelling(
                            BitWord(m),
                            lines@,
                            alphabet@,
                            length as nat,
                            i + 1,
                            found@[m] as int,
                        )
                    } else {
                        !spelt_among(BitWord(m), lines@, alphabet@, length as nat, i + 1)
                    } by {
                    let w = BitWord(m);
                    let here = is_word(line, alphabet@, length as nat) && w@ == encoding(
                        line,
                        alphabet@,
                    );
                    if here {
                        let newest: BitWord = taken->0;
                        lemma_bit_set_injective(w.0, newest.0);
                        assert(found@[m] == i);
                    } else {
                        if taken is Some {
                            let newest: BitWord = taken->0;
                            assert(newest.0 != m);
                        }
                        assert(found@.contains_key(m) == before.contains_key(m));
                        assert(if before.contains_key(m) {
                            is_last_spelling(
                                w,
                                lines@,
                                alphabet@,
                                length as nat,
                                i as int,
                                before[m] as int,
                            )
                        } else {
                            !spelt_among(w, lines@, alphabet@, length as nat, i as int)
                        });
                        if before.contains_key(m) {
                            assert(found@[m] == before[m]);
                            assert(is_last_spelling(
                                w,
                                lines@,
                                alphabet@,
                                length as nat,
                                i as int,
                                before[m] as int,
                            ));
                        } else {
                            assert(!spelt_among(w, lines@, alphabet@, length as nat, i as int));
                            if spelt_among(w, lines@, alphabet@, length as nat, i + 1) {
                                let k = choose|k: int|
                                    0 <= k < i + 1 && k < lines@.len() && is_word(
                                        #[trigger] lines@[k]@,
                                        alphabet@,
                                        length as nat,
                                    ) && w@ == encoding(lines@[k]@, alphabet@);
                                assert(k < i);
                                assert(spelt_among(w, lines@, alphabet@, length as nat, i as int));
                            }
                        }
                    }
                }
            }
            i += 1;
        }
        let index = WordIndex { lines: found };
        proof {
            assert forall|w: BitWord|
                match #[trigger] index.line_of(w) {
                    Some(k) => is_last_spelling(
                        w,
                        lines@,
                        alphabet@,
                        length as nat,
                        lines@.len() as int,
                        k,
                    ),
                    None => !spelt_among(w, lines@, alphabet@, length as nat, lines@.len() as int),
                } by {
                assert(BitWord(w.0) == w);
                if found@.contains_key(w.0) {
                    assert(is_last_spelling(
                        BitWord(w.0),
                        lines@,
                        alphabet@,
                        length as nat,
                        lines@.len() as int,
                        found@[w.0] as int,
                    ));
                }
            }
        }
        index
    }

    /// The number of the line that spells the word, if one does.
    pub fn line(&self, w: &BitWord) -> (k: Option<usize>)
        ensures
            match k {
                Some(k) => self.line_of(*w) == Some(k as int),
                None => self.line_of(*w) is None,
            },
    {
        entry(&self.lines, w.0)
    }

    /// The words of a group as the lines spell them, in the order of the
    /// group; `None` if the index lacks one of them or names a line that
    /// is not there.
    pub fn spell(&self, lines: &Vec<String>, set: &Vec<BitWord>) -> (spelt: Option<Vec<String>>)
        ensures
            spelt is Some == (forall|k: int|
                0 <= k < set@.len() ==> match #[trigger] self.line_of(set@[k]) {
                    Some(at) => at < lines@.len(),
                    None => false,
                }),
            spelt is Some ==> spelt->0@.len() == set@.len() && forall|k: int|
                0 <= k < set@.len() ==> (#[trigger] spelt->0@[k])@ == lines@[self.line_of(
                    set@[k],
                )->0]@,
    {
        let mut spelt: Vec<String> = Vec::new();
        let mut k: usize = 0;
        while k < set.len()
            invariant
                k <= set@.len(),
                spelt@.len() == k,
                forall|j: int|
                    0 <= j < k ==> match #[trigger] self.line_of(set@[j]) {
                        Some(at) => at < lines@.len(),
                        None => false,
                    },
                forall|j: int|
                    0 <= j < k ==> (#[trigger] spelt@[j])@ == lines@[self.line_of(set@[j])->0]@,
            decreases set@.len() - k,
        {
            match self.line(&set[k]) {
                Some(at) => {
                    if at >= lines.len() {
                        return None;
                    }
                    spelt.push(lines[at].clone());
                },
                None => {
                    return None;
                },
            }
            k += 1;
        }
        Some(spelt)
    }
}

} // verus!
