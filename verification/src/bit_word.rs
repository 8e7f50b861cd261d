//! A word as the set of its letters, held in the bits of a `u32`.

use vstd::prelude::*;
use vstd::set_lib::*;

verus! {

/// Whether bit `i` of `x` is set. No bit at or beyond position 32 is set.
pub open spec fn bit(x: u32, i: int) -> bool {
    0 <= i < 32 && (x >> (i as u32)) & 1u32 == 1u32
}

/// The positions of the bits that are set in `x`.
pub open spec fn bit_set(x: u32) -> Set<int> {
    Set::new(|i: int| bit(x, i))
}

/// A set of letters. Letter `i` of the alphabet is present when bit `i` is set.
#[derive(Debug, Clone, Copy, PartialEq, Eq, Structural, Hash, PartialOrd, Ord)]
pub struct BitWord(pub u32);

impl View for BitWord {
    type V = Set<int>;

    open spec fn view(&self) -> Set<int> {
        bit_set(self.0)
    }
}

/// The bit set of any `u32` is finite and lies within the 32 positions.
pub proof fn lemma_bit_set_finite(x: u32)
    ensures
        bit_set(x).finite(),
        bit_set(x).len() <= 32,
        bit_set(x).subset_of(set_int_range(0, 32)),
{
    lemma_int_range(0, 32);
    assert(bit_set(x).subset_of(set_int_range(0, 32)));
    lemma_len_subset(bit_set(x), set_int_range(0, 32));
}

/// Two masks with the same bit set are the same mask.
pub proof fn lemma_bit_set_injective(x: u32, y: u32)
    requires
        bit_set(x) == bit_set(y),
    ensures
        x == y,
{
    assert forall|i: u32| i < 32 implies ((x >> i) & 1u32 == 1u32) == ((y >> i) & 1u32 == 1u32) by {
        assert(bit_set(x).contains(i as int) == bit(x, i as int));
        assert(bit_set(y).contains(i as int) == bit(y, i as int));
    }
    assert forall|i: u32| i < 32 implies (x >> i) & 1u32 == (y >> i) & 1u32 by {
        lemma_bit_is_zero_or_one(x, i);
        lemma_bit_is_zero_or_one(y, i);
    }
    lemma_same_bits(x, y);
}

proof fn lemma_bit_is_zero_or_one(x: u32, i: u32)
    by (bit_vector)
    ensures
        (x >> i) & 1u32 == 0u32 || (x >> i) & 1u32 == 1u32,
{
}

proof fn lemma_same_bits(x: u32, y: u32)
    by (bit_vector)
    requires
        (x >> 0u32) & 1u32 == (y >> 0u32) & 1u32,
        (x >> 1u32) & 1u32 == (y >> 1u32) & 1u32,
        (x >> 2u32) & 1u32 == (y >> 2u32) & 1u32,
        (x >> 3u32) & 1u32 == (y >> 3u32) & 1u32,
        (x >> 4u32) & 1u32 == (y >> 4u32) & 1u32,
        (x >> 5u32) & 1u32 == (y >> 5u32) & 1u32,
        (x >> 6u32) & 1u32 == (y >> 6u32) & 1u32,
        (x >> 7u32) & 1u32 == (y >> 7u32) & 1u32,
        (x >> 8u32) & 1u32 == (y >> 8u32) & 1u32,
        (x >> 9u32) & 1u32 == (y >> 9u32) & 1u32,
        (x >> 10u32) & 1u32 == (y >> 10u32) & 1u32,
        (x >> 11u32) & 1u32 == (y >> 11u32) & 1u32,
        (x >> 12u32) & 1u32 == (y >> 12u32) & 1u32,
        (x >> 13u32) & 1u32 == (y >> 13u32) & 1u32,
        (x >> 14u32) & 1u32 == (y >> 14u32) & 1u32,
        (x >> 15u32) & 1u32 == (y >> 15u32) & 1u32,
        (x >> 16u32) & 1u32 == (y >> 16u32) & 1u32,
        (x >> 17u32) & 1u32 == (y >> 17u32) & 1u32,
        (x >> 18u32) & 1u32 == (y >> 18u32) & 1u32,
        (x >> 19u32) & 1u32 == (y >> 19u32) & 1u32,
        (x >> 20u32) & 1u32 == (y >> 20u32) & 1u32,
        (x >> 21u32) & 1u32 == (y >> 21u32) & 1u32,
        (x >> 22u32) & 1u32 == (y >> 22u32) & 1u32,
        (x >> 23u32) & 1u32 == (y >> 23u32) & 1u32,
        (x >> 24u32) & 1u32 == (y >> 24u32) & 1u32,
        (x >> 25u32) & 1u32 == (y >> 25u32) & 1u32,
        (x >> 26u32) & 1u32 == (y >> 26u32) & 1u32,
        (x >> 27u32) & 1u32 == (y >> 27u32) & 1u32,
        (x >> 28u32) & 1u32 == (y >> 28u32) & 1u32,
        (x >> 29u32) & 1u32 == (y >> 29u32) & 1u32,
        (x >> 30u32) & 1u32 == (y >> 30u32) & 1u32,
        (x >> 31u32) & 1u32 == (y >> 31u32) & 1u32,
    ensures
        x == y,
{
}


proof fn lemma_bit_or(a: u32, b: u32, i: u32)
    by (bit_vector)
    requires
        i < 32,
    ensures
        (((a | b) >> i) & 1u32 == 1u32) == ((a >> i) & 1u32 == 1u32 || (b >> i) & 1u32 == 1u32),
{
}

proof fn lemma_bit_and(a: u32, b: u32, i: u32)
    by (bit_vector)
    requires
        i < 32,
    ensures
        (((a & b) >> i) & 1u32 == 1u32) == ((a >> i) & 1u32 == 1u32 && (b >> i) & 1u32 == 1u32),
{
}

proof fn lemma_bit_xor(a: u32, b: u32, i: u32)
    by (bit_vector)
    requires
        i < 32,
    ensures
        (((a ^ b) >> i) & 1u32 == 1u32) == (((a >> i) & 1u32 == 1u32) != ((b >> i) & 1u32
            == 1u32)),
{
}

proof fn lemma_bit_single(j: u32, i: u32)
    by (bit_vector)
    requires
        i < 32,
        j < 32,
    ensures
        (((1u32 << j) >> i) & 1u32 == 1u32) == (i == j),
{
}

proof fn lemma_bit_test(x: u32, i: u32)
    by (bit_vector)
    requires
        i < 32,
    ensures
        (x & (1u32 << i) != 0u32) == ((x >> i) & 1u32 == 1u32),
{
}

proof fn lemma_bit_below(n: u32, m: u32, x: u32, i: u32)
    by (bit_vector)
    requires
        i < 32,
        n < 32,
        m + 1 == (1u32 << n),
    ensures
        (((!x & m) >> i) & 1u32 == 1u32) == (i < n && (x >> i) & 1u32 != 1u32),
{
}

proof fn lemma_bit_not(x: u32, i: u32)
    by (bit_vector)
    requires
        i < 32,
    ensures
        (((!x) >> i) & 1u32 == 1u32) == ((x >> i) & 1u32 != 1u32),
{
}

proof fn lemma_bit_none(i: u32)
    by (bit_vector)
    requires
        i < 32,
    ensures
        (0u32 >> i) & 1u32 == 0u32,
{
}

proof fn lemma_shift_positive(n: u32)
    by (bit_vector)
    requires
        n < 32,
    ensures
        1u32 << n >= 1u32,
{
}

/// The mask with no bit set is the empty set, and no other mask is.
pub proof fn lemma_bit_set_empty(x: u32)
    ensures
        (x == 0) == (bit_set(x) == Set::<int>::empty()),
{
    assert(bit_set(0u32) =~= Set::<int>::empty()) by {
        assert forall|i: int| !bit(0u32, i) by {
            if 0 <= i < 32 {
                lemma_bit_none(i as u32);
            }
        }
    }
    if bit_set(x) == Set::<int>::empty() {
        lemma_bit_set_injective(x, 0u32);
    }
}

/// The mask with the bits of both masks is the union of their sets.
pub proof fn lemma_bit_set_union(x: u32, y: u32)
    ensures
        bit_set(x | y) == bit_set(x).union(bit_set(y)),
{
    assert forall|k: int| bit(x | y, k) == (bit(x, k) || bit(y, k)) by {
        if 0 <= k < 32 {
            lemma_bit_or(x, y, k as u32);
        }
    }
    assert(bit_set(x | y) =~= bit_set(x).union(bit_set(y)));
}

/// The letters of the set below `n`, in ascending order.
pub open spec fn letters_below(letters: Set<int>, n: int) -> Seq<u32>
    decreases n,
{
    if n <= 0 {
        Seq::empty()
    } else {
        let before = letters_below(letters, n - 1);
        if letters.contains(n - 1) {
            before.push((n - 1) as u32)
        } else {
            before
        }
    }
}

/// Where the set has no letter from `low` up to `high`, its letters below
/// the one are those below the other.
proof fn lemma_letters_gap(letters: Set<int>, low: int, high: int)
    requires
        low <= high,
        forall|k: int| low <= k < high ==> !letters.contains(k),
    ensures
        letters_below(letters, high) == letters_below(letters, low),
    decreases high - low,
{
    if low < high {
        lemma_letters_gap(letters, low, high - 1);
    }
}

/// The word that holds just the letters of the set.
pub open spec fn word_of(letters: Set<int>) -> BitWord {
    choose|w: BitWord| w@ == letters
}

/// A word is the word of its letters.
pub proof fn lemma_word_of(w: BitWord)
    ensures
        word_of(w@) == w,
{
    lemma_bit_set_injective(word_of(w@).0, w.0);
}

/// `u32::count_ones` of std: the number of bits of `x` that are set.
#[verifier::external_body]
fn count_ones(x: u32) -> (n: u32)
    ensures
        n as nat == bit_set(x).len(),
{
    x.count_ones()
}

/// The upper-case form of an ASCII letter; any other character is itself.
pub open spec fn upper(c: char) -> char {
    if 'a' <= c <= 'z' {
        ((c as u8 - 32) as u8) as char
    } else {
        c
    }
}

/// The position that a character takes in the alphabet: that of the first
/// occurrence of its upper-case form, if there is one.
pub open spec fn letter(alphabet: Seq<char>, c: char) -> Option<int> {
    alphabet.index_of_first(upper(c))
}

/// Whether the character is a letter of the alphabet that a [`BitWord`]
/// has a bit for.
pub open spec fn has_letter(alphabet: Seq<char>, c: char) -> bool {
    match letter(alphabet, c) {
        Some(i) => i < 32,
        None => false,
    }
}

/// A word that cannot be encoded: it holds a character that is no letter
/// of the alphabet.
#[derive(Debug, Clone, Copy, PartialEq, Eq, Structural)]
pub struct EncodingError {
    /// The place of the first such character in the word.
    pub position: usize,
}

/// Whether each character of the word is a letter of the alphabet that a
/// [`BitWord`] has a bit for.
pub open spec fn encodable(word: Seq<char>, alphabet: Seq<char>) -> bool {
    forall|k: int|
        0 <= k < word.len() ==> match #[trigger] letter(alphabet, word[k]) {
            Some(i) => i < 32,
            None => false,
        }
}

/// How many characters of the word stand for letter `i`.
pub open spec fn occurrences(word: Seq<char>, alphabet: Seq<char>, i: int) -> nat
    decreases word.len(),
{
    if word.len() == 0 {
        0
    } else {
        let before = occurrences(word.drop_last(), alphabet, i);
        if letter(alphabet, word.last()) == Some(i) {
            before + 1
        } else {
            before
        }
    }
}

/// The letters that the word holds an odd number of times: a letter written
/// twice cancels itself.
pub open spec fn encoding(word: Seq<char>, alphabet: Seq<char>) -> Set<int> {
    Set::new(|i: int| 0 <= i < 32 && occurrences(word, alphabet, i) % 2 == 1)
}

/// Whether no letter is written twice in the word, whatever its case.
pub open spec fn no_repeated_letter(word: Seq<char>) -> bool {
    forall|j: int, k: int| 0 <= j < k < word.len() ==> upper(word[j]) != upper(word[k])
}

/// What [`BitWord::format`] writes: the alphabet, with `-` in place of each
/// letter that the word lacks.
pub open spec fn formatted(letters: Set<int>, alphabet: Seq<char>) -> Seq<char> {
    Seq::new(
        alphabet.len(),
        |i: int|
            if letters.contains(i) {
                alphabet[i]
            } else {
                '-'
            },
    )
}

/// Whether the sequence can serve as an alphabet: at most 32 letters, each
/// in its upper-case form and none of them twice.
pub open spec fn is_alphabet(alphabet: Seq<char>) -> bool {
    &&& alphabet.len() <= 32
    &&& alphabet.no_duplicates()
    &&& forall|k: int| 0 <= k < alphabet.len() ==> upper(#[trigger] alphabet[k]) == alphabet[k]
}

/// The letters of a set among the first `n` of the alphabet, written in the
/// alphabet's order.
pub open spec fn spelling(letters: Set<int>, alphabet: Seq<char>, n: nat) -> Seq<char>
    decreases n,
{
    if n == 0 {
        Seq::empty()
    } else {
        let before = spelling(letters, alphabet, (n - 1) as nat);
        if letters.contains(n - 1) {
            before.push(alphabet[n - 1])
        } else {
            before
        }
    }
}

/// Whether some character of the word stands for letter `i`.
pub open spec fn spells(word: Seq<char>, alphabet: Seq<char>, i: int) -> bool {
    exists|j: int| 0 <= j < word.len() && #[trigger] letter(alphabet, word[j]) == Some(i)
}

/// In an alphabet, each letter stands at its own position.
pub proof fn lemma_letter_of_alphabet(alphabet: Seq<char>, k: int)
    requires
        is_alphabet(alphabet),
        0 <= k < alphabet.len(),
    ensures
        letter(alphabet, alphabet[k]) == Some(k),
{
    alphabet.index_of_first_ensures(alphabet[k]);
    assert(alphabet.contains(alphabet[k]));
}

/// Two characters take the same position exactly when they are the same
/// letter, whatever their case.
pub proof fn lemma_letter_injective(alphabet: Seq<char>, a: char, b: char)
    requires
        letter(alphabet, a) is Some,
    ensures
        (letter(alphabet, a) == letter(alphabet, b)) == (upper(a) == upper(b)),
{
    alphabet.index_of_first_ensures(upper(a));
    alphabet.index_of_first_ensures(upper(b));
}

/// A letter that the word holds at least once is spelt by one of its
/// characters.
proof fn lemma_occurrences_spelt(word: Seq<char>, alphabet: Seq<char>, i: int)
    requires
        occurrences(word, alphabet, i) > 0,
    ensures
        spells(word, alphabet, i),
    decreases word.len(),
{
    if letter(alphabet, word.last()) == Some(i) {
        assert(letter(alphabet, word[word.len() - 1]) == Some(i));
    } else {
        let shorter = word.drop_last();
        lemma_occurrences_spelt(shorter, alphabet, i);
        let j = choose|j: int|
            0 <= j < shorter.len() && #[trigger] letter(alphabet, shorter[j]) == Some(i);
        assert(letter(alphabet, word[j]) == Some(i));
    }
}

/// An encoded word holds only letters of the alphabet.
pub proof fn lemma_encoding_within(word: Seq<char>, alphabet: Seq<char>)
    ensures
        encoding(word, alphabet).subset_of(set_int_range(0, alphabet.len() as int)),
{
    assert forall|i: int| encoding(word, alphabet).contains(i) implies 0 <= i < alphabet.len() by {
        lemma_occurrences_spelt(word, alphabet, i);
        let j = choose|j: int| 0 <= j < word.len() && #[trigger] letter(alphabet, word[j]) == Some(i);
        alphabet.index_of_first_ensures(upper(word[j]));
    }
}

/// Writing one more character toggles its letter and leaves the others.
proof fn lemma_encoding_push(word: Seq<char>, alphabet: Seq<char>)
    requires
        word.len() > 0,
        encodable(word, alphabet),
    ensures
        encodable(word.drop_last(), alphabet),
        letter(alphabet, word.last()) is Some,
        ({
            let i = letter(alphabet, word.last())->0;
            let before = encoding(word.drop_last(), alphabet);
            &&& 0 <= i < 32
            &&& before.contains(i) ==> encoding(word, alphabet) == before.remove(i)
            &&& !before.contains(i) ==> encoding(word, alphabet) == before.insert(i)
        }),
{
    let before = encoding(word.drop_last(), alphabet);
    assert(letter(alphabet, word[word.len() - 1]) is Some);
    alphabet.index_of_first_ensures(upper(word.last()));
    let i = letter(alphabet, word.last())->0;
    assert forall|k: int| 0 <= k < word.drop_last().len() implies match #[trigger] letter(
        alphabet,
        word.drop_last()[k],
    ) {
        Some(i) => i < 32,
        None => false,
    } by {
        assert(word.drop_last()[k] == word[k]);
    }
    if before.contains(i) {
        assert(encoding(word, alphabet) =~= before.remove(i));
    } else {
        assert(encoding(word, alphabet) =~= before.insert(i));
    }
}

/// An encoded word has at most as many letters as the word has characters,
/// and exactly as many when no letter is written twice.
pub proof fn lemma_encoding_len(word: Seq<char>, alphabet: Seq<char>)
    requires
        encodable(word, alphabet),
    ensures
        encoding(word, alphabet).finite(),
        encoding(word, alphabet).len() <= word.len(),
        (encoding(word, alphabet).len() == word.len()) == no_repeated_letter(word),
        no_repeated_letter(word) ==> forall|i: int|
            encoding(word, alphabet).contains(i) == spells(word, alphabet, i),
    decreases word.len(),
{
    let now = encoding(word, alphabet);
    if word.len() == 0 {
        assert(now =~= Set::<int>::empty());
        assert forall|i: int| !spells(word, alphabet, i) by {}
    } else {
        let shorter = word.drop_last();
        let before = encoding(shorter, alphabet);
        lemma_encoding_push(word, alphabet);
        lemma_encoding_len(shorter, alphabet);
        let i = letter(alphabet, word.last())->0;
        assert forall|j: int| 0 <= j < shorter.len() implies shorter[j] == word[j] by {}
        if no_repeated_letter(shorter) {
            // the last letter is new exactly when no earlier character spells it
            if spells(shorter, alphabet, i) {
                let j = choose|j: int|
                    0 <= j < shorter.len() && #[trigger] letter(alphabet, shorter[j]) == Some(i);
                lemma_letter_injective(alphabet, word.last(), shorter[j]);
                assert(upper(word[j]) == upper(word[word.len() - 1]));
                assert(!no_repeated_letter(word));
            } else {
                assert forall|j: int, k: int| 0 <= j < k < word.len() implies upper(word[j])
                    != upper(word[k]) by {
                    if k == word.len() - 1 {
                        lemma_letter_injective(alphabet, word.last(), shorter[j]);
                        assert(letter(alphabet, shorter[j]) != Some(i));
                    } else {
                        assert(upper(shorter[j]) != upper(shorter[k]));
                    }
                }
                assert forall|l: int| now.contains(l) == spells(word, alphabet, l) by {
                    if spells(word, alphabet, l) {
                        let j = choose|j: int|
                            0 <= j < word.len() && #[trigger] letter(alphabet, word[j]) == Some(
                                l,
                            );
                        if j < shorter.len() {
                            assert(letter(alphabet, shorter[j]) == Some(l));
                            assert(spells(shorter, alphabet, l));
                        }
                    }
                    if now.contains(l) && l != i {
                        assert(spells(shorter, alphabet, l));
                        let j = choose|j: int|
                            0 <= j < shorter.len() && #[trigger] letter(alphabet, shorter[j])
                                == Some(l);
                        assert(letter(alphabet, word[j]) == Some(l));
                    }
                    if l == i {
                        assert(letter(alphabet, word[word.len() - 1]) == Some(l));
                    }
                }
            }
        } else {
            let (j, k) = choose|j: int, k: int|
                0 <= j < k < shorter.len() && upper(shorter[j]) == upper(shorter[k]);
            assert(upper(word[j]) == upper(word[k]));
        }
    }
}

/// Two words are disjoint exactly when the letters of both together are as
/// many as those of the one and those of the other.
pub proof fn lemma_merge_count(a: BitWord, b: BitWord)
    ensures
        a@.disjoint(b@) == (a@.intersect(b@) == Set::<int>::empty()),
        a@.disjoint(b@) == (a@.union(b@).len() == a@.len() + b@.len()),
{
    lemma_bit_set_finite(a.0);
    lemma_bit_set_finite(b.0);
    lemma_set_intersect_union_lens(a@, b@);
    let common = a@.intersect(b@);
    if a@.disjoint(b@) {
        assert(common =~= Set::<int>::empty());
    } else {
        let k = choose|k: int| a@.contains(k) && b@.contains(k);
        assert(common.contains(k));
        assert(common.len() != 0);
    }
}

/// Merging a word with itself changes nothing.
pub proof fn lemma_merge_idempotent(a: BitWord)
    ensures
        a@.union(a@) == a@,
        a.0 | a.0 == a.0,
{
    assert(a@.union(a@) =~= a@);
    let x = a.0;
    assert(x | x == x) by (bit_vector);
}

/// Spelling a set of letters and encoding what was spelt gives the letters
/// back, as far as the alphabet has them.
pub proof fn lemma_spelling_encodes(letters: Set<int>, alphabet: Seq<char>, n: nat)
    requires
        is_alphabet(alphabet),
        n <= alphabet.len(),
    ensures
        encodable(spelling(letters, alphabet, n), alphabet),
        encoding(spelling(letters, alphabet, n), alphabet) == letters.intersect(
            set_int_range(0, n as int),
        ),
        no_repeated_letter(spelling(letters, alphabet, n)),
        forall|j: int|
            0 <= j < spelling(letters, alphabet, n).len() ==> exists|k: int|
                0 <= k < n && alphabet[k] == #[trigger] spelling(letters, alphabet, n)[j],
    decreases n,
{
    let word = spelling(letters, alphabet, n);
    if n == 0 {
        assert(encoding(word, alphabet) =~= letters.intersect(set_int_range(0, 0)));
    } else {
        let before = spelling(letters, alphabet, (n - 1) as nat);
        lemma_spelling_encodes(letters, alphabet, (n - 1) as nat);
        if letters.contains(n - 1) {
            lemma_letter_of_alphabet(alphabet, n - 1);
            assert(word.drop_last() =~= before);
            assert forall|j: int| 0 <= j < word.len() implies (exists|k: int|
                0 <= k < n && alphabet[k] == #[trigger] word[j]) by {
                if j < before.len() {
                    let k = choose|k: int| 0 <= k < n - 1 && alphabet[k] == before[j];
                    assert(alphabet[k] == word[j]);
                } else {
                    assert(alphabet[n - 1] == word[j]);
                }
            }
            assert forall|j: int| 0 <= j < word.len() implies match #[trigger] letter(
                alphabet,
                word[j],
            ) {
                Some(i) => i < 32,
                None => false,
            } by {
                let k = choose|k: int| 0 <= k < n && alphabet[k] == word[j];
                lemma_letter_of_alphabet(alphabet, k);
            }
            assert forall|j: int, k: int| 0 <= j < k < word.len() implies upper(word[j])
                != upper(word[k]) by {
                if k == word.len() - 1 {
                    let m = choose|m: int| 0 <= m < n - 1 && alphabet[m] == before[j];
                    assert(word[j] == alphabet[m]);
                    assert(word[k] == alphabet[n - 1]);
                } else {
                    assert(upper(before[j]) != upper(before[k]));
                }
            }
            lemma_encoding_push(word, alphabet);
            assert(encoding(word, alphabet) =~= letters.intersect(set_int_range(0, n as int)));
        } else {
            assert(encoding(word, alphabet) =~= letters.intersect(set_int_range(0, n as int)));
        }
    }
}

/// A word spelt out over an alphabet that has all its letters encodes to
/// the same word again.
pub proof fn lemma_round_trip(word: BitWord, alphabet: Seq<char>)
    requires
        is_alphabet(alphabet),
        word@.subset_of(set_int_range(0, alphabet.len() as int)),
    ensures
        encodable(spelling(word@, alphabet, alphabet.len()), alphabet),
        encoding(spelling(word@, alphabet, alphabet.len()), alphabet) == word@,
{
    lemma_spelling_encodes(word@, alphabet, alphabet.len());
    assert(word@.intersect(set_int_range(0, alphabet.len() as int)) =~= word@);
}

/// `char::to_ascii_uppercase` of std: an ASCII lower-case letter becomes its
/// upper-case form, and every other character stays as it is.
#[verifier::external_body]
fn to_ascii_uppercase(c: char) -> (r: char)
    ensures
        r == upper(c),
{
    c.to_ascii_uppercase()
}

/// Collecting characters into a `String` with std's `Iterator::collect`: the
/// string holds the same characters in the same order.
#[verifier::external_body]
fn string_of(chars: &Vec<char>) -> (s: String)
    ensures
        s@ == chars@,
{
    chars.iter().collect()
}

/// The position of the first occurrence of `c` in the alphabet.
fn find(alphabet: &str, c: char) -> (r: Option<usize>)
    ensures
        match r {
            Some(i) => alphabet@.index_of_first(c) == Some(i as int) && i < alphabet@.len(),
            None => alphabet@.index_of_first(c) is None,
        },
{
    let n: usize = alphabet.unicode_len();
    let mut k: usize = 0;
    proof {
        alphabet@.index_of_first_ensures(c);
    }
    while k < n
        invariant
            n == alphabet@.len(),
            k <= n,
            forall|j: int| 0 <= j < k ==> alphabet@[j] != c,
        decreases n - k,
    {
        if alphabet.get_char(k) == c {
            proof {
                alphabet@.index_of_first_ensures(c);
                let i = alphabet@.index_of_first(c)->0;
                assert(alphabet@.contains(c));
                if i < k {
                    assert(alphabet@[i] != c);
                }
                if k < i {
                    assert(alphabet@[k as int] == c);
                }
            }
            return Some(k);
        }
        k += 1;
    }
    proof {
        alphabet@.index_of_first_ensures(c);
        if alphabet@.contains(c) {
            let j = choose|j: int| 0 <= j < alphabet@.len() && alphabet@[j] == c;
            assert(alphabet@[j] != c);
        }
    }
    None
}

impl Default for BitWord {
    /// The word with no letter.
    fn default() -> (r: BitWord)
        ensures
            r.0 == 0,
            r@ == Set::<int>::empty(),
    {
        proof {
            lemma_bit_set_empty(0u32);
        }
        BitWord(0)
    }
}

impl BitWord {
    /// The letters of the word, read in the alphabet: each character toggles
    /// its letter, so a letter written an even number of times is absent.
    pub fn encode(word: &String, alphabet: &String) -> (r: BitWord)
        requires
            encodable(word@, alphabet@),
        ensures
            r@ == encoding(word@, alphabet@),
    {
        match BitWord::try_encode(word, alphabet) {
            Ok(r) => r,
            Err(_) => BitWord::default(),
        }
    }

    /// As [`BitWord::encode`], for any word: an error when a character of
    /// the word is no letter of the alphabet, with the place of the first.
    pub fn try_encode(word: &String, alphabet: &String) -> (r: Result<BitWord, EncodingError>)
        ensures
            r is Ok == encodable(word@, alphabet@),
            match r {
                Ok(w) => w@ == encoding(word@, alphabet@),
                Err(e) => e.position < word@.len() && !has_letter(
                    alphabet@,
                    word@[e.position as int],
                ) && encodable(word@.take(e.position as int), alphabet@),
            },
    {
        let n: usize = word.as_str().unicode_len();
        let mut acc = BitWord::default();
        let mut k: usize = 0;
        proof {
            assert(encoding(word@.take(0), alphabet@) =~= Set::<int>::empty());
        }
        while k < n
            invariant
                n == word@.len(),
                k <= n,
                encodable(word@.take(k as int), alphabet@),
                acc@ == encoding(word@.take(k as int), alphabet@),
            decreases n - k,
        {
            let c = to_ascii_uppercase(word.as_str().get_char(k));
            let ghost prefix = word@.take(k as int);
            let ghost longer = word@.take(k as int + 1);
            proof {
                assert(longer.drop_last() =~= prefix);
                assert(longer.last() == word@[k as int]);
            }
            let i: u32 = match find(alphabet.as_str(), c) {
                Some(i) => {
                    if i >= 32 {
                        proof {
                            assert(!(letter(alphabet@, word@[k as int])->0 < 32));
                        }
                        return Err(EncodingError { position: k });
                    }
                    i as u32
                },
                None => {
                    proof {
                        assert(letter(alphabet@, word@[k as int]) is None);
                    }
                    return Err(EncodingError { position: k });
                },
            };
            acc = acc.toggle(i);
            proof {
                assert forall|j: int| 0 <= j < longer.len() implies match #[trigger] letter(
                    alphabet@,
                    longer[j],
                ) {
                    Some(i) => i < 32,
                    None => false,
                } by {
                    if j < k {
                        assert(longer[j] == prefix[j]);
                    }
                }
                assert(acc@ =~= encoding(longer, alphabet@));
            }
            k += 1;
        }
        proof {
            assert(word@.take(n as int) =~= word@);
        }
        Ok(acc)
    }

    /// The word written out over the alphabet: each letter in its place where
    /// the word has it, and `-` where it has not.
    pub fn format(&self, alphabet: &String) -> (s: String)
        ensures
            s@ == formatted(self@, alphabet@),
    {
        let n: usize = alphabet.as_str().unicode_len();
        let mut out: Vec<char> = Vec::new();
        let mut k: usize = 0;
        while k < n
            invariant
                n == alphabet@.len(),
                k <= n,
                out@.len() == k,
                forall|j: int| 0 <= j < k ==> out@[j] == formatted(self@, alphabet@)[j],
            decreases n - k,
        {
            let present = k < 32 && self.contains(k as u32);
            let c = if present {
                alphabet.as_str().get_char(k)
            } else {
                '-'
            };
            out.push(c);
            k += 1;
        }
        proof {
            assert(out@ =~= formatted(self@, alphabet@));
        }
        string_of(&out)
    }

    /// The letters of the word in the alphabet's order, without the gaps
    /// that [`BitWord::format`] leaves.
    pub fn decode(&self, alphabet: &String) -> (s: String)
        ensures
            s@ == spelling(self@, alphabet@, alphabet@.len()),
    {
        let n: usize = alphabet.as_str().unicode_len();
        let mut out: Vec<char> = Vec::new();
        let mut k: usize = 0;
        while k < n
            invariant
                n == alphabet@.len(),
                k <= n,
                out@ == spelling(self@, alphabet@, k as nat),
            decreases n - k,
        {
            if k < 32 && self.contains(k as u32) {
                out.push(alphabet.as_str().get_char(k));
            }
            k += 1;
        }
        string_of(&out)
    }

    /// Adds letter `i` if it is absent and removes it if it is present.
    pub fn toggle(&self, i: u32) -> (r: BitWord)
        requires
            i < 32,
        ensures
            r.0 == self.0 ^ (1u32 << i),
            self@.contains(i as int) ==> r@ == self@.remove(i as int),
            !self@.contains(i as int) ==> r@ == self@.insert(i as int),
    {
        let r = BitWord(self.0 ^ (1u32 << i));
        proof {
            assert forall|k: int| r@.contains(k) == (self@.contains(k) != (k == i)) by {
                if 0 <= k < 32 {
                    lemma_bit_xor(self.0, 1u32 << i, k as u32);
                    lemma_bit_single(i, k as u32);
                }
            }
            if self@.contains(i as int) {
                assert(r@ =~= self@.remove(i as int));
            } else {
                assert(r@ =~= self@.insert(i as int));
            }
        }
        r
    }

    /// Whether the word has no letter at all.
    pub fn empty(&self) -> (r: bool)
        ensures
            r == (self@ == Set::<int>::empty()),
            r == (self.0 == 0),
    {
        proof {
            lemma_bit_set_empty(self.0);
        }
        self.0 == 0
    }

    /// The letters that are in either word.
    pub fn merge(&self, other: &BitWord) -> (r: BitWord)
        ensures
            r.0 == self.0 | other.0,
            r@ == self@.union(other@),
    {
        let r = BitWord(self.0 | other.0);
        proof {
            assert forall|k: int| r@.contains(k) == (self@.contains(k) || other@.contains(k)) by {
                if 0 <= k < 32 {
                    lemma_bit_or(self.0, other.0, k as u32);
                }
            }
            assert(r@ =~= self@.union(other@));
        }
        r
    }

    /// The letters that are in both words.
    pub fn intersect(&self, other: &BitWord) -> (r: BitWord)
        ensures
            r.0 == self.0 & other.0,
            r@ == self@.intersect(other@),
    {
        let r = BitWord(self.0 & other.0);
        proof {
            assert forall|k: int| r@.contains(k) == (self@.contains(k) && other@.contains(k)) by {
                if 0 <= k < 32 {
                    lemma_bit_and(self.0, other.0, k as u32);
                }
            }
            assert(r@ =~= self@.intersect(other@));
        }
        r
    }

    /// Whether the two words share a letter.
    pub fn has_overlap(&self, other: &BitWord) -> (r: bool)
        ensures
            r == !self@.disjoint(other@),
            r == (self.0 & other.0 != 0),
    {
        let common = self.intersect(other);
        proof {
            if self@.disjoint(other@) {
                assert(common@ =~= Set::<int>::empty());
            } else {
                let k = choose|k: int| self@.contains(k) && other@.contains(k);
                assert(common@.contains(k));
            }
        }
        !common.empty()
    }

    /// The letters that are in exactly one of the two words.
    pub fn flip(&self, other: &BitWord) -> (r: BitWord)
        ensures
            r.0 == self.0 ^ other.0,
            r@ == self@.difference(other@).union(other@.difference(self@)),
    {
        let r = BitWord(self.0 ^ other.0);
        proof {
            assert forall|k: int| r@.contains(k) == (self@.contains(k) != other@.contains(k)) by {
                if 0 <= k < 32 {
                    lemma_bit_xor(self.0, other.0, k as u32);
                }
            }
            assert(r@ =~= self@.difference(other@).union(other@.difference(self@)));
        }
        r
    }

    /// Whether letter `i` is in the word. No word holds a letter beyond the 32nd.
    pub fn contains(&self, i: u32) -> (r: bool)
        ensures
            r == self@.contains(i as int),
    {
        if i >= 32 {
            return false;
        }
        proof {
            lemma_bit_test(self.0, i);
        }
        self.0 & (1u32 << i) != 0
    }

    /// The number of letters in the word.
    pub fn count(&self) -> (n: u32)
        ensures
            n as nat == self@.len(),
            n <= 32,
    {
        proof {
            lemma_bit_set_finite(self.0);
        }
        count_ones(self.0)
    }

    /// The letters of the alphabet that are not in the word. The alphabet's
    /// letters are those at positions below its length.
    pub fn invert(&self, alphabet: &String) -> (r: BitWord)
        requires
            alphabet@.len() <= 32,
        ensures
            r@ == set_int_range(0, alphabet@.len() as int).difference(self@),
    {
        let n: usize = alphabet.as_str().unicode_len();
        let r = if n >= 32 {
            BitWord(!self.0)
        } else {
            let width: u32 = n as u32;
            proof {
                lemma_shift_positive(width);
            }
            let mask: u32 = (1u32 << width) - 1;
            BitWord(!self.0 & mask)
        };
        proof {
            assert forall|k: int| r@.contains(k) == (0 <= k < n && !self@.contains(k)) by {
                if 0 <= k < 32 {
                    if n >= 32 {
                        lemma_bit_not(self.0, k as u32);
                    } else {
                        let m: u32 = ((1u32 << (n as u32)) - 1) as u32;
                        lemma_bit_below(n as u32, m, self.0, k as u32);
                    }
                }
            }
            assert(r@ =~= set_int_range(0, alphabet@.len() as int).difference(self@));
        }
        r
    }

    /// The letters of the word, in ascending order. Each call starts afresh
    /// and leaves the word as it was.
    pub fn bits(&self) -> (r: Vec<u32>)
        ensures
            forall|k: int| 0 <= k < r@.len() ==> self@.contains(#[trigger] r@[k] as int),
            forall|i: int| self@.contains(i) ==> exists|k: int| 0 <= k < r@.len() && r@[k] == i,
            forall|j: int, k: int| 0 <= j < k < r@.len() ==> r@[j] < r@[k],
            r@.len() == self@.len(),
            r@ == letters_below(self@, 32),
    {
        let mut out: Vec<u32> = Vec::new();
        let mut rest: u32 = self.0;
        let ghost mut low: int = 0;
        proof {
            assert(bit_set(rest) =~= self@.difference(set_int_range(0, low)));
            assert(self@.intersect(set_int_range(0, low)) =~= Set::<int>::empty());
        }
        while rest != 0
            invariant
                0 <= low <= 32,
                bit_set(rest) == self@.difference(set_int_range(0, low)),
                forall|k: int| 0 <= k < out@.len() ==> #[trigger] out@[k] < low,
                forall|k: int| 0 <= k < out@.len() ==> self@.contains(#[trigger] out@[k] as int),
                forall|i: int|
                    self@.contains(i) && i < low ==> exists|k: int|
                        0 <= k < out@.len() && out@[k] == i,
                forall|j: int, k: int| 0 <= j < k < out@.len() ==> out@[j] < out@[k],
                out@.len() == self@.intersect(set_int_range(0, low)).len(),
                out@ == letters_below(self@, low),
            decreases 32 - low,
        {
            broadcast use vstd::std_specs::bits::axiom_u32_trailing_zeros;

            let index: u32 = rest.trailing_zeros();
            let ghost before = rest;
            let ghost seen = self@.intersect(set_int_range(0, low));
            let ghost found = out@;
            proof {
                assert(bit(before, index as int));
                assert(bit_set(before).contains(index as int));
                assert(index >= low);
                lemma_bit_set_finite(self.0);
                lemma_len_subset(seen, self@);
            }
            rest = rest ^ (1u32 << index);
            out.push(index);
            proof {
                let next = index as int + 1;
                assert forall|k: int| bit(rest, k) == (bit(before, k) != (k == index)) by {
                    if 0 <= k < 32 {
                        lemma_bit_xor(before, 1u32 << index, k as u32);
                        lemma_bit_single(index, k as u32);
                    }
                }
                assert forall|k: int| low <= k < index implies !self@.contains(k) by {
                    assert((before >> (k as u32)) & 1u32 == 0u32);
                    assert(!bit_set(before).contains(k));
                }
                lemma_letters_gap(self@, low, index as int);
                assert(self@.contains(index as int));
                assert(out@ =~= letters_below(self@, next));
                assert(bit_set(rest) =~= self@.difference(set_int_range(0, next))) by {
                    assert forall|k: int|
                        bit_set(rest).contains(k) == self@.difference(
                            set_int_range(0, next),
                        ).contains(k) by {
                        assert(bit_set(before).contains(k) == bit(before, k));
                    }
                }
                assert(self@.intersect(set_int_range(0, next)) =~= seen.insert(index as int));
                assert forall|i: int| self@.contains(i) && i < next implies exists|k: int|
                    0 <= k < out@.len() && out@[k] == i by {
                    if i == index {
                        assert(out@[out@.len() - 1] == i);
                    } else {
                        assert(i < low);
                        let k = choose|k: int| 0 <= k < found.len() && found[k] == i;
                        assert(out@[k] == i);
                    }
                }
                low = next;
            }
        }
        proof {
            lemma_bit_set_empty(rest);
            assert(self@.intersect(set_int_range(0, low)) =~= self@) by {
                assert forall|i: int| self@.contains(i) implies i < low by {
                    if i >= low {
                        assert(self@.difference(set_int_range(0, low)).contains(i));
                    }
                }
            }
            lemma_letters_gap(self@, low, 32);
        }
        out
    }
}

} // verus!
