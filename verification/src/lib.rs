//! Search for groups of words that share no letter: five words of five
//! letters that use 25 letters of the alphabet between them, or any other
//! number and length that the alphabet has room for.
//!
//! A word is held as a [`bit_word::BitWord`], the set of its letters in the
//! bits of an integer. [`dictionary`] turns lines of text into the list of
//! words, [`ranking`] orders letters and words by rarity, and the two
//! searches, [`gigo`] and [`bored_person`], find the groups. Both return
//! what [`solution`] defines: every solution, once, in a fixed order.
//! [`lookup`] leads from a word back to the line that spells it, and
//! [`binomial`] counts the groups that a search would have to try.
//!
//! Every executable function carries a contract over sets of letters and
//! sequences of words, and the laws that hold between the functions are
//! stated and proved as `lemma_` functions beside them.

pub mod binomial;
pub mod bit_word;
pub mod bored_person;
pub mod dictionary;
pub mod gigo;
pub mod lookup;
pub mod ranking;
pub mod solution;
