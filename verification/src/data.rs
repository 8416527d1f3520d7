//! The words that a solver knows.
use std::sync::Arc;
use vstd::prelude::*;

use crate::outside::shared_text;
use crate::restrictions::{RestrictionsView, WordRestrictions};
use crate::results::{letters, same_letters, WordleError};

verus! {

/// Contains all the words that may be guessed. They all have the same number of letters.
#[derive(Debug)]
pub struct WordBank {
    words: Vec<Arc<str>>,
    word_length: usize,
}

impl View for WordBank {
    type V = Seq<Arc<str>>;

    closed spec fn view(&self) -> Seq<Arc<str>> {
        self.words@
    }
}

/// Whether every word has the given number of letters.
pub open spec fn all_of_length(words: Seq<Arc<str>>, length: nat) -> bool {
    forall|i: int| 0 <= i < words.len() ==> (#[trigger] words[i])@.len() == length
}

/// Whether one of the words reads `text`.
pub open spec fn reads(words: Seq<Arc<str>>, text: Seq<char>) -> bool {
    exists|i: int| 0 <= i < words.len() && (#[trigger] words[i])@ == text
}

impl WordBank {
    /// The number of letters that each word has.
    pub closed spec fn letters_per_word(&self) -> usize {
        self.word_length
    }

    #[verifier::type_invariant]
    spec fn has_equal_lengths(&self) -> bool {
        all_of_length(self.words@, self.word_length as nat)
    }

    /// Constructs a new `WordBank` with the given words, in their order.
    ///
    /// All words must have the same length, else this returns an error of type
    /// [`WordleError::WordLength`] with the length of the first word. A bank without words has
    /// words of length 0.
    pub fn from_iterator(words: &[&str]) -> (bank: Result<WordBank, WordleError>)
        ensures
            match bank {
                Ok(bank) => {
                    &&& bank@.len() == words@.len()
                    &&& forall|i: int|
                        0 <= i < words@.len() ==> (#[trigger] bank@[i])@ == words@[i]@
                    &&& all_of_length(bank@, bank.letters_per_word() as nat)
                    &&& words@.len() == 0 ==> bank.letters_per_word() == 0
                },
                Err(error) => {
                    &&& exists|i: int|
                        0 <= i < words@.len() && (#[trigger] words@[i])@.len() != words@[0]@.len()
                    &&& error == WordleError::WordLength(words@[0]@.len() as usize)
                },
            },
    {
        let mut shared: Vec<Arc<str>> = Vec::new();
        let mut word_length: usize = 0;
        for i in 0..words.len()
            invariant
                shared@.len() == i,
                forall|j: int| 0 <= j < i ==> (#[trigger] shared@[j])@ == words@[j]@,
                all_of_length(shared@, word_length as nat),
                i == 0 ==> word_length == 0,
                i > 0 ==> word_length == words@[0]@.len(),
        {
            let length = letters(words[i]).len();
            if i == 0 {
                word_length = length;
            } else if length != word_length {
                assert(words@[i as int]@.len() != words@[0]@.len());
                return Err(WordleError::WordLength(word_length));
            }
            shared.push(shared_text(words[i]));
        }
        Ok(WordBank { words: shared, word_length })
    }

    /// The length of each word.
    pub fn word_length(&self) -> (word_length: usize)
        ensures
            word_length == self.letters_per_word(),
            all_of_length(self@, word_length as nat),
    {
        proof {
            use_type_invariant(self);
        }
        self.word_length
    }
}

impl Clone for WordBank {
    fn clone(&self) -> (copy: Self)
        ensures
            copy@ == self@,
            copy.letters_per_word() == self.letters_per_word(),
    {
        proof {
            use_type_invariant(self);
        }
        WordBank { words: copy_words(self.words.as_slice()), word_length: self.word_length }
    }
}

/// Makes a list that shares the given words.
pub(crate) fn copy_words(words: &[Arc<str>]) -> (copy: Vec<Arc<str>>)
    ensures
        copy@ == words@,
{
    let mut copy: Vec<Arc<str>> = Vec::new();
    for i in 0..words.len()
        invariant
            copy@ == words@.take(i as int),
    {
        copy.push(Arc::clone(&words[i]));
    }
    assert(copy@ =~= words@);
    copy
}

/// The words of a solver, grouped by what is known of them.
///
/// The possible words and the unguessed words are both slices of one list, in which the words that
/// are possible but have been guessed come first, then those that are possible and unguessed, then
/// those that are unguessed but not possible.
#[derive(Debug)]
pub struct GroupedWords {
    words: Vec<Arc<str>>,
    num_spent: usize,
    num_possible: usize,
}

/// The mathematical content of a [`GroupedWords`].
pub struct GroupsView {
    /// The words that are possible but have been guessed.
    pub spent: Seq<Arc<str>>,
    /// The words that are possible and have not been guessed.
    pub open: Seq<Arc<str>>,
    /// The words that are not possible and have not been guessed.
    pub ruled_out: Seq<Arc<str>>,
}

/// Tells whether a word reads `text`.
pub open spec fn reading(text: Seq<char>) -> spec_fn(Arc<str>) -> bool {
    |word: Arc<str>| word@ == text
}

/// Tells whether a word does not read `text`.
pub open spec fn not_reading(text: Seq<char>) -> spec_fn(Arc<str>) -> bool {
    |word: Arc<str>| word@ != text
}

/// Tells whether a word satisfies the restrictions.
pub open spec fn satisfies(restrictions: RestrictionsView) -> spec_fn(Arc<str>) -> bool {
    |word: Arc<str>| restrictions.satisfied_by(word@)
}

/// Tells whether a word does not satisfy the restrictions.
pub open spec fn fails(restrictions: RestrictionsView) -> spec_fn(Arc<str>) -> bool {
    |word: Arc<str>| !restrictions.satisfied_by(word@)
}

impl GroupsView {
    /// Every word is possible, and none has been guessed.
    pub open spec fn unguessed_and_possible(words: Seq<Arc<str>>) -> Self {
        GroupsView { spent: Seq::empty(), open: words, ruled_out: Seq::empty() }
    }

    /// The groups that lie one after the other in a list.
    pub open spec fn of_list(words: Seq<Arc<str>>, num_spent: int, num_possible: int) -> Self {
        GroupsView {
            spent: words.take(num_spent),
            open: words.subrange(num_spent, num_possible),
            ruled_out: words.skip(num_possible),
        }
    }

    /// The words that are possible.
    pub open spec fn possible(self) -> Seq<Arc<str>> {
        self.spent + self.open
    }

    /// The words that have not been guessed, those that are possible first.
    pub open spec fn unguessed(self) -> Seq<Arc<str>> {
        self.open + self.ruled_out
    }

    /// The words after `guess` was guessed, however often they list it.
    pub open spec fn without_guess(self, guess: Seq<char>) -> Self {
        GroupsView {
            spent: self.spent + self.open.filter(reading(guess)),
            open: self.open.filter(not_reading(guess)),
            ruled_out: self.ruled_out.filter(not_reading(guess)),
        }
    }

    /// The words after only those that satisfy the restrictions are possible.
    pub open spec fn narrowed(self, restrictions: RestrictionsView) -> Self {
        GroupsView {
            spent: self.spent.filter(satisfies(restrictions)),
            open: self.open.filter(satisfies(restrictions)),
            ruled_out: self.open.filter(fails(restrictions)) + self.ruled_out,
        }
    }

    /// Whether the word is in one of the groups.
    pub open spec fn holds(self, word: Arc<str>) -> bool {
        self.spent.contains(word) || self.open.contains(word) || self.ruled_out.contains(word)
    }
}

/// The possible words and the unguessed words are those of the groups.
pub proof fn listed_words_are_held(groups: GroupsView)
    ensures
        forall|word: Arc<str>| #[trigger]
            groups.possible().contains(word) ==> groups.holds(word),
        forall|word: Arc<str>| #[trigger]
            groups.unguessed().contains(word) ==> groups.holds(word),
{
    assert forall|word: Arc<str>| #[trigger] groups.possible().contains(word) implies groups.holds(
        word,
    ) by {
        let k = groups.possible().index_of(word);
        if k < groups.spent.len() {
            assert(groups.spent[k] == word);
        } else {
            assert(groups.open[k - groups.spent.len()] == word);
        }
    }
    assert forall|word: Arc<str>| #[trigger] groups.unguessed().contains(word) implies groups.holds(
        word,
    ) by {
        let k = groups.unguessed().index_of(word);
        if k < groups.open.len() {
            assert(groups.open[k] == word);
        } else {
            assert(groups.ruled_out[k - groups.open.len()] == word);
        }
    }
}

/// Guessing a word brings in no new word.
pub proof fn guessing_adds_no_word(groups: GroupsView, guess: Seq<char>)
    ensures
        forall|word: Arc<str>| #[trigger]
            groups.without_guess(guess).holds(word) ==> groups.holds(word),
{
    broadcast use Seq::lemma_filter_contains_rev;
    let after = groups.without_guess(guess);
    assert forall|word: Arc<str>| #[trigger] after.holds(word) implies groups.holds(word) by {
        if after.spent.contains(word) {
            let k = after.spent.index_of(word);
            let guessed = groups.open.filter(reading(guess));
            if k < groups.spent.len() {
                assert(groups.spent[k] == word);
            } else {
                assert(guessed[k - groups.spent.len()] == word);
                assert(guessed.contains(word));
            }
        }
    }
}

/// Narrowing down the possible words brings in no new word.
pub proof fn narrowing_adds_no_word(groups: GroupsView, restrictions: RestrictionsView)
    ensures
        forall|word: Arc<str>| #[trigger]
            groups.narrowed(restrictions).holds(word) ==> groups.holds(word),
{
    broadcast use Seq::lemma_filter_contains_rev;
    let after = groups.narrowed(restrictions);
    assert forall|word: Arc<str>| #[trigger] after.holds(word) implies groups.holds(word) by {
        if after.ruled_out.contains(word) {
            let k = after.ruled_out.index_of(word);
            let rejected = groups.open.filter(fails(restrictions));
            if k < rejected.len() {
                assert(rejected[k] == word);
                assert(rejected.contains(word));
            } else {
                assert(groups.ruled_out[k - rejected.len()] == word);
            }
        }
    }
}

impl View for GroupedWords {
    type V = GroupsView;

    closed spec fn view(&self) -> GroupsView {
        GroupsView::of_list(self.words@, self.num_spent as int, self.num_possible as int)
    }
}

impl GroupedWords {
    /// Whether the groups lie within the list of words.
    pub closed spec fn inv(&self) -> bool {
        self.num_spent <= self.num_possible <= self.words@.len()
    }

    /// Constructs a new `GroupedWords` in which every word of the bank is possible and unguessed.
    pub fn new(bank: WordBank) -> (groups: GroupedWords)
        ensures
            groups.inv(),
            groups@ == GroupsView::unguessed_and_possible(bank@),
    {
        let num_possible = bank.words.len();
        let groups = GroupedWords { words: bank.words, num_spent: 0, num_possible };
        assert(groups@.spent =~= Seq::empty());
        assert(groups@.open =~= bank@);
        assert(groups@.ruled_out =~= Seq::empty());
        groups
    }

    /// The number of words that are possible.
    pub fn num_possible_words(&self) -> (count: usize)
        requires
            self.inv(),
        ensures
            count == self@.possible().len(),
    {
        self.num_possible
    }

    /// The number of words that have not been guessed.
    pub fn num_unguessed_words(&self) -> (count: usize)
        requires
            self.inv(),
        ensures
            count == self@.unguessed().len(),
    {
        self.words.len() - self.num_spent
    }

    /// Whether the unguessed words begin with all possible words, in the same order.
    pub fn possible_words_lead(&self) -> (lead: bool)
        requires
            self.inv(),
        ensures
            lead == (self@.spent.len() == 0),
    {
        self.num_spent == 0
    }

    /// The words that are possible.
    pub fn possible_words(&self) -> (words: &[Arc<str>])
        requires
            self.inv(),
        ensures
            words@ == self@.possible(),
    {
        assert(self@.possible() =~= self.words@.subrange(0, self.num_possible as int));
        vstd::slice::slice_subrange(self.words.as_slice(), 0, self.num_possible)
    }

    /// The words that have not been guessed, those that are possible first.
    pub fn unguessed_words(&self) -> (words: &[Arc<str>])
        requires
            self.inv(),
        ensures
            words@ == self@.unguessed(),
    {
        assert(self@.unguessed() =~= self.words@.subrange(
            self.num_spent as int,
            self.words@.len() as int,
        ));
        vstd::slice::slice_subrange(self.words.as_slice(), self.num_spent, self.words.len())
    }

    /// Removes the given guess from the unguessed words, if it is one of them.
    ///
    /// It stays a possible word if it was one. Of several equal words all are removed.
    pub fn remove_guess_if_present(&mut self, guess: &str)
        requires
            old(self).inv(),
        ensures
            final(self).inv(),
            final(self)@ == old(self)@.without_guess(guess@),
    {
        let (mut guessed, mut open) = split_by_text(
            vstd::slice::slice_subrange(self.words.as_slice(), self.num_spent, self.num_possible),
            guess,
        );
        let (_, mut ruled_out) = split_by_text(
            vstd::slice::slice_subrange(self.words.as_slice(), self.num_possible, self.words.len()),
            guess,
        );
        self.words.truncate(self.num_spent);
        self.words.append(&mut guessed);
        self.num_spent = self.words.len();
        self.words.append(&mut open);
        self.num_possible = self.words.len();
        self.words.append(&mut ruled_out);
        proof {
            let expected = old(self)@.without_guess(guess@);
            assert(old(self).words@.subrange(
                old(self).num_possible as int,
                old(self).words@.len() as int,
            ) =~= old(self)@.ruled_out);
            assert(self@.spent =~= expected.spent);
            assert(self@.open =~= expected.open);
            assert(self@.ruled_out =~= expected.ruled_out);
        }
    }

    /// Keeps only those possible words that satisfy the restrictions.
    pub fn filter_possible_words(&mut self, restrictions: &WordRestrictions)
        requires
            old(self).inv(),
        ensures
            final(self).inv(),
            final(self)@ == old(self)@.narrowed(restrictions@),
    {
        let (mut kept, _) = split_by(
            vstd::slice::slice_subrange(self.words.as_slice(), 0, self.num_spent),
            restrictions,
        );
        let (mut open, mut rejected) = split_by(
            vstd::slice::slice_subrange(self.words.as_slice(), self.num_spent, self.num_possible),
            restrictions,
        );
        let mut ruled_out = self.words.split_off(self.num_possible);
        let num_spent = kept.len();
        kept.append(&mut open);
        let num_possible = kept.len();
        kept.append(&mut rejected);
        kept.append(&mut ruled_out);
        self.words = kept;
        self.num_spent = num_spent;
        self.num_possible = num_possible;
        proof {
            let expected = old(self)@.narrowed(restrictions@);
            assert(old(self).words@.subrange(0, old(self).num_spent as int) =~= old(self)@.spent);
            assert(self@.spent =~= expected.spent);
            assert(self@.open =~= expected.open);
            assert(self@.ruled_out =~= expected.ruled_out);
        }
    }
}

impl GroupedWords {
    /// Takes the groups apart, for example to store them: the list of words, the number of words at
    /// its start that are possible but have been guessed, and the number of words at its start that
    /// are possible.
    pub fn into_parts(self) -> (parts: (Vec<Arc<str>>, usize, usize))
        requires
            self.inv(),
        ensures
            parts.1 <= parts.2 <= parts.0@.len(),
            self@ == GroupsView::of_list(parts.0@, parts.1 as int, parts.2 as int),
    {
        (self.words, self.num_spent, self.num_possible)
    }

    /// Puts groups together again that were taken apart by [`Self::into_parts()`].
    ///
    /// Returns `None` if the groups do not lie within the list.
    pub fn from_parts(
        words: Vec<Arc<str>>,
        num_spent: usize,
        num_possible: usize,
    ) -> (groups: Option<GroupedWords>)
        ensures
            match groups {
                Some(groups) => {
                    &&& num_spent <= num_possible <= words@.len()
                    &&& groups.inv()
                    &&& groups@ == GroupsView::of_list(
                        words@,
                        num_spent as int,
                        num_possible as int,
                    )
                },
                None => !(num_spent <= num_possible <= words@.len()),
            },
    {
        if num_spent <= num_possible && num_possible <= words.len() {
            Some(GroupedWords { words, num_spent, num_possible })
        } else {
            None
        }
    }
}

impl Clone for GroupedWords {
    fn clone(&self) -> (copy: Self)
        ensures
            copy@ == self@,
            copy.inv() == self.inv(),
    {
        GroupedWords {
            words: copy_words(self.words.as_slice()),
            num_spent: self.num_spent,
            num_possible: self.num_possible,
        }
    }
}

/// Splits words into those that read `text` and those that do not.
fn split_by_text(words: &[Arc<str>], text: &str) -> (split: (Vec<Arc<str>>, Vec<Arc<str>>))
    ensures
        split.0@ == words@.filter(reading(text@)),
        split.1@ == words@.filter(not_reading(text@)),
{
    let text_letters = letters(text);
    let mut alike: Vec<Arc<str>> = Vec::new();
    let mut others: Vec<Arc<str>> = Vec::new();
    for i in 0..words.len()
        invariant
            text_letters@ == text@,
            alike@ == words@.take(i as int).filter(reading(text@)),
            others@ == words@.take(i as int).filter(not_reading(text@)),
    {
        proof {
            reveal(Seq::filter);
            assert(words@.take(i + 1).drop_last() =~= words@.take(i as int));
        }
        let word = &words[i];
        if same_letters(&letters(&**word), &text_letters) {
            alike.push(Arc::clone(word));
        } else {
            others.push(Arc::clone(word));
        }
    }
    assert(words@.take(words@.len() as int) =~= words@);
    (alike, others)
}

/// Splits words into those that satisfy the restrictions and those that do not.
fn split_by(words: &[Arc<str>], restrictions: &WordRestrictions) -> (split: (
    Vec<Arc<str>>,
    Vec<Arc<str>>,
))
    ensures
        split.0@ == words@.filter(satisfies(restrictions@)),
        split.1@ == words@.filter(fails(restrictions@)),
{
    let mut kept: Vec<Arc<str>> = Vec::new();
    let mut rejected: Vec<Arc<str>> = Vec::new();
    for i in 0..words.len()
        invariant
            kept@ == words@.take(i as int).filter(satisfies(restrictions@)),
            rejected@ == words@.take(i as int).filter(fails(restrictions@)),
    {
        proof {
            reveal(Seq::filter);
            assert(words@.take(i + 1).drop_last() =~= words@.take(i as int));
        }
        let word = &words[i];
        if restrictions.is_satisfied_by(&**word) {
            kept.push(Arc::clone(word));
        } else {
            rejected.push(Arc::clone(word));
        }
    }
    assert(words@.take(words@.len() as int) =~= words@);
    (kept, rejected)
}

} // verus!
