use rs_wordle_solver::random::select_word_by_number;
use rs_wordle_solver::scorers::WordScorer;
use rs_wordle_solver::{
    get_result_for_guess, play_game_with_guesser, GameResult, GuessFrom, GuessResult, Guesser,
    LetterResult, MaxScoreGuesser, RandomGuesser, WordBank, WordRestrictions, WordleError,
};
use std::sync::Arc;

fn texts(words: &[Arc<str>]) -> Vec<&str> {
    words.iter().map(|word| word.as_ref()).collect()
}

/// Gives a word the number of its distinct letters as its score.
#[derive(Clone, Debug)]
struct DistinctLetters;

impl WordScorer for DistinctLetters {
    fn update(
        &mut self,
        _latest_guess: &str,
        _restrictions: &WordRestrictions,
        _possible_words: &[Arc<str>],
    ) -> Result<(), WordleError> {
        Ok(())
    }

    fn score_word(&self, word: &Arc<str>) -> i64 {
        let mut letters: Vec<char> = word.chars().collect();
        letters.sort();
        letters.dedup();
        letters.len() as i64
    }
}

/// Guesses the given words one after the other.
struct Script {
    words: Vec<Arc<str>>,
    heard: Vec<Vec<LetterResult>>,
}

impl Guesser for Script {
    fn update(&mut self, result: &GuessResult<'_>) -> Result<(), WordleError> {
        assert_eq!(result.guess, self.words[0].as_ref());
        self.heard.push(result.results.clone());
        self.words.remove(0);
        Ok(())
    }

    fn select_next_guess(&mut self) -> Option<Arc<str>> {
        self.words.first().cloned()
    }

    fn select_next_guess_from(&mut self, _from: GuessFrom) -> Option<Arc<str>> {
        self.select_next_guess()
    }

    fn possible_words(&self) -> &[Arc<str>] {
        &self.words
    }
}

fn script(words: &[&str]) -> Script {
    Script { words: words.iter().map(|word| Arc::from(*word)).collect(), heard: Vec::new() }
}

#[test]
fn random_guesser_plays_games() {
    let bank = WordBank::from_iterator(&["abc", "def", "ghi"]).unwrap();
    let guesser = RandomGuesser::new(bank);
    for _ in 0..50 {
        let result = play_game_with_guesser("def", 4, guesser.clone());
        assert!(matches!(result, GameResult::Success(_)));
        let result = play_game_with_guesser("zzz", 4, guesser.clone());
        assert!(matches!(result, GameResult::UnknownWord));
        let result = play_game_with_guesser("other", 4, guesser.clone());
        assert!(matches!(result, GameResult::UnknownWord));
    }
}

#[test]
fn random_guesser_finds_every_word_in_as_many_guesses_as_there_are_words() {
    let words = ["abc", "abd", "abe", "abf", "cab"];
    let guesser = RandomGuesser::new(WordBank::from_iterator(&words).unwrap());
    for word in words {
        for _ in 0..20 {
            match play_game_with_guesser(word, 5, guesser.clone()) {
                GameResult::Success(data) => {
                    assert!(data.turns.len() <= 5);
                    assert_eq!(data.turns[0].num_possible_words_before_guess, 5);
                    assert_eq!(data.turns.last().unwrap().guess.as_ref(), word);
                }
                other => panic!("unexpected: {:?}", other),
            }
        }
    }
}

#[test]
fn scoring_guesser_finds_every_word_in_as_many_guesses_as_there_are_words() {
    let words = ["aab", "abc", "abd", "abe", "bbb", "cab"];
    for mode in [GuessFrom::AllUnguessedWords, GuessFrom::PossibleWords] {
        for limit in [0, 100] {
            let bank = WordBank::from_iterator(&words).unwrap();
            let guesser = MaxScoreGuesser::new(mode, bank, DistinctLetters, Some(limit));
            for word in words {
                match play_game_with_guesser(word, 6, guesser.clone()) {
                    GameResult::Success(data) => {
                        assert_eq!(data.turns.last().unwrap().guess.as_ref(), word);
                        assert_eq!(data.turns[0].guess.as_ref(), "abc");
                    }
                    other => panic!("unexpected: {:?}", other),
                }
            }
            let result = play_game_with_guesser("xyz", 7, guesser.clone());
            assert!(matches!(result, GameResult::UnknownWord));
            let result = play_game_with_guesser("long", 1, guesser);
            assert!(matches!(result, GameResult::UnknownWord));
        }
    }
}

#[test]
fn game_records_its_turns() {
    match play_game_with_guesser("abc", 3, script(&["xyz", "acb", "abc", "aaa"])) {
        GameResult::Success(data) => {
            let turns: Vec<(usize, &str)> = data
                .turns
                .iter()
                .map(|turn| (turn.num_possible_words_before_guess, turn.guess.as_ref()))
                .collect();
            assert_eq!(turns, vec![(4, "xyz"), (3, "acb"), (2, "abc")]);
        }
        other => panic!("unexpected: {:?}", other),
    }
}

#[test]
fn game_fails_after_the_maximum_number_of_guesses() {
    match play_game_with_guesser("abc", 2, script(&["xyz", "acb", "abc"])) {
        GameResult::Failure(data) => {
            assert_eq!(data.turns.len(), 2);
            assert_eq!(data.turns[1].guess.as_ref(), "acb");
        }
        other => panic!("unexpected: {:?}", other),
    }
    match play_game_with_guesser("abc", 0, script(&["abc"])) {
        GameResult::Failure(data) => assert!(data.turns.is_empty()),
        other => panic!("unexpected: {:?}", other),
    }
}

#[test]
fn game_ends_without_a_guess_or_with_one_of_another_length() {
    let result = play_game_with_guesser("abc", 3, script(&["xyz"]));
    assert!(matches!(result, GameResult::UnknownWord));
    let result = play_game_with_guesser("abc", 3, script(&["xyz", "long"]));
    assert!(matches!(result, GameResult::UnknownWord));
}

#[test]
fn game_goes_on_where_earlier_results_contradict_the_word() {
    let bank = WordBank::from_iterator(&["abc", "abd", "xyz"]).unwrap();
    let mut guesser =
        MaxScoreGuesser::new(GuessFrom::AllUnguessedWords, bank, DistinctLetters, None);
    guesser.update(&get_result_for_guess("xyz", "xyz").unwrap()).unwrap();
    assert!(matches!(play_game_with_guesser("abc", 4, guesser.clone()), GameResult::UnknownWord));
    match play_game_with_guesser("abc", 1, guesser) {
        GameResult::Failure(data) => assert_eq!(data.turns[0].guess.as_ref(), "xyz"),
        _ => panic!(),
    }
}

#[test]
fn random_guesser_has_the_possible_words_that_satisfy_the_restrictions() {
    let words = ["abc", "abd", "bab", "cab", "xyz"];
    for word in words {
        let mut guesser = RandomGuesser::new(WordBank::from_iterator(&words).unwrap());
        let mut restrictions = WordRestrictions::new(3);
        for guess in ["dab", "xyz", "cab"] {
            let result = get_result_for_guess(word, guess).unwrap();
            guesser.update(&result).unwrap();
            restrictions.update(&result).unwrap();
            for known in words {
                assert_eq!(
                    guesser.possible_words().contains(&Arc::from(known)),
                    restrictions.is_satisfied_by(known)
                );
            }
        }
    }
}

#[test]
fn random_number_selects_a_word() {
    let words: Vec<Arc<str>> = vec![Arc::from("abc"), Arc::from("def"), Arc::from("ghi")];
    assert_eq!(select_word_by_number(&words, 0).as_deref(), Some("abc"));
    assert_eq!(select_word_by_number(&words, 5).as_deref(), Some("ghi"));
    assert_eq!(select_word_by_number(&words, 7).as_deref(), Some("def"));
    assert_eq!(select_word_by_number(&[], 7), None);
}

#[test]
fn random_guesser_reaches_every_word() {
    let mut guesser =
        RandomGuesser::new(WordBank::from_iterator(&["abc", "def", "ghi"]).unwrap());
    let mut seen: Vec<Arc<str>> = Vec::new();
    for _ in 0..500 {
        let guess = guesser.select_next_guess().unwrap();
        if !seen.contains(&guess) {
            seen.push(guess);
        }
    }
    assert_eq!(seen.len(), 3);
}

#[test]
fn random_guesser_narrows_down_the_possible_words() {
    let mut guesser =
        RandomGuesser::new(WordBank::from_iterator(&["abc", "abd", "xyz"]).unwrap());
    let result = get_result_for_guess("abd", "xyz").unwrap();
    guesser.update(&result).unwrap();
    assert_eq!(texts(guesser.possible_words()), ["abc", "abd"]);
    let result = get_result_for_guess("abd", "abc").unwrap();
    guesser.update(&result).unwrap();
    assert_eq!(texts(guesser.possible_words()), ["abd"]);
    assert_eq!(guesser.select_next_guess().as_deref(), Some("abd"));
    let guess = guesser.select_next_guess_from(GuessFrom::AllUnguessedWords);
    assert_eq!(guess.as_deref(), Some("abd"));
    let result = get_result_for_guess("abd", "abd").unwrap();
    guesser.update(&result).unwrap();
    assert_eq!(guesser.select_next_guess().as_deref(), Some("abd"));
}

#[test]
fn random_guesser_does_not_select_a_word_that_was_guessed() {
    for _ in 0..50 {
        let mut guesser = RandomGuesser::new(WordBank::from_iterator(&["abc", "def"]).unwrap());
        guesser.update(&get_result_for_guess("def", "abc").unwrap()).unwrap();
        assert_eq!(
            guesser.select_next_guess_from(GuessFrom::AllUnguessedWords).as_deref(),
            Some("def")
        );
    }
}

#[test]
fn random_guesser_selects_possible_words_once_every_word_is_guessed() {
    let mut guesser = RandomGuesser::new(WordBank::from_iterator(&["abc"]).unwrap());
    guesser.update(&get_result_for_guess("abc", "abc").unwrap()).unwrap();
    for from in [GuessFrom::AllUnguessedWords, GuessFrom::PossibleWords] {
        assert_eq!(guesser.select_next_guess_from(from).as_deref(), Some("abc"));
    }
}

#[test]
fn random_guesser_repeats_no_guess_unless_it_is_possible() {
    let words = ["abc", "abd", "abe", "xyz", "abf", "xyz", "cde", "abd"];
    for word in words {
        for from in [GuessFrom::AllUnguessedWords, GuessFrom::PossibleWords] {
            let mut guesser = RandomGuesser::new(WordBank::from_iterator(&words).unwrap());
            let mut guessed: Vec<Arc<str>> = Vec::new();
            for _ in 0..8 {
                let guess = guesser.select_next_guess_from(from).unwrap();
                let possible = guesser.possible_words().contains(&guess);
                assert!(words.contains(&guess.as_ref()));
                assert!(possible || from == GuessFrom::AllUnguessedWords);
                assert!(possible || !guessed.contains(&guess));
                guesser.update(&get_result_for_guess(word, &guess).unwrap()).unwrap();
                guessed.push(guess);
            }
            assert!(guessed.contains(&Arc::from(word)));
        }
    }
}

#[test]
fn random_guesser_selects_nothing_once_no_word_is_possible() {
    let mut guesser = RandomGuesser::new(WordBank::from_iterator(&["abc", "def"]).unwrap());
    let results = vec![LetterResult::NotPresent; 3];
    guesser.update(&GuessResult { guess: "adx", results }).unwrap();
    assert!(guesser.possible_words().is_empty());
    assert_eq!(guesser.select_next_guess(), None);
    assert_eq!(guesser.select_next_guess_from(GuessFrom::PossibleWords), None);
    assert_eq!(guesser.select_next_guess_from(GuessFrom::AllUnguessedWords), None);
}

#[test]
fn random_guesser_rejects_faulty_results() {
    let mut guesser = RandomGuesser::new(WordBank::from_iterator(&["abc", "def"]).unwrap());
    let results = vec![LetterResult::Correct; 4];
    let outcome = guesser.update(&GuessResult { guess: "abcd", results });
    assert_eq!(outcome, Err(WordleError::WordLength(3)));
    let results = vec![LetterResult::Correct; 4];
    let outcome = guesser.update(&GuessResult { guess: "abc", results });
    assert_eq!(outcome, Err(WordleError::InvalidResults));
    assert_eq!(texts(guesser.possible_words()), ["abc", "def"]);
}

#[test]
fn random_guesser_can_be_taken_apart_and_put_together() {
    let mut guesser =
        RandomGuesser::new(WordBank::from_iterator(&["abc", "abd", "xyz"]).unwrap());
    guesser.update(&get_result_for_guess("abd", "xyz").unwrap()).unwrap();
    let (words, restrictions) = guesser.into_parts();
    let mut guesser = RandomGuesser::from_parts(words, restrictions);
    assert_eq!(texts(guesser.possible_words()), ["abc", "abd"]);
    guesser.update(&get_result_for_guess("abd", "abc").unwrap()).unwrap();
    assert_eq!(texts(guesser.possible_words()), ["abd"]);
}
