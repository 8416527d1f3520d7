use rs_wordle_solver::data::GroupedWords;
use rs_wordle_solver::max_score::MaxScoreParts;
use rs_wordle_solver::ranking::{best_index_in_parallel, best_index_in_sequence};
use rs_wordle_solver::scorers::WordScorer;
use rs_wordle_solver::{
    get_result_for_guess, GuessFrom, GuessResult, Guesser, LetterResult, MaxScoreGuesser,
    ScoredGuess, WordBank, WordRestrictions, WordleError,
};
use std::collections::HashMap;
use std::sync::atomic::{AtomicUsize, Ordering};
use std::sync::Arc;

const ALL: GuessFrom = GuessFrom::AllUnguessedWords;
const POSSIBLE: GuessFrom = GuessFrom::PossibleWords;

/// Looks up the score of a word, which is 0 if it is not listed, and counts how often.
#[derive(Clone, Debug)]
struct Listed {
    scores: Vec<(&'static str, i64)>,
    asked: Arc<AtomicUsize>,
    heard: Vec<(String, Vec<String>)>,
    failure: Option<WordleError>,
}

impl Listed {
    fn new(scores: &[(&'static str, i64)]) -> Listed {
        Listed {
            scores: scores.to_vec(),
            asked: Arc::new(AtomicUsize::new(0)),
            heard: Vec::new(),
            failure: None,
        }
    }
}

impl WordScorer for Listed {
    fn update(
        &mut self,
        latest_guess: &str,
        restrictions: &WordRestrictions,
        possible_words: &[Arc<str>],
    ) -> Result<(), WordleError> {
        assert!(possible_words.iter().all(|word| restrictions.is_satisfied_by(word)));
        let words = possible_words.iter().map(|word| word.to_string()).collect();
        self.heard.push((latest_guess.to_string(), words));
        match self.failure {
            Some(error) => Err(error),
            None => Ok(()),
        }
    }

    fn score_word(&self, word: &Arc<str>) -> i64 {
        self.asked.fetch_add(1, Ordering::SeqCst);
        self.scores
            .iter()
            .find(|(text, _)| *text == word.as_ref())
            .map(|(_, score)| *score)
            .unwrap_or(0)
    }
}

/// Scores a word by how many words its result rules out, summed over all possible words.
#[derive(Clone, Debug)]
struct Eliminations {
    possible_words: Vec<String>,
}

impl WordScorer for Eliminations {
    fn update(
        &mut self,
        _latest_guess: &str,
        _restrictions: &WordRestrictions,
        possible_words: &[Arc<str>],
    ) -> Result<(), WordleError> {
        self.possible_words = possible_words.iter().map(|word| word.to_string()).collect();
        Ok(())
    }

    fn score_word(&self, word: &Arc<str>) -> i64 {
        let result_for = |objective: &str| get_result_for_guess(objective, word).unwrap().results;
        let mut eliminated = 0;
        for objective in &self.possible_words {
            let result = result_for(objective);
            for other in &self.possible_words {
                if result_for(other) != result {
                    eliminated += 1;
                }
            }
        }
        eliminated
    }
}

fn bank(words: &[&str]) -> WordBank {
    WordBank::from_iterator(words).unwrap()
}

fn scored(score: i64, guess: &str) -> ScoredGuess {
    ScoredGuess { score, guess: Arc::from(guess) }
}

fn table(entries: &[(&str, i64)]) -> HashMap<Arc<str>, i64> {
    entries.iter().map(|(word, score)| (Arc::from(*word), *score)).collect()
}

#[test]
fn guess_that_eliminates_most_is_selected() {
    let words = ["azz", "bzz", "czz", "abc"];
    for limit in [None, Some(0), Some(100)] {
        let scorer =
            Eliminations { possible_words: words.iter().map(|word| word.to_string()).collect() };
        let mut guesser = MaxScoreGuesser::new(ALL, bank(&words), scorer, limit);
        assert_eq!(guesser.select_next_guess(), Some(Arc::from("abc")));
    }
}

#[test]
fn best_index_is_the_first_of_the_best() {
    for best_index in [best_index_in_parallel, best_index_in_sequence] {
        assert_eq!(best_index(&[]), None);
        assert_eq!(best_index(&[-3]), Some(0));
        assert_eq!(best_index(&[1, 5, 3, 5, 2]), Some(1));
        assert_eq!(best_index(&[i64::MIN, -7, i64::MIN]), Some(1));
    }
    let mut scores = vec![0; 10_000];
    scores[4321] = 7;
    scores[8765] = 7;
    assert_eq!(best_index_in_parallel(&scores), Some(4321));
}

#[test]
fn lowest_scores_are_selected_where_there_is_no_better() {
    assert_eq!(best_index_in_parallel(&[i64::MIN, i64::MIN]), Some(0));
    assert_eq!(best_index_in_sequence(&[i64::MIN, i64::MIN]), Some(0));
    let words = ["abc", "def", "ghi"];
    for limit in [Some(2), Some(3)] {
        let scorer = Listed::new(&[("abc", i64::MIN), ("def", i64::MIN), ("ghi", i64::MIN)]);
        let mut guesser = MaxScoreGuesser::new(ALL, bank(&words), scorer, limit);
        assert_eq!(guesser.select_next_guess(), Some(Arc::from("abc")));
        assert_eq!(guesser.select_next_guess_from(POSSIBLE), Some(Arc::from("abc")));
    }
}

#[test]
fn selection_does_not_depend_on_the_limit() {
    let words = ["abc", "abd", "abe", "abf"];
    let scores = [("abc", 1), ("abd", 4), ("abe", 2), ("abf", 4)];
    for limit in 0..6 {
        let mut guesser = MaxScoreGuesser::new(ALL, bank(&words), Listed::new(&scores), None)
            .with_parallelisation_limit(limit);
        assert_eq!(guesser.select_next_guess(), Some(Arc::from("abd")));
        assert_eq!(
            guesser.select_top_n_guesses(3),
            vec![scored(4, "abd"), scored(4, "abf"), scored(2, "abe")]
        );
        assert_eq!(
            guesser.get_or_compute_scores(),
            table(&[("abc", 1), ("abd", 4), ("abe", 2), ("abf", 4)])
        );
    }
}

#[test]
fn scores_are_computed_once() {
    let scorer = Listed::new(&[("abc", 1), ("def", 2), ("ghi", 3)]);
    let asked = Arc::clone(&scorer.asked);
    let mut guesser = MaxScoreGuesser::new(ALL, bank(&["abc", "def", "ghi"]), scorer, None);
    guesser.compute_scores_if_unknown();
    assert_eq!(asked.load(Ordering::SeqCst), 3);
    guesser.compute_scores_if_unknown();
    assert_eq!(guesser.select_next_guess(), Some(Arc::from("ghi")));
    // The possible words lead the unguessed words, and so do their scores.
    guesser.compute_scores_if_needed_from(POSSIBLE);
    assert_eq!(guesser.select_next_guess_from(POSSIBLE), Some(Arc::from("ghi")));
    assert_eq!(guesser.clone().select_next_guess(), Some(Arc::from("ghi")));
    assert_eq!(asked.load(Ordering::SeqCst), 3);
    assert_eq!(guesser.score_word(&Arc::from("def")), 2);
    assert_eq!(asked.load(Ordering::SeqCst), 4);
}

#[test]
fn possible_scores_are_kept_apart() {
    let scorer = Listed::new(&[("abc", 1), ("def", 2), ("ghi", 3)]);
    let asked = Arc::clone(&scorer.asked);
    let mut guesser = MaxScoreGuesser::new(ALL, bank(&["abc", "def", "ghi"]), scorer, None);
    guesser.compute_scores_if_needed_from(POSSIBLE);
    assert_eq!(asked.load(Ordering::SeqCst), 3);
    assert_eq!(guesser.select_next_guess_from(POSSIBLE), Some(Arc::from("ghi")));
    assert_eq!(asked.load(Ordering::SeqCst), 3);
    assert_eq!(guesser.select_next_guess_from(ALL), Some(Arc::from("ghi")));
    assert_eq!(asked.load(Ordering::SeqCst), 6);
}

#[test]
fn given_scores_are_used_until_the_next_update() {
    let words = ["abc", "abd", "abe", "xyz"];
    let scorer = Listed::new(&[("abc", 1), ("abd", 2), ("abe", 3), ("xyz", 4)]);
    let given = table(&[("abc", 10), ("xyz", -1), ("not a word", 99)]);
    let mut guesser = MaxScoreGuesser::new(ALL, bank(&words), scorer, None).with_scores(&given);
    assert_eq!(guesser.select_next_guess(), Some(Arc::from("abc")));
    assert_eq!(
        guesser.get_or_compute_scores(),
        table(&[("abc", 10), ("abd", 2), ("abe", 3), ("xyz", -1)])
    );
    guesser.update(&get_result_for_guess("abe", "xyz").unwrap()).unwrap();
    assert_eq!(guesser.get_or_compute_scores(), table(&[("abc", 1), ("abd", 2), ("abe", 3)]));
    assert_eq!(guesser.select_next_guess(), Some(Arc::from("abe")));
}

#[test]
fn given_scores_are_for_the_default_words() {
    let words = ["abc", "abd", "abe"];
    let scorer = Listed::new(&[("abc", 1), ("abd", 2), ("abe", 3)]);
    let mut guesser = MaxScoreGuesser::new(POSSIBLE, bank(&words), scorer, None)
        .with_scores(&table(&[("abc", 10)]));
    assert_eq!(guesser.select_next_guess(), Some(Arc::from("abc")));
    assert_eq!(guesser.select_next_guess_from(ALL), Some(Arc::from("abe")));
}

#[test]
fn computed_scores_can_be_given_to_another_guesser() {
    let words = ["abc", "abd", "abe"];
    let scorer = Listed::new(&[("abc", 1), ("abd", 7), ("abe", 3)]);
    let mut first = MaxScoreGuesser::new(ALL, bank(&words), scorer, None);
    let scores = first.get_or_compute_scores();
    let scorer = Listed::new(&[]);
    let asked = Arc::clone(&scorer.asked);
    let mut second = MaxScoreGuesser::new(ALL, bank(&words), scorer, None).with_scores(&scores);
    assert_eq!(second.select_next_guess(), Some(Arc::from("abd")));
    assert_eq!(second.get_or_compute_scores(), scores);
    assert_eq!(asked.load(Ordering::SeqCst), 0);
}

#[test]
fn possible_words_are_preferred() {
    let words = ["yyy", "abz", "axc", "bbz", "cdz"];
    for limit in [0, 100] {
        let mut guesser =
            MaxScoreGuesser::new(ALL, bank(&words), Listed::new(&[]), Some(limit));
        guesser.update(&get_result_for_guess("abz", "yyy").unwrap()).unwrap();
        assert_eq!(guesser.possible_words().len(), 4);
        guesser.update(&get_result_for_guess("abz", "zzz").unwrap()).unwrap();
        let possible: Vec<&str> =
            guesser.possible_words().iter().map(|word| word.as_ref()).collect();
        assert_eq!(possible, ["abz", "bbz", "cdz"]);
        assert_eq!(
            guesser.select_top_n_guesses(9),
            vec![scored(0, "abz"), scored(0, "bbz"), scored(0, "cdz"), scored(0, "axc")]
        );
        assert_eq!(guesser.select_next_guess(), Some(Arc::from("abz")));
    }
    let scorer = Listed::new(&[("axc", 1)]);
    let mut guesser = MaxScoreGuesser::new(ALL, bank(&words), scorer, None);
    guesser.update(&get_result_for_guess("abz", "yyy").unwrap()).unwrap();
    guesser.update(&get_result_for_guess("abz", "zzz").unwrap()).unwrap();
    assert_eq!(guesser.select_next_guess(), Some(Arc::from("axc")));
    assert_eq!(guesser.select_next_guess_from(POSSIBLE), Some(Arc::from("abz")));
    assert_eq!(guesser.select_top_n_guesses(2), vec![scored(1, "axc"), scored(0, "abz")]);
}

#[test]
fn last_two_possible_words_are_guessed() {
    let words = ["abc", "abd", "xyz", "wvu"];
    let scorer = Listed::new(&[("xyz", 50), ("abd", 2)]);
    let mut guesser = MaxScoreGuesser::new(ALL, bank(&words), scorer, None);
    assert_eq!(guesser.select_next_guess(), Some(Arc::from("xyz")));
    guesser.update(&get_result_for_guess("abc", "wvu").unwrap()).unwrap();
    assert_eq!(guesser.select_next_guess(), Some(Arc::from("xyz")));
    guesser.update(&get_result_for_guess("abc", "qaq").unwrap()).unwrap();
    assert_eq!(guesser.possible_words().len(), 2);
    assert_eq!(guesser.select_next_guess(), Some(Arc::from("abd")));
    assert_eq!(guesser.get_or_compute_scores(), table(&[("abc", 0), ("abd", 2)]));
}

#[test]
fn only_possible_word_is_selected_again() {
    let mut guesser =
        MaxScoreGuesser::new(ALL, bank(&["abc", "abd", "xyz"]), Listed::new(&[]), Some(5));
    guesser.update(&get_result_for_guess("abd", "abd").unwrap()).unwrap();
    assert_eq!(guesser.possible_words().len(), 1);
    assert_eq!(guesser.select_next_guess(), Some(Arc::from("abd")));
    assert_eq!(guesser.select_next_guess_from(POSSIBLE), Some(Arc::from("abd")));
    let mut guesser = MaxScoreGuesser::new(ALL, bank(&["abc"]), Listed::new(&[]), Some(5));
    guesser.update(&get_result_for_guess("abc", "abc").unwrap()).unwrap();
    assert_eq!(guesser.select_next_guess(), Some(Arc::from("abc")));
    assert_eq!(guesser.select_next_guess_from(POSSIBLE), Some(Arc::from("abc")));
}

#[test]
fn nothing_is_selected_once_no_word_is_possible() {
    let mut guesser =
        MaxScoreGuesser::new(ALL, bank(&["abc", "abd", "abe"]), Listed::new(&[]), None);
    let results = vec![LetterResult::NotPresent; 3];
    guesser.update(&GuessResult { guess: "axx", results }).unwrap();
    assert_eq!(guesser.select_next_guess(), None);
    assert_eq!(guesser.select_next_guess_from(POSSIBLE), None);
    assert!(guesser.select_top_n_guesses(5).is_empty());
    assert!(guesser.get_or_compute_scores().is_empty());
}

#[test]
fn top_guesses_come_from_the_best_to_the_worst() {
    let words = ["aaa", "bbb", "ccc", "ddd", "eee"];
    let scores = [("aaa", -1), ("bbb", 5), ("ccc", i64::MAX), ("ddd", 5), ("eee", 0)];
    for limit in [0, 5, 100] {
        let scorer = Listed::new(&scores);
        let mut guesser = MaxScoreGuesser::new(ALL, bank(&words), scorer, Some(limit));
        let all = guesser.select_top_n_guesses(10);
        assert_eq!(
            all,
            vec![
                scored(i64::MAX, "ccc"),
                scored(5, "bbb"),
                scored(5, "ddd"),
                scored(0, "eee"),
                scored(-1, "aaa")
            ]
        );
        assert_eq!(guesser.select_top_n_guesses_from(2, POSSIBLE), all[..2].to_vec());
        assert!(guesser.select_top_n_guesses(0).is_empty());
        assert_eq!(guesser.select_next_guess().as_ref(), Some(&all[0].guess));
    }
}

#[test]
fn single_word_with_the_lowest_score_is_ranked() {
    let scorer = Listed::new(&[("abc", i64::MIN)]);
    for limit in [0, 100] {
        let mut guesser =
            MaxScoreGuesser::new(ALL, bank(&["abc"]), scorer.clone(), Some(limit));
        assert_eq!(guesser.select_top_n_guesses(1), vec![scored(i64::MIN, "abc")]);
    }
}

#[test]
fn lowest_score_is_ranked_last() {
    let words = ["aaa", "bbb", "ccc"];
    for limit in [0, 100] {
        let given = table(&[("aaa", i64::MIN), ("bbb", 1), ("ccc", 0)]);
        let mut guesser = MaxScoreGuesser::new(POSSIBLE, bank(&words), Listed::new(&[]), None)
            .with_parallelisation_limit(limit)
            .with_scores(&given);
        assert_eq!(
            guesser.select_top_n_guesses_from(3, POSSIBLE),
            vec![scored(1, "bbb"), scored(0, "ccc"), scored(i64::MIN, "aaa")]
        );
        assert_eq!(
            guesser.select_top_n_guesses(2),
            vec![scored(1, "bbb"), scored(0, "ccc")]
        );
    }
}

#[test]
fn possible_words_are_selected_once_every_word_is_guessed() {
    let words = ["abc", "def", "ghi"];
    let scorer = Listed::new(&[("abc", 1), ("def", 3), ("ghi", 2)]);
    let mut guesser = MaxScoreGuesser::new(ALL, bank(&words), scorer, None);
    for word in words {
        // The results are too long, so that they say nothing about the word.
        let results = vec![LetterResult::Correct; 4];
        assert_eq!(
            guesser.update(&GuessResult { guess: word, results }),
            Err(WordleError::InvalidResults)
        );
    }
    assert_eq!(guesser.possible_words().len(), 3);
    for from in [ALL, POSSIBLE] {
        assert_eq!(guesser.select_next_guess_from(from), Some(Arc::from("def")));
        assert_eq!(
            guesser.select_top_n_guesses_from(2, from),
            vec![scored(3, "def"), scored(2, "ghi")]
        );
    }
}

#[test]
fn guesses_are_not_repeated_unless_they_are_possible() {
    let words = ["abc", "abd", "abe", "xyz", "abf", "xyz", "cde", "abd"];
    for word in words {
        for from in [ALL, POSSIBLE] {
            let scorer = Listed::new(&[("xyz", 9), ("abc", 5), ("cde", 7)]);
            let mut guesser = MaxScoreGuesser::new(ALL, bank(&words), scorer, None);
            let mut guessed: Vec<Arc<str>> = Vec::new();
            for _ in 0..8 {
                let guess = guesser.select_next_guess_from(from).unwrap();
                let possible = guesser.possible_words().contains(&guess);
                assert!(words.contains(&guess.as_ref()));
                assert!(possible || from == ALL && guesser.possible_words().len() > 2);
                assert!(possible || !guessed.contains(&guess));
                guesser.update(&get_result_for_guess(word, &guess).unwrap()).unwrap();
                guessed.push(guess);
            }
            assert!(guessed.contains(&Arc::from(word)));
        }
    }
}

#[test]
fn possible_words_are_those_that_satisfy_the_restrictions() {
    let words = ["abc", "abd", "bab", "cab", "xyz"];
    for word in words {
        let mut guesser = MaxScoreGuesser::new(ALL, bank(&words), Listed::new(&[]), None);
        let mut restrictions = WordRestrictions::new(3);
        for guess in ["dab", "xyz", "cab"] {
            let result = get_result_for_guess(word, guess).unwrap();
            guesser.update(&result).unwrap();
            restrictions.update(&result).unwrap();
            guesser.update(&GuessResult { guess, results: Vec::new() }).unwrap_err();
            for known in words {
                assert_eq!(
                    guesser.possible_words().contains(&Arc::from(known)),
                    restrictions.is_satisfied_by(known)
                );
            }
        }
    }
}

#[test]
fn many_words_are_ranked_in_parallel() {
    let mut texts: Vec<String> = Vec::new();
    for first in 'a'..='z' {
        for second in 'a'..='z' {
            for third in 'a'..='z' {
                texts.push([first, second, third].iter().collect());
            }
        }
    }
    let words: Vec<&str> = texts.iter().map(|text| text.as_str()).collect();
    let scorer = Listed::new(&[("mno", 3), ("zzz", 9), ("abc", 3)]);
    let mut guesser = MaxScoreGuesser::new(ALL, bank(&words), scorer, Some(4));
    assert_eq!(guesser.select_next_guess(), Some(Arc::from("zzz")));
    assert_eq!(
        guesser.select_top_n_guesses(5),
        vec![
            scored(9, "zzz"),
            scored(3, "abc"),
            scored(3, "mno"),
            scored(0, "aaa"),
            scored(0, "aab")
        ]
    );
}

#[test]
fn updates_reach_the_scorer() {
    let words = ["abc", "abd", "xyz"];
    let mut guesser = MaxScoreGuesser::new(ALL, bank(&words), Listed::new(&[]), None);
    guesser.update(&get_result_for_guess("abc", "xyz").unwrap()).unwrap();
    guesser.update(&get_result_for_guess("abc", "abd").unwrap()).unwrap();
    let heard = guesser.into_parts().scorer.heard;
    assert_eq!(
        heard,
        vec![
            ("xyz".to_string(), vec!["abc".to_string(), "abd".to_string()]),
            ("abd".to_string(), vec!["abc".to_string()])
        ]
    );
}

#[test]
fn errors_of_the_scorer_are_passed_on() {
    let mut scorer = Listed::new(&[]);
    scorer.failure = Some(WordleError::InvalidResults);
    let mut guesser = MaxScoreGuesser::new(ALL, bank(&["abc", "abd", "xyz"]), scorer, None);
    let outcome = guesser.update(&get_result_for_guess("abc", "xyz").unwrap());
    assert_eq!(outcome, Err(WordleError::InvalidResults));
    assert_eq!(guesser.possible_words().len(), 2);
}

#[test]
fn faulty_results_count_as_guesses() {
    let words = ["abc", "abd", "abe", "abf"];
    let scorer = Listed::new(&[("abc", 9), ("abd", 1), ("abe", 5), ("abf", 2)]);
    let mut guesser = MaxScoreGuesser::new(ALL, bank(&words), scorer, None);
    let outcome = guesser.update(&GuessResult { guess: "abc", results: Vec::new() });
    assert_eq!(outcome, Err(WordleError::InvalidResults));
    assert_eq!(guesser.possible_words().len(), 4);
    assert_eq!(guesser.select_next_guess(), Some(Arc::from("abe")));
    // The possible words do not lead the unguessed words now, so they have their own scores.
    assert_eq!(guesser.select_next_guess_from(POSSIBLE), Some(Arc::from("abc")));
    let outcome = guesser.update(&GuessResult { guess: "long", results: Vec::new() });
    assert_eq!(outcome, Err(WordleError::WordLength(3)));
}

#[test]
fn guesser_can_be_taken_apart_and_put_together() {
    let words = ["abc", "abd", "abe"];
    let scorer = Listed::new(&[("abc", 1), ("abd", 7), ("abe", 3)]);
    let mut guesser = MaxScoreGuesser::new(ALL, bank(&words), scorer, Some(5));
    guesser.compute_scores_if_unknown();
    let mut parts = guesser.into_parts();
    assert_eq!(parts.all_unguessed_word_scores, Some(vec![1, 7, 3]));
    assert_eq!(parts.possible_word_scores, None);
    assert_eq!(parts.parallelisation_limit, 5);
    parts.scorer = Listed::new(&[]);
    let mut guesser = MaxScoreGuesser::from_parts(parts).unwrap();
    assert_eq!(guesser.select_next_guess(), Some(Arc::from("abd")));
}

#[test]
fn scores_that_do_not_fit_are_rejected() {
    let parts = |unguessed: Option<Vec<i64>>, possible: Option<Vec<i64>>| MaxScoreParts {
        default_guess_mode: ALL,
        grouped_words: GroupedWords::new(bank(&["abc", "def"])),
        restrictions: WordRestrictions::new(3),
        scorer: Listed::new(&[]),
        parallelisation_limit: 1,
        all_unguessed_word_scores: unguessed,
        possible_word_scores: possible,
    };
    assert!(MaxScoreGuesser::from_parts(parts(Some(vec![1, 2]), Some(vec![3, 4]))).is_some());
    assert!(MaxScoreGuesser::from_parts(parts(Some(vec![1]), None)).is_none());
    assert!(MaxScoreGuesser::from_parts(parts(None, Some(vec![1, 2, 3]))).is_none());
}
