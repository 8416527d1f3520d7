# rs_wordle_solver

A solver for Wordle-like games, written in Rust and verified with Verus.

- `src/` is the library. Every function states in its contract what it does, and Verus proves it.
  - `results`, `restrictions`, `data`: letters, what results say about the word, and the known words.
  - `scorers`: the trait by which words get their scores.
  - `ranking`: the best of a list of scores, and lists ordered by score.
  - `engine`, `random`, `max_score`: guessers, and games that are played with them.
  - `game_laws`, `score_laws`: what holds of games and of scores as a whole.
  - `outside`: the calls into `std`, `rand` and `rayon` that the proofs rely on without a proof.
- `tests/` runs the library on examples.
- `app/` asks the machine how many threads it offers, and turns guessers into values that `serde`
  can store.
