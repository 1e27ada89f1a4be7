# rust_solver

A Wordle solver whose core is verified with Verus.

## Layout

- `src/` — the verified library.
  - `clue.rs`: the colour of each tile of a guess against a solution (`spec_clue`), the
    base-3 clue value, parsing of words, clue strings and guess+clue strings, and the laws of
    the clue (value bounds, injectivity of the value, the per-letter count of coloured tiles,
    all green exactly for the right guess, all gray exactly when no letter is shared).
  - `text.rs`: the std calls on Unicode text (`to_uppercase`, `to_lowercase`,
    `is_alphabetic`, `String::push`), the Unicode white-space test, and verified splitting
    and trimming.
  - `wordlist.rs`: strictly sorted lists of distinct words, binary search and insertion; the
    key that orders words letter by letter.
  - `solver.rs`: the solver state (official solutions, allowed guesses, remaining solutions),
    filtering by clues and by a known solution (a solution always agrees with the clue string
    it gives), the clue-value counts from which the entropy
    of a guess is computed, and the decisions of a simulated game.
  - `guess_set.rs`: scoring and comparison of candidate first guesses.
  - `wordfile.rs`: the solution and guess file formats.
  - `results.rs`, `report.rs`: the results file of a first-guess evaluation, written and read
    back; rows written for games read back as their solutions and numbers of guesses.
- `tests/` — tests of the library.
- `app/` — the command-line program: arguments, files, printing, and the entropy ranking of
  guesses, which uses floating point.
