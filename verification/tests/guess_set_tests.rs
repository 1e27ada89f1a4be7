use rust_solver::clue::WordClue;
use rust_solver::guess_set::{Guess, GuessSet, Preference};

fn guess(maybe_sol: &str, remaining_sol_set: &[&str]) -> Guess {
    Guess::new(
        maybe_sol.to_owned(),
        WordClue::try_new_from_guess_n_clue_str("AAAAA_____").unwrap().1,
        remaining_sol_set
            .iter()
            .map(|solution| (*solution).to_owned())
            .collect(),
    )
}

fn remaining_cnt(set: &GuessSet) -> f64 {
    set.remaining_halves.unwrap() as f64 / 2.0
}

#[test]
fn scores_and_prefers_remaining_solution_on_ties() {
    let mut remaining_guess = GuessSet::new("raise".to_owned(), 2, true, true);
    remaining_guess.add_guess(guess("raise", &["crane", "slate"]));

    let mut other_guess = GuessSet::new("audio".to_owned(), 2, false, false);
    other_guess.add_guess(guess("audio", &["crane", "slate"]));

    assert_eq!(remaining_cnt(&remaining_guess), 1.5);
    assert_eq!(
        remaining_cnt(&remaining_guess) / remaining_guess.num_sols as f64,
        0.75
    );
    assert_eq!(remaining_guess.to_string(), "raise+");
    assert!(remaining_guess.is_better_than(&other_guess));
    assert_eq!(other_guess.to_string(), "audio*");
}

#[test]
fn guess_records_membership_and_count() {
    let g = guess("crane", &["crane", "slate", "trace"]);
    assert!(g.is_in_remaining_sol_set);
    assert_eq!(g.remaining_cnt, 3);
    let g = guess("audio", &["crane", "slate"]);
    assert!(!g.is_in_remaining_sol_set);
    assert_eq!(g.remaining_cnt, 2);
    let g = guess("audio", &[]);
    assert!(!g.is_in_remaining_sol_set);
    assert_eq!(g.remaining_cnt, 0);
}

#[test]
fn outcomes_add_half_plus_half_of_remaining() {
    let mut set = GuessSet::new("slate".to_owned(), 4, true, false);
    assert_eq!(set.remaining_halves, None);
    set.add_guess(guess("slate", &[]));
    assert_eq!(set.remaining_halves, Some(0));
    set.add_guess(guess("slate", &["crane"]));
    assert_eq!(set.remaining_halves, Some(2));
    set.add_guess(guess("slate", &["crane", "trace", "brace"]));
    assert_eq!(remaining_cnt(&set), 3.0);
    assert_eq!(set.guesses.len(), 3);
    assert_eq!(set.to_string(), "slate");
}

#[test]
fn fewer_remaining_wins_and_no_candidate_beats_itself() {
    let mut a = GuessSet::new("crane".to_owned(), 2, false, false);
    a.add_guess(guess("crane", &["x"]));
    let mut b = GuessSet::new("slate".to_owned(), 2, true, true);
    b.add_guess(guess("slate", &["x", "y"]));
    assert_eq!(a.preference_over(&b), Some(Preference::FewerRemaining));
    assert_eq!(b.preference_over(&a), None);
    assert!(!a.is_better_than(&a));
    assert!(!b.is_better_than(&b));
    let empty = GuessSet::new("audio".to_owned(), 2, true, true);
    assert!(a.is_better_than(&empty));
    assert!(!empty.is_better_than(&a));
}

#[test]
fn ties_prefer_official_solution() {
    let mut a = GuessSet::new("crane".to_owned(), 2, true, false);
    a.add_guess(guess("crane", &["x"]));
    let mut b = GuessSet::new("slate".to_owned(), 2, false, false);
    b.add_guess(guess("slate", &["y"]));
    assert_eq!(a.preference_over(&b), Some(Preference::TiedOfficialSolution));
    assert_eq!(b.preference_over(&a), None);
    let mut c = GuessSet::new("trace".to_owned(), 2, true, true);
    c.add_guess(guess("trace", &["z"]));
    assert_eq!(c.preference_over(&a), Some(Preference::TiedRemainingSolution));
    assert_eq!(a.preference_over(&c), None);
}
