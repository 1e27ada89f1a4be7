use rust_solver::clue::WordClue;
use rust_solver::solver::{
    make_words, resolve_default_path, word_label, words_equal, Solver, NUM_CLUE_VALUES,
};
use rust_solver::wordlist::{contains_word, insert_word, key_of, search_word, words_after};

fn words(list: &[&str]) -> Vec<String> {
    list.iter().map(|w| (*w).to_owned()).collect()
}

fn chars(list: &[&str]) -> Vec<[char; 5]> {
    make_words(&words(list)).unwrap()
}

fn solver(solutions: &[&str], guesses: &[&str]) -> Solver {
    Solver::from_word_lists(&chars(solutions), &chars(guesses), 1).unwrap()
}

fn as_strings(ws: &[[char; 5]]) -> Vec<String> {
    ws.iter().map(|w| w.iter().collect()).collect()
}

#[test]
fn from_word_lists_sorts_and_removes_duplicates() {
    let s = solver(&["slate", "CRANE", "crane", "BREAD"], &["zzzzz", "audio"]);
    assert_eq!(as_strings(s.all_solutions()), vec!["BREAD", "CRANE", "SLATE"]);
    assert_eq!(as_strings(s.filtered_sols()), vec!["BREAD", "CRANE", "SLATE"]);
    assert_eq!(
        as_strings(s.all_guesses()),
        vec!["AUDIO", "BREAD", "CRANE", "SLATE", "ZZZZZ"]
    );
    assert_eq!(s.len(), 3);
    assert!(!s.is_empty());
    assert_eq!(s.verbosity(), 1);
}

#[test]
fn make_words_rejects_a_non_word() {
    assert!(make_words(&words(&["slate", "abc"])).is_none());
    assert_eq!(make_words(&words(&["slate"])).unwrap(), vec![['S', 'L', 'A', 'T', 'E']]);
}

#[test]
fn filter_by_clue_list_keeps_matching_solutions() {
    let mut s = solver(&["BREAD", "BREAK", "BREAM", "ABACK", "BACON"], &[]);
    s.filter_by_guess_n_clue_list(&words(&["abacKyy__g"])).unwrap();
    assert_eq!(as_strings(s.filtered_sols()), vec!["BREAK"]);

    let mut s = solver(&["BREAD", "BREAK", "BREAM", "ABACK", "BACON"], &[]);
    s.filter_by_guess_n_clue_list(&words(&["abackyy"])).unwrap();
    assert_eq!(as_strings(s.filtered_sols()), vec!["BREAD", "BREAM"]);
    s.filter_by_guess_n_clue_list(&words(&["BREAdgggg"])).unwrap();
    assert_eq!(as_strings(s.filtered_sols()), vec!["BREAM"]);
    assert_eq!(as_strings(s.all_solutions()).len(), 5);
}

#[test]
fn filter_reports_an_invalid_string_and_changes_nothing() {
    let mut s = solver(&["BREAD", "BREAK"], &[]);
    let r = s.filter(&words(&["abackyy", "ab"]));
    assert_eq!(r, Err("Invalid guess+clue string: ab".to_owned()));
    assert_eq!(s.len(), 2);
    assert_eq!(s.filter(&words(&["BREAdgggg"])), Ok(()));
    assert_eq!(as_strings(s.filtered_sols()), vec!["BREAK"]);
}

#[test]
fn filter_by_solution_keeps_the_solution() {
    let mut s = solver(&["BREAD", "BREAK", "BREAM", "ABACK", "BACON"], &[]);
    let guess = WordClue::make_word_chars("ABACK");
    let solution = WordClue::make_word_chars("BREAM");
    s.filter_by_guess_n_solution(guess, solution).unwrap();
    assert_eq!(as_strings(s.filtered_sols()), vec!["BREAD", "BREAM"]);
    let guess = WordClue::make_word_chars("BREAD");
    s.filter_by_guess_n_solution(guess, solution).unwrap();
    assert_eq!(as_strings(s.filtered_sols()), vec!["BREAM"]);
}

#[test]
fn feedback_counts_add_up_to_remaining() {
    let s = solver(&["BREAD", "BREAK", "BREAM", "ABACK", "BACON"], &[]);
    let guess = WordClue::make_word_chars("ABACK");
    let counts = s.feedback_counts(guess);
    assert_eq!(counts.len(), NUM_CLUE_VALUES);
    assert_eq!(counts.iter().sum::<usize>(), 5);
    assert_eq!(counts[242], 1);
    // "yy___" = 81 + 27 for BREAD and BREAM.
    assert_eq!(counts[108], 2);
}

#[test]
fn default_path_falls_back_to_parent_directory() {
    assert_eq!(resolve_default_path("./solutions.txt", true), "./solutions.txt");
    assert_eq!(resolve_default_path("./solutions.txt", false), "../solutions.txt");
    assert_eq!(resolve_default_path("././x.txt", false), "../x.txt");
    assert_eq!(resolve_default_path("words.txt", false), "../words.txt");
    assert_eq!(resolve_default_path(".", false), "../.");
}

#[test]
fn clue_lists_applied_apart_or_together_agree() {
    let all = &["BREAD", "BREAK", "BREAM", "ABACK", "BACON", "TREAD"];
    let mut apart = solver(all, &[]);
    apart.filter_by_guess_n_clue_list(&words(&["abackyy"])).unwrap();
    apart.filter_by_guess_n_clue_list(&words(&["TREAD_gggg"])).unwrap();
    let mut together = solver(all, &[]);
    together
        .filter_by_guess_n_clue_list(&words(&["abackyy", "TREAD_gggg"]))
        .unwrap();
    assert_eq!(as_strings(apart.filtered_sols()), as_strings(together.filtered_sols()));
    assert_eq!(as_strings(together.filtered_sols()), vec!["BREAD"]);
}

#[test]
fn count_of_a_clue_is_what_filtering_keeps() {
    let all = &["BREAD", "BREAK", "BREAM", "ABACK", "BACON", "TREAD"];
    let s = solver(all, &[]);
    let guess = WordClue::make_word_chars("BREAD");
    let counts = s.feedback_counts(guess);
    for solution in all {
        let sol = WordClue::make_word_chars(solution);
        let mut filtered = solver(all, &[]);
        filtered.filter_by_guess_n_solution(guess, sol).unwrap();
        let value = WordClue::calc_val_from_guess_n_solution(guess, &sol);
        assert_eq!(counts[value], filtered.len());
        assert!(filtered.filtered_sols().contains(&sol));
    }
}

#[test]
fn simulation_decisions() {
    let mut s = solver(&["BREAD", "BREAK", "BREAM"], &[]);
    assert!(s.simulation_continues(1));
    assert!(!s.simulation_continues(7));
    let guess = WordClue::make_word_chars("BREAK");
    let sol = WordClue::make_word_chars("BREAD");
    s.filter_by_guess_n_solution(guess, sol).unwrap();
    assert_eq!(as_strings(s.filtered_sols()), vec!["BREAD", "BREAM"]);
    assert_eq!(s.final_guess(guess), Some(sol));
    assert_eq!(s.final_guess(sol), None);
    s.filter_by_guess_n_solution(WordClue::make_word_chars("BREAM"), sol).unwrap();
    assert!(!s.simulation_continues(2));
    s.reset_filtered_sols();
    assert_eq!(s.len(), 3);
}

#[test]
fn word_label_marks_remaining_solutions() {
    assert_eq!(word_label(&['C', 'R', 'A', 'N', 'E'], true), "CRANE+");
    assert_eq!(word_label(&['C', 'R', 'A', 'N', 'E'], false), "CRANE");
    assert!(words_equal(&['C', 'R', 'A', 'N', 'E'], &['C', 'R', 'A', 'N', 'E']));
    assert!(!words_equal(&['C', 'R', 'A', 'N', 'E'], &['C', 'R', 'A', 'N', 'K']));
}

#[test]
fn words_are_ordered_letter_by_letter() {
    let mut ws: Vec<[char; 5]> = Vec::new();
    for w in ["ZEBRA", "ÉCLAT", "ABACK", "ABACK", "ABBEY"] {
        let cs: Vec<char> = w.chars().collect();
        insert_word(&mut ws, [cs[0], cs[1], cs[2], cs[3], cs[4]]);
    }
    assert_eq!(as_strings(&ws), vec!["ABACK", "ABBEY", "ZEBRA", "ÉCLAT"]);
    let mut sorted = ws.clone();
    sorted.sort();
    assert_eq!(sorted, ws);
    assert!(key_of(&ws[0]) < key_of(&ws[1]));
    assert_eq!(search_word(&ws, &['A', 'B', 'B', 'E', 'Y']), Ok(1));
    assert_eq!(search_word(&ws, &['B', 'B', 'B', 'B', 'B']), Err(2));
    assert!(contains_word(&ws, &['Z', 'E', 'B', 'R', 'A']));
    assert!(!contains_word(&ws, &['Z', 'E', 'B', 'R', 'B']));
}

#[test]
fn words_after_skips_what_was_done() {
    let ws = chars(&["ABACK", "BREAD", "BREAK", "CRANE"]);
    let last = WordClue::make_word_chars("BREAD");
    assert_eq!(as_strings(&words_after(&ws, &last)), vec!["BREAK", "CRANE"]);
    let before_all = WordClue::make_word_chars("AAAAA");
    assert_eq!(as_strings(&words_after(&ws, &before_all)).len(), 4);
    let after_all = WordClue::make_word_chars("ZZZZZ");
    assert!(words_after(&ws, &after_all).is_empty());
}

#[test]
fn clue_filter_puts_an_unordered_list_in_order() {
    let mut s = solver(&["ALIKE", "SALEK", "SLAKE"], &[]);
    s.set_filtered_sols(chars(&["SLAKE", "SALEK", "ALIKE"]));
    assert_eq!(s.filter_by_guess_n_clue_list(&words(&["xalek_yyyy"])), Ok(()));
    assert_eq!(as_strings(s.filtered_sols()), vec!["ALIKE", "SLAKE"]);
    s.set_filtered_sols(chars(&["SLAKE", "ALIKE", "SLAKE"]));
    assert_eq!(s.filter(&words(&["xkela_yyyy"])), Ok(()));
    assert_eq!(as_strings(s.filtered_sols()), vec!["ALIKE", "SLAKE", "SLAKE"]);
}

#[test]
fn solution_filter_keeps_the_order_it_was_given() {
    let mut s = solver(&["BREAD", "BREAK", "BREAM"], &[]);
    s.set_filtered_sols(chars(&["BREAM", "BREAK", "BREAD"]));
    let guess = WordClue::make_word_chars("BREAK");
    let sol = WordClue::make_word_chars("BREAD");
    s.filter_by_guess_n_solution(guess, sol).unwrap();
    assert_eq!(as_strings(s.filtered_sols()), vec!["BREAM", "BREAD"]);
    assert!(s.is_remaining(&sol));
    assert!(!s.is_remaining(&guess));
}

#[test]
fn best_guess_search_start_and_list() {
    let mut s = solver(&["BREAD", "BREAK"], &["ABACK"]);
    assert_eq!(s.search_start(), Ok(None));
    assert_eq!(as_strings(&s.guess_list(false, false)), vec!["ABACK", "BREAD", "BREAK"]);
    assert_eq!(as_strings(&s.guess_list(false, true)), vec!["BREAK", "BREAD", "ABACK"]);
    assert_eq!(as_strings(&s.guess_list(true, true)), vec!["BREAK", "BREAD"]);
    s.set_filtered_sols(chars(&["BREAK"]));
    assert_eq!(s.search_start(), Ok(Some(WordClue::make_word_chars("BREAK"))));
    s.set_filtered_sols(vec![]);
    assert_eq!(s.search_start(), Err("No solutions left to guess from".to_owned()));
}
