use rust_solver::clue::{SingleClue, WordClue};

#[test]
fn hint_matches_python_cases() {
    let test_cases = [
        ("ABACK", "BREAD", "yy___"),
        ("ABACK", "BREAK", "yy__g"),
        ("ABACK", "BREAM", "yy___"),
        ("ABAMK", "BREAD", "yy___"),
        ("ABAMK", "BREAK", "yy__g"),
        ("ABAMK", "BREAM", "yy_y_"),
        ("WHOSE", "WORSE", "g_ygg"),
        ("WORSE", "WHOSE", "gy_gg"),
    ];

    for (guess_str, solution, expected) in test_cases {
        let guess_chars = WordClue::make_word_chars(guess_str);
        assert_eq!(
            WordClue::new_from_guess_n_solution(guess_chars, solution)
                .word_clue()
                .iter()
                .map(|clue| clue.to_string())
                .collect::<String>(),
            expected
        );
    }
}

#[test]
fn filter_matches_python_cases() {
    let test_cases = [
        ("BACxxggg", "BACON", true),
        ("xALEx_ggg", "VALET", true),
        ("xALEx_ggg", "PALER", true),
        ("xALEx_ggg_", "BALER", true),
        ("xALEx_ggg", "PALED", true),
        ("xALEb_gggy", "BALER", true),
        ("xALEb_gggy", "BALED", true),
        ("xalek_yyyy", "SALEK", false),
        ("xalek_yyyy", "ALIKE", true),
        ("xalek_yyyy", "ANKLE", true),
        ("xalek_yyyy", "FLAKE", true),
        ("xalek_yyyy", "LEAKY", true),
        ("xalek_yyyy", "SLAKE", true),
        ("xkela_yyyy", "SALEK", true),
        ("xkela_yyyy", "ALIKE", true),
        ("xkela_yyyy", "FLAKE", true),
        ("xkela_yyyy", "LEAKY", true),
        ("xkela_yyyy", "SLAKE", true),
        ("xkela_yyyy", "LATKE", true),
        ("Alekxgyyy", "ANKLE", true),
        ("abackyy", "BREAD", true),
        ("abacKyy__g", "BREAK", true),
        ("abackyy__", "BREAM", true),
        ("abacKyy__g", "ABACK", false),
        ("abacK__yyg", "ABACK", false),
        ("abamkyy", "BREAD", true),
        ("abamKyy__g", "BREAK", true),
        ("abamkyy_y", "BREAM", true),
        ("BREAd____y", "BREAD", false),
        ("BREAdgggg", "BREAK", true),
        ("BREAdgggg", "BREAM", true),
        ("WhoSEg__gg", "WORSE", false),
        ("WhoSEg_ygg", "WORSE", true),
        ("WorSEg__gg", "WHOSE", false),
        ("WorSEgy_gg", "WHOSE", true),
        ("pooli_yy", "POOLS", false),
        ("oxxoxy__y", "POOLS", true),
        ("oxoxxy_y", "POOLS", false),
        ("OXOXXy_g", "POOLS", true),
        ("OXXOOy__yy", "POOLS", false),
    ];

    for (filter_str, candidate, expected) in test_cases {
        let (guess, word_clue) = WordClue::new_from_guess_n_clue_str(filter_str);
        println!("Filter: {filter_str}, Candidate: {candidate}, Expected: {expected}");
        assert_eq!(
            word_clue.is_match(guess, candidate),
            expected,
            "Filter {filter_str}"
        );
    }
}

#[test]
fn correct_guess_is_all_green_with_value_242() {
    let guess = WordClue::make_word_chars("crane");
    let clue = WordClue::new_from_guess_n_solution(guess, "CRANE");
    assert_eq!(clue.to_string(), "ggggg");
    assert_eq!(clue.val(), 242);
    assert_eq!(
        WordClue::calc_val_from_guess_n_solution(guess, &['C', 'R', 'A', 'N', 'E']),
        242
    );
}

#[test]
fn no_common_letter_is_all_gray_with_value_0() {
    let guess = WordClue::make_word_chars("FJORD");
    let clue = WordClue::new_from_guess_n_solution(guess, "SLATE");
    assert_eq!(clue.to_string(), "_____");
    assert_eq!(clue.val(), 0);
}

#[test]
fn clue_value_is_base_three_of_tiles() {
    // "yy__g" = 1*81 + 1*27 + 0*9 + 0*3 + 2 = 110
    let guess = WordClue::make_word_chars("ABACK");
    let clue = WordClue::new_from_guess_n_solution(guess, "BREAK");
    assert_eq!(clue.to_string(), "yy__g");
    assert_eq!(clue.val(), 110);
    let solution = WordClue::make_word_chars("BREAK");
    assert_eq!(
        WordClue::calc_val_from_guess_n_solution(guess, &solution),
        110
    );
}

#[test]
fn calc_val_reads_only_first_five_letters_of_solution() {
    let guess = WordClue::make_word_chars("ABACK");
    assert_eq!(
        WordClue::calc_val_from_guess_n_solution(guess, &['B', 'R', 'E', 'A', 'K', 'Z', 'Z']),
        110
    );
}

#[test]
fn repeated_letter_gets_as_many_marks_as_solution_has() {
    // Guess has three O; solution POOLS has two: greens at 1 and 2, the third O gray.
    let guess = WordClue::make_word_chars("OOOXX");
    let clue = WordClue::new_from_guess_n_solution(guess, "POOLS");
    assert_eq!(clue.to_string(), "_gg__");
    // One O in the solution left for two non-green O of the guess: only the first is yellow.
    let guess = WordClue::make_word_chars("OXXOO");
    let clue = WordClue::new_from_guess_n_solution(guess, "SOLAR");
    assert_eq!(clue.to_string(), "y____");
}

#[test]
fn single_clue_characters() {
    assert_eq!(SingleClue::Green.clue_char(), 'g');
    assert_eq!(SingleClue::Yellow.clue_char(), 'y');
    assert_eq!(SingleClue::Gray.clue_char(), '_');
    assert_eq!(SingleClue::Green.value(), 2);
    assert_eq!(SingleClue::Yellow.value(), 1);
    assert_eq!(SingleClue::Gray.value(), 0);
    assert_eq!(SingleClue::Yellow.to_string(), "y");
}

#[test]
fn make_word_chars_uppercases() {
    assert_eq!(WordClue::make_word_chars("slate"), ['S', 'L', 'A', 'T', 'E']);
    assert_eq!(WordClue::try_make_word_chars("Crane"), Some(['C', 'R', 'A', 'N', 'E']));
}

#[test]
fn try_make_word_chars_rejects_non_words() {
    assert_eq!(WordClue::try_make_word_chars("four"), None);
    assert_eq!(WordClue::try_make_word_chars("sixsix"), None);
    assert_eq!(WordClue::try_make_word_chars("ab1de"), None);
    assert_eq!(WordClue::try_make_word_chars(""), None);
}

#[test]
fn word_of_five_bytes_that_uppercases_to_five_letters_is_accepted() {
    // "ß" takes two bytes and upper-cases to "SS".
    assert_eq!(WordClue::try_make_word_chars("ßabc"), Some(['S', 'S', 'A', 'B', 'C']));
}

#[test]
fn guess_and_clue_string_is_padded_with_gray() {
    let (guess, clue) = WordClue::new_from_guess_n_clue_str("BACxxggg");
    assert_eq!(guess, ['B', 'A', 'C', 'X', 'X']);
    assert_eq!(clue.to_string(), "ggg__");
    let (guess, clue) = WordClue::new_from_guess_n_clue_str("slate");
    assert_eq!(guess, ['S', 'L', 'A', 'T', 'E']);
    assert_eq!(clue.to_string(), "_____");
    assert_eq!(clue.val(), 0);
    let (_, clue) = WordClue::new_from_guess_n_clue_str("slateGYGYG");
    assert_eq!(clue.to_string(), "gygyg");
}

#[test]
fn try_new_from_guess_n_clue_str_rejects_bad_strings() {
    assert!(WordClue::try_new_from_guess_n_clue_str("abc").is_none());
    assert!(WordClue::try_new_from_guess_n_clue_str("slateggggggg").is_none());
    assert!(WordClue::try_new_from_guess_n_clue_str("slatexxxxx").is_none());
    assert!(WordClue::try_new_from_guess_n_clue_str("sl4tegg").is_none());
    assert!(WordClue::try_new_from_guess_n_clue_str("slateg").is_some());
}

#[test]
fn try_variants_agree_with_panicking_ones() {
    let guess = WordClue::make_word_chars("ABACK");
    let clue = WordClue::try_new_from_guess_n_solution(guess, "bread").unwrap();
    assert_eq!(clue.to_string(), "yy___");
    assert!(WordClue::try_new_from_guess_n_solution(guess, "bre").is_none());
    assert_eq!(clue.try_is_match(guess, "BREAD"), Some(true));
    assert_eq!(clue.try_is_match(guess, "BREAK"), Some(false));
    assert_eq!(clue.try_is_match(guess, "BR"), None);
}

#[test]
fn coloured_tiles_per_letter_are_the_smaller_count() {
    // For each letter, green+yellow tiles on it = min(count in guess, count in solution).
    for (guess, solution) in [("EERIE", "THEME"), ("SPEED", "ABIDE"), ("LLAMA", "HALLO"), ("ABACK", "BREAM")] {
        let g = WordClue::make_word_chars(guess);
        let s = WordClue::make_word_chars(solution);
        let clue = WordClue::new_from_guess_n_solution(g, solution).word_clue();
        for c in g {
            let marked = (0..5).filter(|&i| g[i] == c && clue[i] != SingleClue::Gray).count();
            let in_guess = g.iter().filter(|&&x| x == c).count();
            let in_solution = s.iter().filter(|&&x| x == c).count();
            assert_eq!(marked, in_guess.min(in_solution), "{guess} {solution} {c}");
        }
    }
}

#[test]
fn solution_agrees_with_its_written_clue() {
    let cases = [("ABACK", "BREAD"), ("WHOSE", "WORSE"), ("OXXOO", "POOLS"), ("CRANE", "CRANE"), ("SLATE", "MOIST")];
    for (guess_str, solution) in cases {
        let guess = WordClue::make_word_chars(guess_str);
        let clue = WordClue::new_from_guess_n_solution(guess, solution);
        let text = format!("{}{}", guess_str, clue.to_string());
        let (parsed_guess, parsed_clue) = WordClue::try_new_from_guess_n_clue_str(&text).unwrap();
        assert_eq!(parsed_guess, guess);
        assert_eq!(parsed_clue, clue);
        assert!(parsed_clue.is_match(parsed_guess, solution));
    }
}

#[test]
fn both_clue_computations_give_the_same_value() {
    for (guess_str, solution) in [("ABACK", "BREAK"), ("ABAMK", "BREAM"), ("WORSE", "WHOSE"), ("CRANE", "CRANE")] {
        let guess = WordClue::make_word_chars(guess_str);
        let chars = WordClue::make_word_chars(solution);
        assert_eq!(
            WordClue::calc_val_from_guess_n_solution(guess, &chars),
            WordClue::new_from_guess_n_solution(guess, solution).val()
        );
    }
    let guess = WordClue::make_word_chars("CRANE");
    assert_ne!(WordClue::calc_val_from_guess_n_solution(guess, &WordClue::make_word_chars("CRANK")), 242);
    assert_ne!(WordClue::calc_val_from_guess_n_solution(guess, &WordClue::make_word_chars("MOIST")), 242);
    assert_eq!(WordClue::calc_val_from_guess_n_solution(guess, &WordClue::make_word_chars("MOIST")), 0);
    assert_ne!(WordClue::calc_val_from_guess_n_solution(guess, &WordClue::make_word_chars("MOIRE")), 0);
}
