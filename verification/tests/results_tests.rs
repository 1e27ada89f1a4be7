use rust_solver::report::result_line;
use rust_solver::results::{
    parse_usize, read_completed_results_from, try_read_completed_results_from, IntErrorKind,
    ResumeError,
};
use rust_solver::solver::make_words;

fn sols(list: &[&str]) -> Vec<[char; 5]> {
    make_words(&list.iter().map(|w| (*w).to_owned()).collect()).unwrap()
}

fn chars(s: &str) -> Vec<char> {
    s.chars().collect()
}

#[test]
fn parse_usize_follows_std() {
    for s in ["0", "7", "+12", "", "+", "-1", "1 2", "18446744073709551615", "18446744073709551616", "99999999999999999999x"] {
        let expected = s.parse::<usize>();
        let got = parse_usize(&chars(s));
        match expected {
            Ok(v) => assert_eq!(got, Ok(v), "{s}"),
            Err(e) => {
                let kind = match e.kind() {
                    std::num::IntErrorKind::Empty => IntErrorKind::Empty,
                    std::num::IntErrorKind::InvalidDigit => IntErrorKind::InvalidDigit,
                    std::num::IntErrorKind::PosOverflow => IntErrorKind::PosOverflow,
                    _ => unreachable!(),
                };
                assert_eq!(got, Err(kind), "{s}");
            }
        }
    }
}

#[test]
fn resumes_after_last_row() {
    let all = sols(&["CRANE", "SLATE", "TRACE"]);
    let contents = "CRANE, 3, SLATE(12), TRACE+(1), CRANE+(*)\nnote\nslate , 1, SLATE+(*)\n";
    assert_eq!(
        read_completed_results_from(contents, &all),
        Ok((['S', 'L', 'A', 'T', 'E'], 4, 2))
    );
}

#[test]
fn empty_results_start_before_first_solution() {
    let all = sols(&["CRANE", "SLATE"]);
    assert_eq!(read_completed_results_from("", &all), Ok((['C', 'R', 'A', 'N', 'E'], 0, 0)));
    assert_eq!(read_completed_results_from("a, b\n", &all), Ok((['C', 'R', 'A', 'N', 'E'], 0, 0)));
}

#[test]
fn bad_step_count_names_its_row() {
    let all = sols(&["CRANE"]);
    assert_eq!(
        read_completed_results_from("x\nCRANE, 3x, a\n", &all),
        Err(ResumeError::InvalidStepCount { row: 2, kind: IntErrorKind::InvalidDigit })
    );
    assert_eq!(
        read_completed_results_from("CRANE, , a\n", &all),
        Err(ResumeError::InvalidStepCount { row: 1, kind: IntErrorKind::Empty })
    );
}

#[test]
fn unknown_last_solution_is_an_error() {
    let all = sols(&["CRANE"]);
    assert_eq!(
        read_completed_results_from("CRANE, 1, a\nZebra, 2, b\n", &all),
        Err(ResumeError::UnknownSolution("Zebra".to_owned()))
    );
}

#[test]
fn unresumable_files_are_refused() {
    assert_eq!(try_read_completed_results_from("", &vec![]), None);
    let all = sols(&["CRANE"]);
    assert_eq!(try_read_completed_results_from("12345, 1, a\n", &all), None);
    assert_eq!(
        try_read_completed_results_from(
            "CRANE, 18446744073709551615, a\nCRANE, 1, a\n",
            &all
        ),
        None
    );
    assert_eq!(
        try_read_completed_results_from("CRANE, 2, a\n", &all),
        Some(Ok((['C', 'R', 'A', 'N', 'E'], 2, 1)))
    );
}

#[test]
fn result_line_lists_the_steps() {
    let steps = vec![
        (['S', 'L', 'A', 'T', 'E'], false, 12),
        (['T', 'R', 'A', 'C', 'E'], true, 1),
        (['C', 'R', 'A', 'N', 'E'], true, 0),
    ];
    assert_eq!(
        result_line(&['C', 'R', 'A', 'N', 'E'], &steps),
        "CRANE, 3, SLATE(12), TRACE+(1), CRANE+(*)"
    );
    assert_eq!(result_line(&['C', 'R', 'A', 'N', 'E'], &vec![]), "CRANE, 0");
    let many = vec![(['A', 'B', 'C', 'D', 'E'], false, 1234567); 10];
    assert!(result_line(&['A', 'B', 'C', 'D', 'E'], &many).starts_with("ABCDE, 10, ABCDE(1234567), "));
}

#[test]
fn written_rows_read_back() {
    let all = sols(&["BREAD", "CRANE", "SLATE", "TRACE"]);
    let w = |s: &str| sols(&[s])[0];
    let games = vec![
        (w("CRANE"), vec![(w("SLATE"), false, 12), (w("TRACE"), true, 1), (w("CRANE"), true, 0)]),
        (w("TRACE"), vec![(w("SLATE"), false, 3), (w("TRACE"), true, 0)]),
    ];
    let mut contents = String::new();
    for (solution, steps) in &games {
        contents.push_str(&result_line(solution, steps));
        contents.push('\n');
    }
    assert_eq!(
        try_read_completed_results_from(&contents, &all),
        Some(Ok((w("TRACE"), 5, 2)))
    );
}
