//! The results file of a first-guess evaluation: one row per solution, as in
//! `CRANE, 3, SLATE(12), TRACE(1), CRANE(*)`, so that an interrupted run can resume.
use vstd::prelude::*;

use crate::clue::{is_word, WordChars, WordClue, WORD_LENGTH};
use crate::report::{decimal, digit_char, spec_result_line, step_text, steps_text};
use crate::text::{
    lemma_split_no_sep, lemma_split_prefix, split_char, split_on, string_of, trim, trim_chars,
    trim_end, trim_start, uppercase, whitespace,
};
use crate::wordfile::{lines_of, strip_cr, text_lines};
use crate::wordlist::{contains_word, strictly_sorted};

verus! {

/// Why a number does not parse, as `std::num::IntErrorKind` tells it.
#[derive(Clone, Copy, Debug, PartialEq, Eq, Structural)]
pub enum IntErrorKind {
    /// Nothing to parse.
    Empty,
    /// A character that is not a decimal digit.
    InvalidDigit,
    /// A number above `usize::MAX`.
    PosOverflow,
}

/// Why a results file cannot be resumed.
#[derive(Clone, Debug, PartialEq, Eq)]
pub enum ResumeError {
    /// The step count of the row on this line (counted from 1) does not parse.
    InvalidStepCount { row: usize, kind: IntErrorKind },
    /// The solution of the last row is not an official solution.
    UnknownSolution(String),
}

/// Whether `c` is a decimal digit.
pub open spec fn is_digit(c: char) -> bool {
    '0' <= c && c <= '9'
}

/// The decimal digits `ds` read after the value `acc`, as `usize::from_str` reads them from
/// left to right: the first character that is not a digit, or the first value above
/// `usize::MAX`, is an error.
pub open spec fn read_digits(ds: Seq<char>, acc: int) -> Result<int, IntErrorKind>
    decreases ds.len(),
{
    if ds.len() == 0 {
        Ok(acc)
    } else if !is_digit(ds[0]) {
        Err(IntErrorKind::InvalidDigit)
    } else if acc * 10 + (ds[0] as int - '0' as int) > usize::MAX {
        Err(IntErrorKind::PosOverflow)
    } else {
        read_digits(ds.skip(1), acc * 10 + (ds[0] as int - '0' as int))
    }
}

/// What `s.parse::<usize>()` gives: an optional `+` followed by decimal digits.
pub open spec fn parse_usize_spec(s: Seq<char>) -> Result<int, IntErrorKind> {
    if s.len() == 0 {
        Err(IntErrorKind::Empty)
    } else if s[0] == '+' {
        if s.len() == 1 {
            Err(IntErrorKind::InvalidDigit)
        } else {
            read_digits(s.skip(1), 0)
        }
    } else {
        read_digits(s, 0)
    }
}

proof fn lemma_read_digits_range(ds: Seq<char>, acc: int)
    requires
        0 <= acc <= usize::MAX,
    ensures
        read_digits(ds, acc) matches Ok(v) ==> 0 <= v <= usize::MAX,
    decreases ds.len(),
{
    if ds.len() > 0 && is_digit(ds[0]) && acc * 10 + (ds[0] as int - '0' as int) <= usize::MAX {
        lemma_read_digits_range(ds.skip(1), acc * 10 + (ds[0] as int - '0' as int));
    }
}

/// Parses a decimal number as `str::parse::<usize>` does.
pub fn parse_usize(s: &Vec<char>) -> (r: Result<usize, IntErrorKind>)
    ensures
        match parse_usize_spec(s@) {
            Ok(v) => 0 <= v <= usize::MAX && r == Ok::<usize, IntErrorKind>(v as usize),
            Err(k) => r == Err::<usize, IntErrorKind>(k),
        },
{
    if s.len() == 0 {
        return Err(IntErrorKind::Empty);
    }
    let mut index: usize = 0;
    if s[0] == '+' {
        if s.len() == 1 {
            return Err(IntErrorKind::InvalidDigit);
        }
        index = 1;
    } else {
        proof {
            assert(s@.skip(0) =~= s@);
        }
    }
    let mut value: usize = 0;
    proof {
        lemma_read_digits_range(s@.skip(index as int), 0);
    }
    while index < s.len()
        invariant
            0 <= index <= s@.len(),
            read_digits(s@.skip(index as int), value as int) == parse_usize_spec(s@),
        decreases s@.len() - index,
    {
        let c = s[index];
        if !('0' <= c && c <= '9') {
            return Err(IntErrorKind::InvalidDigit);
        }
        let d = (c as u32 - '0' as u32) as usize;
        if value > (usize::MAX - d) / 10 {
            proof {
                assert(value * 10 + d > usize::MAX) by (nonlinear_arith)
                    requires
                        value > (usize::MAX - d) / 10,
                        d <= 9,
                ;
            }
            return Err(IntErrorKind::PosOverflow);
        }
        proof {
            assert(value * 10 + d <= usize::MAX) by (nonlinear_arith)
                requires
                    value <= (usize::MAX - d) / 10,
                    d <= 9,
            ;
            assert(s@.skip(index as int).skip(1) =~= s@.skip(index + 1));
        }
        value = value * 10 + d;
        index += 1;
    }
    Ok(value)
}

/// The comma-separated fields of a line, each trimmed of whitespace.
pub open spec fn row_fields(line: Seq<char>) -> Seq<Seq<char>> {
    split_char(line, ',').map_values(|f: Seq<char>| trim(f))
}

/// Whether a line is a result row: it has more than two comma-separated fields.
pub open spec fn is_result_row(line: Seq<char>) -> bool {
    split_char(line, ',').len() > 2
}

/// The first of the first `n` lines whose row has a step count that does not parse, with its
/// line number (counted from 1) and the error.
pub open spec fn first_bad_row(lines: Seq<Seq<char>>, n: int) -> Option<(int, IntErrorKind)>
    decreases n,
{
    if n <= 0 {
        None
    } else {
        match first_bad_row(lines, n - 1) {
            Some(bad) => Some(bad),
            None => if is_result_row(lines[n - 1]) && parse_usize_spec(row_fields(lines[n - 1])[1]) is Err {
                Some((n, parse_usize_spec(row_fields(lines[n - 1])[1])->Err_0))
            } else {
                None
            },
        }
    }
}

/// The number of rows among the first `n` lines.
pub open spec fn row_count(lines: Seq<Seq<char>>, n: int) -> nat
    decreases n,
{
    if n <= 0 {
        0
    } else {
        row_count(lines, n - 1) + if is_result_row(lines[n - 1]) {
            1nat
        } else {
            0nat
        }
    }
}

/// The sum of the step counts of the rows among the first `n` lines.
pub open spec fn step_total(lines: Seq<Seq<char>>, n: int) -> int
    decreases n,
{
    if n <= 0 {
        0
    } else {
        step_total(lines, n - 1) + if is_result_row(lines[n - 1]) {
            parse_usize_spec(row_fields(lines[n - 1])[1])->Ok_0
        } else {
            0int
        }
    }
}

/// The first field of the last row among the first `n` lines.
pub open spec fn last_row_word(lines: Seq<Seq<char>>, n: int) -> Option<Seq<char>>
    decreases n,
{
    if n <= 0 {
        None
    } else if is_result_row(lines[n - 1]) {
        Some(row_fields(lines[n - 1])[0])
    } else {
        last_row_word(lines, n - 1)
    }
}

/// Whether reading the results file `contents` against `all_solutions` goes through without
/// a fault: the running sum of step counts stays within `usize`, the last row names a word,
/// and without rows there is a first solution to give as the last one done.
pub open spec fn resumable(contents: Seq<char>, all_solutions: Seq<WordChars>) -> bool {
    let lines = text_lines(contents);
    &&& forall|n: int|
        0 <= n <= lines.len() && first_bad_row(lines, n) is None ==> #[trigger] step_total(
            lines,
            n,
        ) <= usize::MAX
    &&& first_bad_row(lines, lines.len() as int) is None ==> match last_row_word(
        lines,
        lines.len() as int,
    ) {
        Some(w) => is_word(w),
        None => all_solutions.len() > 0,
    }
}

/// The letters of a word of five characters, upper-cased, as an array.
pub open spec fn spec_word_chars(w: Seq<char>) -> WordChars {
    [uppercase(w)[0], uppercase(w)[1], uppercase(w)[2], uppercase(w)[3], uppercase(w)[4]]
}

/// What reading the rows of a results file comes to.
enum RowScan {
    /// A row whose step count does not parse.
    Bad { row: usize, kind: IntErrorKind },
    /// The running sum of step counts went beyond `usize`.
    Overflow,
    /// Every row read: the total of the step counts, the number of rows and the first field
    /// of the last row.
    Done { total: usize, count: usize, last: Option<Vec<char>> },
}

/// The lines as sequences of characters.
spec fn line_views(lines: Seq<Vec<char>>) -> Seq<Seq<char>> {
    lines.map_values(|l: Vec<char>| l@)
}

proof fn lemma_bad_row_stays(lines: Seq<Seq<char>>, n: int, m: int)
    requires
        n <= m,
        first_bad_row(lines, n) is Some,
    ensures
        first_bad_row(lines, m) == first_bad_row(lines, n),
    decreases m - n,
{
    if n < m {
        lemma_bad_row_stays(lines, n, m - 1);
    }
}

fn scan_rows(lines: &Vec<Vec<char>>) -> (r: RowScan)
    ensures
        ({
            let ls = line_views(lines@);
            let n = ls.len() as int;
            match r {
                RowScan::Overflow => exists|k: int|
                    0 <= k <= n && first_bad_row(ls, k) is None && #[trigger] step_total(ls, k)
                        > usize::MAX,
                RowScan::Bad { row, kind } => first_bad_row(ls, n) == Some((row as int, kind))
                    && forall|k: int|
                    0 <= k <= n && first_bad_row(ls, k) is None ==> #[trigger] step_total(ls, k)
                        <= usize::MAX,
                RowScan::Done { total, count, last } => {
                    &&& first_bad_row(ls, n) is None
                    &&& total == step_total(ls, n)
                    &&& count == row_count(ls, n)
                    &&& match last {
                        Some(w) => last_row_word(ls, n) == Some(w@),
                        None => last_row_word(ls, n) is None,
                    }
                    &&& forall|k: int|
                        0 <= k <= n && first_bad_row(ls, k) is None ==> #[trigger] step_total(
                            ls,
                            k,
                        ) <= usize::MAX
                }
            }
        }),
{
    let ghost ls = line_views(lines@);
    let mut total: usize = 0;
    let mut count: usize = 0;
    let mut last: Option<Vec<char>> = None;
    let mut index: usize = 0;
    while index < lines.len()
        invariant
            0 <= index <= lines@.len(),
            ls == line_views(lines@),
            first_bad_row(ls, index as int) is None,
            total == step_total(ls, index as int),
            count == row_count(ls, index as int),
            count <= index,
            match last {
                Some(w) => last_row_word(ls, index as int) == Some(w@),
                None => last_row_word(ls, index as int) is None,
            },
            forall|k: int|
                0 <= k <= index && first_bad_row(ls, k) is None ==> #[trigger] step_total(ls, k)
                    <= usize::MAX,
        decreases lines@.len() - index,
    {
        let pieces = split_on(&lines[index], ',');
        proof {
            assert(ls[index as int] == lines@[index as int]@);
        }
        if pieces.len() > 2 {
            let count_field = trim_chars(&pieces[1]);
            proof {
                assert(pieces@[1]@ == split_char(ls[index as int], ',')[1]);
                assert(row_fields(ls[index as int])[1] == trim(split_char(ls[index as int], ',')[1]));
                assert(count_field@ == row_fields(ls[index as int])[1]);
                assert(is_result_row(ls[index as int]));
            }
            match parse_usize(&count_field) {
                Err(kind) => {
                    proof {
                        assert(first_bad_row(ls, index + 1) == Some((index + 1, kind)));
                        lemma_bad_row_stays(ls, index + 1, ls.len() as int);
                        assert forall|k: int| 0 <= k <= ls.len() && first_bad_row(ls, k) is None implies #[trigger] step_total(ls, k) <= usize::MAX by {
                            if k > index {
                                lemma_bad_row_stays(ls, index + 1, k);
                            }
                        }
                    }
                    return RowScan::Bad { row: index + 1, kind };
                },
                Ok(steps) => {
                    proof {
                        assert(first_bad_row(ls, index + 1) is None);
                        assert(step_total(ls, index + 1) == total + steps);
                    }
                    if total > usize::MAX - steps {
                        proof {
                            assert(step_total(ls, index + 1) > usize::MAX);
                        }
                        return RowScan::Overflow;
                    }
                    total = total + steps;
                    count = count + 1;
                    let word = trim_chars(&pieces[0]);
                    proof {
                        assert(row_fields(ls[index as int])[0] == trim(split_char(ls[index as int], ',')[0]));
                    }
                    last = Some(word);
                },
            }
        }
        index += 1;
    }
    RowScan::Done { total, count, last }
}

/// Reads a results file: the last solution done, the total of the step counts and the number
/// of rows; an error for the first row whose step count does not parse, or where the last
/// solution is not in `all_solutions`. Without rows it gives the first solution as the last one
/// done, so that a run resumed from it skips the first solution.
pub fn read_completed_results_from(contents: &str, all_solutions: &Vec<WordChars>) -> (r: Result<
    (WordChars, usize, usize),
    ResumeError,
>)
    requires
        strictly_sorted(all_solutions@),
        resumable(contents@, all_solutions@),
    ensures
        ({
            let lines = text_lines(contents@);
            let n = lines.len() as int;
            match first_bad_row(lines, n) {
                Some(bad) => r == Err::<(WordChars, usize, usize), ResumeError>(
                    ResumeError::InvalidStepCount { row: bad.0 as usize, kind: bad.1 },
                ),
                None => match last_row_word(lines, n) {
                    None => r == Ok::<(WordChars, usize, usize), ResumeError>(
                        (all_solutions@[0], 0, 0),
                    ),
                    Some(w) => if all_solutions@.contains(spec_word_chars(w)) {
                        r == Ok::<(WordChars, usize, usize), ResumeError>(
                            (
                                spec_word_chars(w),
                                step_total(lines, n) as usize,
                                row_count(lines, n) as usize,
                            ),
                        )
                    } else {
                        r matches Err(ResumeError::UnknownSolution(s)) && s@ == w
                    },
                },
            }
        }),
{
    let lines = lines_of(contents);
    proof {
        assert(line_views(lines@) =~= text_lines(contents@));
    }
    match scan_rows(&lines) {
        RowScan::Overflow => {
            proof {
                assert(false);
            }
            Err(ResumeError::UnknownSolution(String::new()))
        },
        RowScan::Bad { row, kind } => Err(ResumeError::InvalidStepCount { row, kind }),
        RowScan::Done { total, count, last } => match last {
            None => Ok((all_solutions[0], 0, 0)),
            Some(w) => {
                let word = string_of(w.as_slice());
                let chars = WordClue::make_word_chars(word.as_str());
                proof {
                    assert(chars =~= spec_word_chars(w@));
                }
                if contains_word(all_solutions, &chars) {
                    Ok((chars, total, count))
                } else {
                    Err(ResumeError::UnknownSolution(word))
                }
            },
        },
    }
}

/// Reads a results file as `read_completed_results_from` does, or returns `None` where the
/// file is not `resumable`: the running sum of step counts leaves `usize`, the last row does
/// not name a word, or there are neither rows nor solutions.
pub fn try_read_completed_results_from(contents: &str, all_solutions: &Vec<WordChars>) -> (r:
    Option<Result<(WordChars, usize, usize), ResumeError>>)
    requires
        strictly_sorted(all_solutions@),
    ensures
        r is Some <==> resumable(contents@, all_solutions@),
        r matches Some(x) ==> ({
            let lines = text_lines(contents@);
            let n = lines.len() as int;
            match first_bad_row(lines, n) {
                Some(bad) => x == Err::<(WordChars, usize, usize), ResumeError>(
                    ResumeError::InvalidStepCount { row: bad.0 as usize, kind: bad.1 },
                ),
                None => match last_row_word(lines, n) {
                    None => x == Ok::<(WordChars, usize, usize), ResumeError>(
                        (all_solutions@[0], 0, 0),
                    ),
                    Some(w) => if all_solutions@.contains(spec_word_chars(w)) {
                        x == Ok::<(WordChars, usize, usize), ResumeError>(
                            (
                                spec_word_chars(w),
                                step_total(lines, n) as usize,
                                row_count(lines, n) as usize,
                            ),
                        )
                    } else {
                        x matches Err(ResumeError::UnknownSolution(s)) && s@ == w
                    },
                },
            }
        }),
{
    let lines = lines_of(contents);
    proof {
        assert(line_views(lines@) =~= text_lines(contents@));
    }
    let ghost ls = text_lines(contents@);
    match scan_rows(&lines) {
        RowScan::Overflow => {
            return None;
        },
        RowScan::Bad { row, kind } => {
            proof {
                assert forall|k: int| 0 <= k <= ls.len() && first_bad_row(ls, k) is None implies #[trigger] step_total(ls, k) <= usize::MAX by {}
            }
        },
        RowScan::Done { total, count, last } => match last {
            None => {
                if all_solutions.len() == 0 {
                    return None;
                }
            },
            Some(w) => {
                let word = string_of(w.as_slice());
                if WordClue::try_make_word_chars(word.as_str()).is_none() {
                    return None;
                }
            },
        },
    }
    Some(read_completed_results_from(contents, all_solutions))
}

} // verus!

verus! {

proof fn lemma_read_digits_push(s: Seq<char>, c: char, acc: int)
    ensures
        read_digits(s.push(c), acc) == match read_digits(s, acc) {
            Ok(v) => read_digits(seq![c], v),
            Err(e) => Err(e),
        },
    decreases s.len(),
{
    if s.len() > 0 {
        assert(s.push(c).skip(1) =~= s.skip(1).push(c));
        assert(s.push(c)[0] == s[0]);
        if is_digit(s[0]) && acc * 10 + (s[0] as int - '0' as int) <= usize::MAX {
            lemma_read_digits_push(s.skip(1), c, acc * 10 + (s[0] as int - '0' as int));
        }
    } else {
        assert(s.push(c) =~= seq![c]);
    }
}

proof fn lemma_decimal_first_is_digit(n: nat)
    ensures
        decimal(n).len() > 0,
        is_digit(decimal(n)[0]),
    decreases n,
{
    if n >= 10 {
        lemma_decimal_first_is_digit(n / 10);
        assert(decimal(n)[0] == decimal(n / 10)[0]);
    }
}

/// A number written in decimal, as the results rows write step counts, parses back to itself.
pub proof fn lemma_decimal_parses_back(n: nat)
    requires
        n <= usize::MAX,
    ensures
        parse_usize_spec(decimal(n)) == Ok::<int, IntErrorKind>(n as int),
    decreases n,
{
    lemma_decimal_first_is_digit(n);
    if n < 10 {
        let s = seq![digit_char(n as int)];
        assert(s.skip(1) =~= Seq::<char>::empty());
        assert(digit_char(n as int) as int - '0' as int == n);
        assert(s[0] != '+');
        assert(read_digits(s.skip(1), n as int) == Ok::<int, IntErrorKind>(n as int));
        assert(read_digits(s, 0) == Ok::<int, IntErrorKind>(n as int));
    } else {
        lemma_decimal_parses_back(n / 10);
        lemma_decimal_first_is_digit(n / 10);
        let q = n / 10;
        let c = digit_char((n % 10) as int);
        lemma_read_digits_push(decimal(q), c, 0);
        assert(seq![c].skip(1) =~= Seq::<char>::empty());
        assert(c as int - '0' as int == n % 10);
        assert(read_digits(decimal(q), 0) == Ok::<int, IntErrorKind>(q as int));
        assert(q * 10 + n % 10 == n);
        assert(is_digit(c));
        assert(seq![c][0] == c);
        assert(read_digits(seq![c].skip(1), n as int) == Ok::<int, IntErrorKind>(n as int));
        assert(read_digits(seq![c], q as int) == Ok::<int, IntErrorKind>(n as int));
        assert(decimal(n) == decimal(q).push(c));
        assert(decimal(n)[0] != '+');
    }
}

proof fn lemma_decimal_digits(n: nat)
    ensures
        forall|i: int| 0 <= i < decimal(n).len() ==> is_digit(#[trigger] decimal(n)[i]),
    decreases n,
{
    if n >= 10 {
        lemma_decimal_digits(n / 10);
        assert forall|i: int| 0 <= i < decimal(n).len() implies is_digit(#[trigger] decimal(n)[i]) by {
            if i < decimal(n / 10).len() {
                assert(decimal(n)[i] == decimal(n / 10)[i]);
            }
        }
    }
}

proof fn lemma_steps_text_starts_with_comma(steps: Seq<(WordChars, bool, usize)>, n: int)
    requires
        n >= 1,
    ensures
        steps_text(steps, n).len() > 0,
        steps_text(steps, n)[0] == ',',
    decreases n,
{
    if n > 1 {
        lemma_steps_text_starts_with_comma(steps, n - 1);
    } else {
        assert(steps_text(steps, 0) =~= Seq::<char>::empty());
        assert(steps_text(steps, 1) =~= step_text(steps[0]));
    }
}

/// The row written for a solution reads back: it is a result row, its first field is the
/// solution and its second field parses to the number of guesses, given a game of at least one
/// guess, a solution without a comma that neither begins nor ends with white space, and a
/// count whose digits are not white space.
pub proof fn lemma_result_row_reads_back(solution: WordChars, steps: Seq<(WordChars, bool, usize)>)
    requires
        0 < steps.len() <= usize::MAX,
        forall|i: int| 0 <= i < WORD_LENGTH ==> solution[i] != ',',
        !whitespace(solution[0]),
        !whitespace(solution[4]),
        forall|i: int|
            0 <= i < decimal(steps.len()).len() ==> !whitespace(#[trigger] decimal(steps.len())[i]),
    ensures
        is_result_row(spec_result_line(solution, steps)),
        row_fields(spec_result_line(solution, steps))[0] == solution@,
        parse_usize_spec(row_fields(spec_result_line(solution, steps))[1]) == Ok::<
            int,
            IntErrorKind,
        >(steps.len() as int),
{
    let n = steps.len();
    let d = decimal(n);
    let sol = solution@;
    let line = spec_result_line(solution, steps);
    let t = steps_text(steps, n as int);
    lemma_steps_text_starts_with_comma(steps, n as int);
    lemma_decimal_digits(n);
    lemma_decimal_first_is_digit(n);
    lemma_decimal_parses_back(n);
    let empty = Seq::<char>::empty();
    let a1 = sol.push(',');
    let gap = seq![' '] + d;
    let a2 = a1 + gap;
    let a = a2.push(',');
    assert(line =~= a + t.skip(1));
    lemma_split_no_sep(empty, sol, ',');
    assert(empty + sol =~= sol);
    assert(split_char(empty, ',') =~= seq![empty]);
    assert(split_char(sol, ',') =~= seq![sol]);
    assert(a1.drop_last() =~= sol);
    assert(split_char(a1, ',') =~= seq![sol, empty]);
    assert forall|i: int| 0 <= i < gap.len() implies gap[i] != ',' by {
        if i > 0 {
            assert(gap[i] == d[i - 1]);
            assert(is_digit(d[i - 1]));
        }
    }
    lemma_split_no_sep(a1, gap, ',');
    assert(empty + gap =~= gap);
    assert(split_char(a2, ',') =~= seq![sol, gap]);
    assert(a.drop_last() =~= a2);
    assert(split_char(a, ',') =~= seq![sol, gap, empty]);
    lemma_split_prefix(a, t.skip(1), ',');
    assert(split_char(line, ',')[0] == sol);
    assert(split_char(line, ',')[1] == gap);
    assert(trim_start(sol) == sol);
    assert(sol.last() == solution[4]);
    assert(trim_end(sol) == sol);
    assert(gap.skip(1) =~= d);
    assert(!whitespace(d[0]));
    assert(trim_start(d) == d);
    assert(trim_start(gap) == d);
    assert(!whitespace(d.last()));
    assert(trim_end(d) == d);
}

/// The text of a results file whose rows are `rows`: each row followed by a newline.
pub open spec fn rows_text(rows: Seq<Seq<char>>) -> Seq<char>
    decreases rows.len(),
{
    if rows.len() == 0 {
        Seq::empty()
    } else {
        rows_text(rows.drop_last()) + rows.last().push('\n')
    }
}

/// The rows written for games, each a solution and the steps of its simulated game.
pub open spec fn game_rows(games: Seq<(WordChars, Seq<(WordChars, bool, usize)>)>) -> Seq<
    Seq<char>,
> {
    games.map_values(|g: (WordChars, Seq<(WordChars, bool, usize)>)| spec_result_line(g.0, g.1))
}

/// The number of guesses of the first `m` games, added up.
pub open spec fn guesses_total(games: Seq<(WordChars, Seq<(WordChars, bool, usize)>)>, m: int) -> int
    decreases m,
{
    if m <= 0 {
        0
    } else {
        guesses_total(games, m - 1) + games[m - 1].1.len()
    }
}

/// A game whose row reads back: at least one guess, a solution without comma or newline that
/// neither begins nor ends with white space, a count whose digits are not white space, and
/// guesses without newline.
pub open spec fn readable_game(g: (WordChars, Seq<(WordChars, bool, usize)>)) -> bool {
    &&& 0 < g.1.len() <= usize::MAX
    &&& forall|i: int| 0 <= i < WORD_LENGTH ==> g.0[i] != ',' && g.0[i] != '\n'
    &&& !whitespace(g.0[0])
    &&& !whitespace(g.0[4])
    &&& forall|i: int|
        0 <= i < decimal(g.1.len()).len() ==> !whitespace(#[trigger] decimal(g.1.len())[i])
    &&& forall|k: int, i: int|
        0 <= k < g.1.len() && 0 <= i < WORD_LENGTH ==> #[trigger] g.1[k].0[i] != '\n'
}

proof fn lemma_step_text_no_newline(step: (WordChars, bool, usize))
    requires
        forall|i: int| 0 <= i < WORD_LENGTH ==> step.0[i] != '\n',
    ensures
        forall|i: int| 0 <= i < step_text(step).len() ==> #[trigger] step_text(step)[i] != '\n',
        step_text(step).len() > 0,
        step_text(step).last() == ')',
{
    lemma_decimal_digits(step.2 as nat);
    let t = step_text(step);
    assert forall|i: int| 0 <= i < t.len() implies #[trigger] t[i] != '\n' by {
        let head = seq![',', ' '] + step.0@;
        let mark = if step.1 {
            seq!['+']
        } else {
            Seq::<char>::empty()
        };
        let count = if step.2 == 0 {
            seq!['*']
        } else {
            decimal(step.2 as nat)
        };
        assert(t =~= head + mark + seq!['('] + count + seq![')']);
        if i < 2 {
        } else if i < head.len() {
            assert(t[i] == step.0[i - 2]);
        } else if i < head.len() + mark.len() {
        } else if i < head.len() + mark.len() + 1 {
        } else if i < head.len() + mark.len() + 1 + count.len() {
            let j = i - head.len() - mark.len() - 1;
            assert(t[i] == count[j]);
            if step.2 != 0 {
                assert(is_digit(decimal(step.2 as nat)[j]));
            }
        }
    }
}

proof fn lemma_steps_text_no_newline(steps: Seq<(WordChars, bool, usize)>, n: int)
    requires
        0 <= n <= steps.len(),
        forall|k: int, i: int|
            0 <= k < steps.len() && 0 <= i < WORD_LENGTH ==> #[trigger] steps[k].0[i] != '\n',
    ensures
        forall|i: int|
            0 <= i < steps_text(steps, n).len() ==> #[trigger] steps_text(steps, n)[i] != '\n',
        n > 0 ==> steps_text(steps, n).len() > 0 && steps_text(steps, n).last() == ')',
    decreases n,
{
    if n > 0 {
        lemma_steps_text_no_newline(steps, n - 1);
        let step = steps[n - 1];
        assert forall|i: int| 0 <= i < WORD_LENGTH implies step.0[i] != '\n' by {
            assert(steps[n - 1].0[i] != '\n');
        }
        lemma_step_text_no_newline(step);
        let prev = steps_text(steps, n - 1);
        assert forall|i: int| 0 <= i < steps_text(steps, n).len() implies #[trigger] steps_text(steps, n)[i] != '\n' by {
            if i < prev.len() {
                assert(steps_text(steps, n)[i] == prev[i]);
            } else {
                assert(steps_text(steps, n)[i] == step_text(step)[i - prev.len()]);
            }
        }
    }
}

proof fn lemma_row_no_newline(g: (WordChars, Seq<(WordChars, bool, usize)>))
    requires
        readable_game(g),
    ensures
        forall|i: int|
            0 <= i < spec_result_line(g.0, g.1).len() ==> #[trigger] spec_result_line(g.0, g.1)[i]
                != '\n',
        spec_result_line(g.0, g.1).len() > 0,
        spec_result_line(g.0, g.1).last() == ')',
{
    let n = g.1.len();
    lemma_steps_text_no_newline(g.1, n as int);
    lemma_decimal_digits(n);
    let line = spec_result_line(g.0, g.1);
    let head = g.0@ + seq![',', ' '] + decimal(n);
    let t = steps_text(g.1, n as int);
    assert(line =~= head + t);
    assert forall|i: int| 0 <= i < line.len() implies #[trigger] line[i] != '\n' by {
        if i < 5 {
            assert(line[i] == g.0[i]);
        } else if i < 7 {
        } else if i < head.len() {
            assert(line[i] == decimal(n)[i - 7]);
            assert(is_digit(decimal(n)[i - 7]));
        } else {
            assert(line[i] == t[i - head.len()]);
        }
    }
}

proof fn lemma_rows_split(rows: Seq<Seq<char>>)
    requires
        forall|k: int, i: int| 0 <= k < rows.len() && 0 <= i < rows[k].len() ==> #[trigger] rows[k][i] != '\n',
    ensures
        split_char(rows_text(rows), '\n') == rows.push(Seq::<char>::empty()),
    decreases rows.len(),
{
    let empty = Seq::<char>::empty();
    if rows.len() == 0 {
        assert(split_char(rows_text(rows), '\n') =~= rows.push(empty));
    } else {
        let prev = rows.drop_last();
        assert forall|k: int, i: int| 0 <= k < prev.len() && 0 <= i < prev[k].len() implies #[trigger] prev[k][i] != '\n' by {
            assert(prev[k] == rows[k]);
        }
        lemma_rows_split(prev);
        let last = rows.last();
        assert forall|i: int| 0 <= i < last.len() implies last[i] != '\n' by {
            assert(rows[rows.len() - 1][i] != '\n');
        }
        lemma_split_no_sep(rows_text(prev), last, '\n');
        assert(empty + last =~= last);
        let joined = rows_text(prev) + last;
        assert(split_char(joined, '\n') =~= prev.push(last));
        assert(rows_text(rows) =~= joined.push('\n'));
        assert(rows_text(rows).drop_last() =~= joined);
        assert(prev.push(last) =~= rows);
        assert(split_char(rows_text(rows), '\n') =~= rows.push(empty));
    }
}

proof fn lemma_rows_read(games: Seq<(WordChars, Seq<(WordChars, bool, usize)>)>, m: int)
    requires
        0 <= m <= games.len(),
        forall|k: int| 0 <= k < games.len() ==> readable_game(#[trigger] games[k]),
    ensures
        first_bad_row(game_rows(games), m) is None,
        row_count(game_rows(games), m) == m,
        step_total(game_rows(games), m) == guesses_total(games, m),
        m > 0 ==> last_row_word(game_rows(games), m) == Some(games[m - 1].0@),
    decreases m,
{
    if m > 0 {
        lemma_rows_read(games, m - 1);
        let g = games[m - 1];
        assert(readable_game(g));
        lemma_result_row_reads_back(g.0, g.1);
        assert(game_rows(games)[m - 1] == spec_result_line(g.0, g.1));
    }
}

proof fn lemma_guesses_total_grows(games: Seq<(WordChars, Seq<(WordChars, bool, usize)>)>, m: int, k: int)
    requires
        0 <= m <= k,
    ensures
        guesses_total(games, m) <= guesses_total(games, k),
    decreases k - m,
{
    if m < k {
        lemma_guesses_total_grows(games, m, k - 1);
    }
}

/// A results file written as one row per game, each followed by a newline, reads back: no row
/// is refused, there are as many rows as games, the step counts add up to the guesses of all
/// games, and the last row names the last solution; where that total fits in `usize` and the
/// last solution is a word (or, without games, there is a first solution), the file
/// can be resumed.
pub proof fn lemma_results_read_back(
    games: Seq<(WordChars, Seq<(WordChars, bool, usize)>)>,
    all_solutions: Seq<WordChars>,
)
    requires
        forall|k: int| 0 <= k < games.len() ==> readable_game(#[trigger] games[k]),
    ensures
        ({
            let lines = text_lines(rows_text(game_rows(games)));
            let n = lines.len() as int;
            &&& lines == game_rows(games)
            &&& first_bad_row(lines, n) is None
            &&& row_count(lines, n) == games.len()
            &&& step_total(lines, n) == guesses_total(games, games.len() as int)
            &&& games.len() > 0 ==> last_row_word(lines, n) == Some(games.last().0@)
            &&& games.len() == 0 ==> last_row_word(lines, n) is None
        }),
        guesses_total(games, games.len() as int) <= usize::MAX && (if games.len() > 0 {
            is_word(games.last().0@)
        } else {
            all_solutions.len() > 0
        }) ==> resumable(rows_text(game_rows(games)), all_solutions),
{
    let rows = game_rows(games);
    let empty = Seq::<char>::empty();
    assert forall|k: int, i: int| 0 <= k < rows.len() && 0 <= i < rows[k].len() implies #[trigger] rows[k][i] != '\n' by {
        assert(readable_game(games[k]));
        lemma_row_no_newline(games[k]);
    }
    lemma_rows_split(rows);
    let pieces = split_char(rows_text(rows), '\n');
    assert(pieces.drop_last() =~= rows);
    assert forall|k: int| 0 <= k < rows.len() implies strip_cr(#[trigger] rows[k]) == rows[k] by {
        assert(readable_game(games[k]));
        lemma_row_no_newline(games[k]);
    }
    assert(rows.map_values(|p: Seq<char>| strip_cr(p)) =~= rows);
    let lines = text_lines(rows_text(rows));
    assert(lines == rows);
    lemma_rows_read(games, games.len() as int);
    if guesses_total(games, games.len() as int) <= usize::MAX {
        assert forall|m: int| 0 <= m <= lines.len() && first_bad_row(lines, m) is None implies #[trigger] step_total(lines, m) <= usize::MAX by {
            lemma_rows_read(games, m);
            lemma_guesses_total_grows(games, m, games.len() as int);
        }
    }
}

} // verus!
