//! The rows written for each solution when a first guess is evaluated.
use vstd::prelude::*;

use crate::clue::WordChars;
use crate::text::push_char;

verus! {

/// The character of a decimal digit.
pub open spec fn digit_char(d: int) -> char {
    if d == 0 {
        '0'
    } else if d == 1 {
        '1'
    } else if d == 2 {
        '2'
    } else if d == 3 {
        '3'
    } else if d == 4 {
        '4'
    } else if d == 5 {
        '5'
    } else if d == 6 {
        '6'
    } else if d == 7 {
        '7'
    } else if d == 8 {
        '8'
    } else {
        '9'
    }
}

/// The decimal digits of `n`, without leading zeros.
pub open spec fn decimal(n: nat) -> Seq<char>
    decreases n,
{
    if n < 10 {
        seq![digit_char(n as int)]
    } else {
        decimal(n / 10).push(digit_char((n % 10) as int))
    }
}

fn digit(d: usize) -> (c: char)
    requires
        d < 10,
    ensures
        c == digit_char(d as int),
{
    match d {
        0 => '0',
        1 => '1',
        2 => '2',
        3 => '3',
        4 => '4',
        5 => '5',
        6 => '6',
        7 => '7',
        8 => '8',
        _ => '9',
    }
}

/// Appends the decimal digits of `n`.
pub fn push_decimal(s: &mut String, n: usize)
    ensures
        final(s)@ == old(s)@ + decimal(n as nat),
    decreases n,
{
    if n >= 10 {
        push_decimal(s, n / 10);
    }
    push_char(s, digit(n % 10));
    proof {
        if n >= 10 {
            assert(final(s)@ =~= old(s)@ + decimal(n as nat));
        } else {
            assert(final(s)@ =~= old(s)@ + decimal(n as nat));
        }
    }
}

/// One step of a simulated game as the results file shows it: the guess, `+` where it was
/// one of the remaining solutions, and in brackets the number of solutions left after it, or
/// `*` where the game ended with it.
pub open spec fn step_text(step: (WordChars, bool, usize)) -> Seq<char> {
    seq![',', ' '] + step.0@ + (if step.1 {
        seq!['+']
    } else {
        Seq::empty()
    }) + seq!['('] + (if step.2 == 0 {
        seq!['*']
    } else {
        decimal(step.2 as nat)
    }) + seq![')']
}

/// The texts of the first `n` steps, one after the other.
pub open spec fn steps_text(steps: Seq<(WordChars, bool, usize)>, n: int) -> Seq<char>
    decreases n,
{
    if n <= 0 {
        Seq::empty()
    } else {
        steps_text(steps, n - 1) + step_text(steps[n - 1])
    }
}

/// The row of the results file for one solution: the solution, the number of guesses, and
/// the guesses, as in `CRANE, 3, SLATE(12), TRACE+(1), CRANE+(*)`.
pub open spec fn spec_result_line(solution: WordChars, steps: Seq<(WordChars, bool, usize)>) -> Seq<char> {
    solution@ + seq![',', ' '] + decimal(steps.len()) + steps_text(steps, steps.len() as int)
}

/// The row of the results file for one solution and the steps of its simulated game.
pub fn result_line(solution: &WordChars, steps: &Vec<(WordChars, bool, usize)>) -> (line: String)
    ensures
        line@ == spec_result_line(*solution, steps@),
{
    let mut line = crate::text::string_of(solution.as_slice());
    push_char(&mut line, ',');
    push_char(&mut line, ' ');
    push_decimal(&mut line, steps.len());
    let ghost head = line@;
    proof {
        assert(head =~= solution@ + seq![',', ' '] + decimal(steps@.len()));
        assert(line@ =~= head + steps_text(steps@, 0));
    }
    let mut index: usize = 0;
    while index < steps.len()
        invariant
            0 <= index <= steps@.len(),
            line@ == head + steps_text(steps@, index as int),
        decreases steps@.len() - index,
    {
        let (guess, in_sols, count) = steps[index];
        let ghost before = line@;
        push_char(&mut line, ',');
        push_char(&mut line, ' ');
        let mut k: usize = 0;
        while k < 5
            invariant
                0 <= k <= 5,
                line@ == before + seq![',', ' '] + guess@.take(k as int),
            decreases 5 - k,
        {
            push_char(&mut line, guess[k]);
            k += 1;
            proof {
                assert(line@ =~= before + seq![',', ' '] + guess@.take(k as int));
            }
        }
        proof {
            assert(guess@.take(5) =~= guess@);
        }
        if in_sols {
            push_char(&mut line, '+');
        }
        push_char(&mut line, '(');
        if count == 0 {
            push_char(&mut line, '*');
        } else {
            push_decimal(&mut line, count);
        }
        push_char(&mut line, ')');
        proof {
            assert(line@ =~= before + step_text(steps@[index as int]));
        }
        index += 1;
    }
    line
}

} // verus!
