//! Scoring of candidate first guesses: for each guess the solutions that would remain after
//! it, summed over the possible solutions, and the comparison of two candidates.
use vstd::prelude::*;

use crate::clue::WordClue;

verus! {

/// One possible outcome of a guess: the word guessed, its clue, and the solutions that would
/// remain.
#[derive(Clone, Debug, PartialEq, Eq)]
pub struct Guess {
    pub maybe_sol: String,
    pub is_in_remaining_sol_set: bool,
    pub hint: WordClue,
    pub remaining_sol_set: Vec<String>,
    pub remaining_cnt: usize,
}

/// Whether one of `words` has the characters `w`.
pub open spec fn holds_string(words: Seq<String>, w: Seq<char>) -> bool {
    exists|i: int| 0 <= i < words.len() && (#[trigger] words[i])@ == w
}

impl Guess {
    /// Records an outcome; it notes whether the guess is one of the remaining solutions and
    /// how many there are.
    pub fn new(maybe_sol: String, hint: WordClue, remaining_sol_set: Vec<String>) -> (r: Self)
        ensures
            r.maybe_sol == maybe_sol,
            r.hint == hint,
            r.remaining_sol_set == remaining_sol_set,
            r.is_in_remaining_sol_set == holds_string(remaining_sol_set@, maybe_sol@),
            r.remaining_cnt == remaining_sol_set@.len(),
    {
        let mut is_in_remaining_sol_set = false;
        let mut index: usize = 0;
        while index < remaining_sol_set.len()
            invariant
                0 <= index <= remaining_sol_set@.len(),
                is_in_remaining_sol_set == exists|i: int|
                    0 <= i < index && (#[trigger] remaining_sol_set@[i])@ == maybe_sol@,
            decreases remaining_sol_set@.len() - index,
        {
            if remaining_sol_set[index] == maybe_sol {
                is_in_remaining_sol_set = true;
            }
            index += 1;
        }
        let remaining_cnt = remaining_sol_set.len();
        Self { maybe_sol, is_in_remaining_sol_set, hint, remaining_sol_set, remaining_cnt }
    }
}

} // verus!

verus! {

/// Why one candidate first guess is preferred to another.
#[derive(Clone, Copy, Debug, PartialEq, Eq, Structural)]
pub enum Preference {
    /// It leaves fewer solutions to guess.
    FewerRemaining,
    /// Tied, and it is one of the remaining solutions while the other is not.
    TiedRemainingSolution,
    /// Tied, and it is one of the official solutions while the other is not.
    TiedOfficialSolution,
}

/// A candidate first guess and its outcomes over all solutions.
#[derive(Clone, Debug, PartialEq)]
pub struct GuessSet {
    pub guess_str: String,
    pub is_in_tot_sol_set: bool,
    pub is_in_remaining_sol_set: bool,
    pub guesses: Vec<Guess>,
    pub num_sols: usize,
    /// Twice the number of solutions left to guess, summed over the outcomes added so far:
    /// an outcome that leaves `n > 0` solutions adds `n + 1`. `None` before any outcome is
    /// added, which ranks behind every count.
    pub remaining_halves: Option<u128>,
}

/// Whether the count `a` is below the count `b`, `None` ranking behind every count.
pub open spec fn count_below(a: Option<u128>, b: Option<u128>) -> bool {
    match (a, b) {
        (Some(x), Some(y)) => x < y,
        (Some(_), None) => true,
        _ => false,
    }
}

/// Why `a` is preferred to `b`, if it is: it leaves fewer solutions; or, tied with a
/// different word, it is a remaining solution and `b` is not, or else it is an official
/// solution and `b` is not.
pub open spec fn spec_preference(a: GuessSet, b: GuessSet) -> Option<Preference> {
    if count_below(a.remaining_halves, b.remaining_halves) {
        Some(Preference::FewerRemaining)
    } else if a.guess_str@ != b.guess_str@ && a.remaining_halves == b.remaining_halves {
        if a.is_in_remaining_sol_set && !b.is_in_remaining_sol_set {
            Some(Preference::TiedRemainingSolution)
        } else if a.is_in_tot_sol_set && !b.is_in_tot_sol_set {
            Some(Preference::TiedOfficialSolution)
        } else {
            None
        }
    } else {
        None
    }
}

/// What an outcome that leaves `n` solutions adds to the doubled count.
pub open spec fn outcome_halves(n: nat) -> nat {
    if n > 0 {
        n + 1
    } else {
        0
    }
}

impl GuessSet {
    /// A candidate with no outcome yet.
    pub fn new(
        guess_str: String,
        num_sols: usize,
        is_in_tot_sol_set: bool,
        is_in_remaining_sol_set: bool,
    ) -> (r: Self)
        ensures
            r.guess_str == guess_str,
            r.num_sols == num_sols,
            r.is_in_tot_sol_set == is_in_tot_sol_set,
            r.is_in_remaining_sol_set == is_in_remaining_sol_set,
            r.guesses@.len() == 0,
            r.remaining_halves is None,
    {
        Self {
            guess_str,
            is_in_tot_sol_set,
            is_in_remaining_sol_set,
            guesses: Vec::new(),
            num_sols,
            remaining_halves: None,
        }
    }

    /// Adds an outcome and its count: `n + 1` halves where it leaves `n > 0` solutions.
    pub fn add_guess(&mut self, guess: Guess)
        requires
            (match old(self).remaining_halves {
                Some(h) => h as int,
                None => 0int,
            }) + outcome_halves(guess.remaining_sol_set@.len()) <= u128::MAX,
        ensures
            final(self).guesses@ == old(self).guesses@.push(guess),
            final(self).remaining_halves == Some(
                ((match old(self).remaining_halves {
                    Some(h) => h as int,
                    None => 0int,
                }) + outcome_halves(guess.remaining_sol_set@.len())) as u128,
            ),
            final(self).guess_str == old(self).guess_str,
            final(self).num_sols == old(self).num_sols,
            final(self).is_in_tot_sol_set == old(self).is_in_tot_sol_set,
            final(self).is_in_remaining_sol_set == old(self).is_in_remaining_sol_set,
    {
        let new_sols = guess.remaining_sol_set.len();
        self.guesses.push(guess);
        let mut halves: u128 = match self.remaining_halves {
            Some(h) => h,
            None => 0,
        };
        if new_sols > 0 {
            halves = halves + new_sols as u128 + 1;
        }
        self.remaining_halves = Some(halves);
    }

    /// Why this candidate is preferred to `other`, or `None` where it is not.
    pub fn preference_over(&self, other: &Self) -> (r: Option<Preference>)
        ensures
            r == spec_preference(*self, *other),
    {
        let fewer = match (self.remaining_halves, other.remaining_halves) {
            (Some(x), Some(y)) => x < y,
            (Some(_), None) => true,
            _ => false,
        };
        if fewer {
            return Some(Preference::FewerRemaining);
        }
        let same_count = match (self.remaining_halves, other.remaining_halves) {
            (Some(x), Some(y)) => x == y,
            (None, None) => true,
            _ => false,
        };
        let same_word = self.guess_str == other.guess_str;
        if !same_word && same_count {
            if self.is_in_remaining_sol_set && !other.is_in_remaining_sol_set {
                return Some(Preference::TiedRemainingSolution);
            }
            if self.is_in_tot_sol_set && !other.is_in_tot_sol_set {
                return Some(Preference::TiedOfficialSolution);
            }
        }
        None
    }

    /// Whether this candidate is preferred to `other`.
    pub fn is_better_than(&self, other: &Self) -> (r: bool)
        ensures
            r == spec_preference(*self, *other) is Some,
    {
        self.preference_over(other).is_some()
    }

    /// The guess followed by `+` where it is a remaining solution, nothing where it is an
    /// official solution, and `*` else.
    pub fn to_string(&self) -> (s: String)
        ensures
            s@ == self.guess_str@ + if self.is_in_remaining_sol_set {
                seq!['+']
            } else if self.is_in_tot_sol_set {
                Seq::<char>::empty()
            } else {
                seq!['*']
            },
    {
        let mut out = String::from_str(self.guess_str.as_str());
        if self.is_in_remaining_sol_set {
            out.append("+");
            proof {
                reveal_strlit("+");
            }
        } else if !self.is_in_tot_sol_set {
            out.append("*");
            proof {
                reveal_strlit("*");
            }
        } else {
            proof {
                assert(out@ =~= self.guess_str@ + Seq::<char>::empty());
            }
        }
        out
    }
}

/// No candidate is preferred to itself.
pub proof fn lemma_not_better_than_itself(a: GuessSet)
    ensures
        spec_preference(a, a) is None,
{
}

/// Of two candidates that are official solutions whenever they are remaining solutions, at
/// most one is preferred to the other.
pub proof fn lemma_preference_asymmetric(a: GuessSet, b: GuessSet)
    requires
        a.is_in_remaining_sol_set ==> a.is_in_tot_sol_set,
        b.is_in_remaining_sol_set ==> b.is_in_tot_sol_set,
        spec_preference(a, b) is Some,
    ensures
        spec_preference(b, a) is None,
{
}

} // verus!
