//! The solver: the official solutions, the allowed guesses, and the solutions that remain
//! after the clues seen so far.
use vstd::prelude::*;

use crate::clue::{
    clue_part, clue_text, clues_value, feedback_value, guess_part, is_guess_clue_str, is_word,
    lemma_ascii_word, padded_guess_clue, parsed_clues, spec_clues, WordChars, WordClue,
    WORD_LENGTH,
};
use crate::text::uppercase;
use crate::wordlist::{insert_word, sorted_copy, sorted_words, strictly_sorted};

verus! {

broadcast use vstd::array::group_array_axioms;

/// Whether the solution `w` gives the clue of the guess+clue string `s` to its guess.
pub open spec fn agrees_with_clue(s: Seq<char>, w: Seq<char>) -> bool {
    feedback_value(uppercase(guess_part(s)), w) == clues_value(parsed_clues(clue_part(s)))
}

/// Whether the solution `w` agrees with every guess+clue string of `list`.
pub open spec fn agrees_with_all(list: Seq<String>, w: WordChars) -> bool {
    forall|i: int| 0 <= i < list.len() ==> agrees_with_clue(#[trigger] list[i]@, w@)
}

/// Whether `parsed` holds the guess letters and the clue of the guess+clue string `s`.
pub open spec fn parses_to(s: Seq<char>, parsed: (WordChars, WordClue)) -> bool {
    &&& parsed.0@ == uppercase(guess_part(s))
    &&& parsed.1@ == parsed_clues(clue_part(s))
}

/// Whether `w` gives `guess` the same clue as `solution` does.
pub open spec fn same_feedback(guess: WordChars, solution: WordChars, w: WordChars) -> bool {
    feedback_value(guess@, w@) == feedback_value(guess@, solution@)
}

/// The number of clue values: 3 to the power 5.
pub const NUM_CLUE_VALUES: usize = 243;

/// How many words of `ws` give `guess` the clue value `v`.
pub open spec fn feedback_count(ws: Seq<WordChars>, guess: Seq<char>, v: int) -> nat
    decreases ws.len(),
{
    if ws.len() == 0 {
        0
    } else {
        feedback_count(ws.drop_last(), guess, v) + if feedback_value(guess, ws.last()@) == v {
            1nat
        } else {
            0nat
        }
    }
}

/// The sum of a list of counts.
pub open spec fn total(counts: Seq<usize>) -> int
    decreases counts.len(),
{
    if counts.len() == 0 {
        0
    } else {
        total(counts.drop_last()) + counts.last()
    }
}

proof fn lemma_total_add_one(counts: Seq<usize>, k: int)
    requires
        0 <= k < counts.len(),
        counts[k] < usize::MAX,
    ensures
        total(counts.update(k, (counts[k] + 1) as usize)) == total(counts) + 1,
    decreases counts.len(),
{
    let updated = counts.update(k, (counts[k] + 1) as usize);
    if k < counts.len() - 1 {
        lemma_total_add_one(counts.drop_last(), k);
        assert(updated.drop_last() =~= counts.drop_last().update(k, (counts[k] + 1) as usize));
    } else {
        assert(updated.drop_last() =~= counts.drop_last());
    }
}

/// A Wordle solver.
pub struct Solver {
    verbosity: u32,
    all_solutions: Vec<WordChars>,
    filtered_sols: Vec<WordChars>,
    all_guesses: Vec<WordChars>,
}

impl Solver {
    #[verifier::type_invariant]
    spec fn well_formed(self) -> bool {
        &&& strictly_sorted(self.all_solutions@)
        &&& strictly_sorted(self.all_guesses@)
    }

    /// How much the solver reports: 0 quiet, 1 normal, 2 verbose.
    pub closed spec fn spec_verbosity(self) -> u32 {
        self.verbosity
    }

    /// The official solutions, in order.
    pub closed spec fn spec_all_solutions(self) -> Seq<WordChars> {
        self.all_solutions@
    }

    /// The remaining solutions: those that agree with every clue seen so far.
    pub closed spec fn spec_filtered_sols(self) -> Seq<WordChars> {
        self.filtered_sols@
    }

    /// The words that may be guessed, in order.
    pub closed spec fn spec_all_guesses(self) -> Seq<WordChars> {
        self.all_guesses@
    }

    /// How much the solver reports: 0 quiet, 1 normal, 2 verbose.
    pub fn verbosity(&self) -> (v: u32)
        ensures
            v == self.spec_verbosity(),
    {
        self.verbosity
    }

    /// The official solutions, in strictly increasing order.
    pub fn all_solutions(&self) -> (ws: &Vec<WordChars>)
        ensures
            ws@ == self.spec_all_solutions(),
            strictly_sorted(ws@),
    {
        proof {
            use_type_invariant(self);
        }
        &self.all_solutions
    }

    /// The remaining solutions.
    pub fn filtered_sols(&self) -> (ws: &Vec<WordChars>)
        ensures
            ws@ == self.spec_filtered_sols(),
    {
        &self.filtered_sols
    }

    /// Replaces the remaining solutions by `ws`, in its order.
    pub fn set_filtered_sols(&mut self, ws: Vec<WordChars>)
        ensures
            final(self).spec_filtered_sols() == ws@,
            final(self).spec_all_solutions() == old(self).spec_all_solutions(),
            final(self).spec_all_guesses() == old(self).spec_all_guesses(),
            final(self).spec_verbosity() == old(self).spec_verbosity(),
    {
        proof {
            use_type_invariant(&*self);
        }
        self.filtered_sols = ws;
    }

    /// Whether `w` is one of the remaining solutions.
    pub fn is_remaining(&self, w: &WordChars) -> (found: bool)
        ensures
            found == self.spec_filtered_sols().contains(*w),
    {
        let mut index: usize = 0;
        while index < self.filtered_sols.len()
            invariant
                0 <= index <= self.filtered_sols@.len(),
                forall|j: int| 0 <= j < index ==> self.filtered_sols@[j] != *w,
            decreases self.filtered_sols@.len() - index,
        {
            if words_equal(&self.filtered_sols[index], w) {
                return true;
            }
            index += 1;
        }
        false
    }

    /// The words that may be guessed, in strictly increasing order.
    pub fn all_guesses(&self) -> (ws: &Vec<WordChars>)
        ensures
            ws@ == self.spec_all_guesses(),
            strictly_sorted(ws@),
    {
        proof {
            use_type_invariant(self);
        }
        &self.all_guesses
    }

    /// Builds a solver from a list of solutions and a list of allowed guesses: the solutions
    /// are the distinct words of the first list in order, the guesses the distinct words of
    /// both lists in order, and every solution remains.
    pub fn from_word_lists(
        solution_words: &Vec<WordChars>,
        guess_words: &Vec<WordChars>,
        verbosity: u32,
    ) -> (r: Result<Self, String>)
        ensures
            r is Ok,
            r matches Ok(s) ==> {
                &&& s.spec_verbosity() == verbosity
                &&& forall|w: WordChars| #[trigger]
                    s.spec_all_solutions().contains(w) <==> solution_words@.contains(w)
                &&& forall|w: WordChars| #[trigger]
                    s.spec_all_guesses().contains(w) <==> (guess_words@.contains(w)
                        || solution_words@.contains(w))
                &&& s.spec_filtered_sols() == s.spec_all_solutions()
                &&& strictly_sorted(s.spec_all_solutions())
                &&& strictly_sorted(s.spec_all_guesses())
            },
    {
        let mut all_solutions: Vec<WordChars> = Vec::new();
        insert_words(&mut all_solutions, solution_words);
        let mut all_guesses: Vec<WordChars> = Vec::new();
        insert_words(&mut all_guesses, guess_words);
        insert_words(&mut all_guesses, &all_solutions);
        let filtered_sols = copy_words(&all_solutions);
        Ok(Self { verbosity, filtered_sols, all_solutions, all_guesses })
    }

    /// The number of remaining solutions.
    pub fn len(&self) -> (n: usize)
        ensures
            n == self.spec_filtered_sols().len(),
    {
        self.filtered_sols.len()
    }

    /// Whether no solution remains.
    pub fn is_empty(&self) -> (b: bool)
        ensures
            b == (self.spec_filtered_sols().len() == 0),
    {
        self.filtered_sols.is_empty()
    }

    /// Keeps the remaining solutions that agree with every guess+clue string of the list, and
    /// puts them in order.
    pub fn filter_by_guess_n_clue_list(&mut self, guess_n_clue_list: &[String]) -> (r: Result<
        (),
        String,
    >)
        requires
            forall|i: int|
                0 <= i < guess_n_clue_list@.len() ==> is_guess_clue_str(
                    #[trigger] guess_n_clue_list@[i]@,
                ),
        ensures
            r is Ok,
            sorted_words(final(self).spec_filtered_sols()),
            final(self).spec_filtered_sols().to_multiset() == old(self).spec_filtered_sols().filter(
                |w: WordChars| agrees_with_all(guess_n_clue_list@, w),
            ).to_multiset(),
            final(self).spec_all_solutions() == old(self).spec_all_solutions(),
            final(self).spec_all_guesses() == old(self).spec_all_guesses(),
            final(self).spec_verbosity() == old(self).spec_verbosity(),
    {
        let mut clues: Vec<(WordChars, WordClue)> = Vec::new();
        let mut index: usize = 0;
        while index < guess_n_clue_list.len()
            invariant
                0 <= index <= guess_n_clue_list@.len(),
                forall|i: int|
                    0 <= i < guess_n_clue_list@.len() ==> is_guess_clue_str(
                        #[trigger] guess_n_clue_list@[i]@,
                    ),
                clues@.len() == index,
                forall|i: int|
                    0 <= i < index ==> parses_to(guess_n_clue_list@[i]@, #[trigger] clues@[i]),
            decreases guess_n_clue_list@.len() - index,
        {
            let parsed = WordClue::new_from_guess_n_clue_str(guess_n_clue_list[index].as_str());
            clues.push(parsed);
            index += 1;
        }
        let ghost pred = |w: WordChars| agrees_with_all(guess_n_clue_list@, w);
        let ghost old_sols = self.filtered_sols@;
        let mut kept: Vec<WordChars> = Vec::new();
        let mut index: usize = 0;
        while index < self.filtered_sols.len()
            invariant
                0 <= index <= old_sols.len(),
                self.filtered_sols@ == old_sols,
                clues@.len() == guess_n_clue_list@.len(),
                forall|i: int|
                    0 <= i < clues@.len() ==> parses_to(guess_n_clue_list@[i]@, #[trigger] clues@[i]),
                pred == (|w: WordChars| agrees_with_all(guess_n_clue_list@, w)),
                kept@ == old_sols.take(index as int).filter(pred),
            decreases old_sols.len() - index,
        {
            let w = self.filtered_sols[index];
            let mut all_agree = true;
            let mut k: usize = 0;
            while k < clues.len()
                invariant
                    0 <= k <= clues@.len(),
                    clues@.len() == guess_n_clue_list@.len(),
                    forall|i: int|
                        0 <= i < clues@.len() ==> parses_to(guess_n_clue_list@[i]@, #[trigger] clues@[i]),
                    all_agree == forall|i: int| 0 <= i < k ==> agrees_with_clue(#[trigger] guess_n_clue_list@[i]@, w@),
                decreases clues@.len() - k,
            {
                let (guess_chars, word_clue) = &clues[k];
                if WordClue::calc_val_from_guess_n_solution(*guess_chars, w.as_slice()) != word_clue.val() {
                    all_agree = false;
                }
                k += 1;
            }
            proof {
                reveal(Seq::filter);
                assert(old_sols.take(index + 1).drop_last() =~= old_sols.take(index as int));
            }
            if all_agree {
                kept.push(w);
            }
            index += 1;
        }
        proof {
            assert(old_sols.take(old_sols.len() as int) =~= old_sols);
            use_type_invariant(&*self);
        }
        self.filtered_sols = sorted_copy(&kept);
        Ok(())
    }

    /// Keeps the remaining solutions that give `guess_chars` the same clue as `sol_chars` does.
    pub fn filter_by_guess_n_solution(&mut self, guess_chars: WordChars, sol_chars: WordChars) -> (r:
        Result<(), String>)
        ensures
            r is Ok,
            final(self).spec_filtered_sols() == old(self).spec_filtered_sols().filter(
                |w: WordChars| same_feedback(guess_chars, sol_chars, w),
            ),
            old(self).spec_filtered_sols().contains(sol_chars)
                ==> final(self).spec_filtered_sols().contains(sol_chars),
            final(self).spec_all_solutions() == old(self).spec_all_solutions(),
            final(self).spec_all_guesses() == old(self).spec_all_guesses(),
            final(self).spec_verbosity() == old(self).spec_verbosity(),
    {
        let sol_clue = WordClue::calc_val_from_guess_n_solution(guess_chars, sol_chars.as_slice());
        let ghost pred = |w: WordChars| same_feedback(guess_chars, sol_chars, w);
        let ghost old_sols = self.filtered_sols@;
        let mut kept: Vec<WordChars> = Vec::new();
        let mut index: usize = 0;
        while index < self.filtered_sols.len()
            invariant
                0 <= index <= old_sols.len(),
                self.filtered_sols@ == old_sols,
                sol_clue == feedback_value(guess_chars@, sol_chars@),
                pred == (|w: WordChars| same_feedback(guess_chars, sol_chars, w)),
                kept@ == old_sols.take(index as int).filter(pred),
            decreases old_sols.len() - index,
        {
            let w = self.filtered_sols[index];
            proof {
                reveal(Seq::filter);
                assert(old_sols.take(index + 1).drop_last() =~= old_sols.take(index as int));
            }
            if WordClue::calc_val_from_guess_n_solution(guess_chars, w.as_slice()) == sol_clue {
                kept.push(w);
            }
            index += 1;
        }
        proof {
            assert(old_sols.take(old_sols.len() as int) =~= old_sols);
            if old_sols.contains(sol_chars) {
                let j = choose|j: int| 0 <= j < old_sols.len() && old_sols[j] == sol_chars;
                old_sols.lemma_filter_contains(pred, j);
            }
            use_type_invariant(&*self);
        }
        self.filtered_sols = kept;
        Ok(())
    }
}


/// The start of the error for a string that is not a guess followed by a clue.
pub open spec fn invalid_guess_clue_prefix() -> Seq<char> {
    seq![
        'I', 'n', 'v', 'a', 'l', 'i', 'd', ' ', 'g', 'u', 'e', 's', 's', '+', 'c', 'l', 'u', 'e',
        ' ', 's', 't', 'r', 'i', 'n', 'g', ':', ' ',
    ]
}

/// Whether the `i`-th string of `list` is the first that is not a guess followed by a clue.
pub open spec fn first_invalid(list: Seq<String>, i: int) -> bool {
    &&& 0 <= i < list.len()
    &&& !is_guess_clue_str(list[i]@)
    &&& forall|j: int| 0 <= j < i ==> is_guess_clue_str(#[trigger] list[j]@)
}

impl Solver {
    /// Keeps the remaining solutions that agree with every guess+clue string of the list, or
    /// returns an error naming the first string that is not a guess followed by a clue, leaving
    /// the solver as it was.
    pub fn filter(&mut self, guess_n_clue_list: &[String]) -> (r: Result<(), String>)
        ensures
            r is Ok <==> forall|i: int|
                0 <= i < guess_n_clue_list@.len() ==> is_guess_clue_str(
                    #[trigger] guess_n_clue_list@[i]@,
                ),
            r is Ok ==> sorted_words(final(self).spec_filtered_sols()),
            r is Ok ==> final(self).spec_filtered_sols().to_multiset() == old(
                self,
            ).spec_filtered_sols().filter(
                |w: WordChars| agrees_with_all(guess_n_clue_list@, w),
            ).to_multiset(),
            r is Err ==> final(self).spec_filtered_sols() == old(self).spec_filtered_sols(),
            r matches Err(m) ==> exists|i: int|
                first_invalid(guess_n_clue_list@, i) && m@ == invalid_guess_clue_prefix()
                    + guess_n_clue_list@[i]@,
            final(self).spec_all_solutions() == old(self).spec_all_solutions(),
            final(self).spec_all_guesses() == old(self).spec_all_guesses(),
            final(self).spec_verbosity() == old(self).spec_verbosity(),
    {
        let mut index: usize = 0;
        while index < guess_n_clue_list.len()
            invariant
                0 <= index <= guess_n_clue_list@.len(),
                forall|i: int|
                    0 <= i < index ==> is_guess_clue_str(#[trigger] guess_n_clue_list@[i]@),
            decreases guess_n_clue_list@.len() - index,
        {
            let s = guess_n_clue_list[index].as_str();
            if WordClue::try_new_from_guess_n_clue_str(s).is_none() {
                let mut message = String::from_str("Invalid guess+clue string: ");
                proof {
                    reveal_strlit("Invalid guess+clue string: ");
                    assert(first_invalid(guess_n_clue_list@, index as int));
                }
                message.append(s);
                proof {
                    assert(message@ =~= invalid_guess_clue_prefix() + guess_n_clue_list@[index as int]@);
                }
                return Err(message);
            }
            index += 1;
        }
        self.filter_by_guess_n_clue_list(guess_n_clue_list)
    }

    /// For each clue value `v` below 243, how many remaining solutions give `guess_chars` the
    /// clue `v`; the counts add up to the number of remaining solutions.
    pub fn feedback_counts(&self, guess_chars: WordChars) -> (counts: Vec<usize>)
        ensures
            counts@.len() == NUM_CLUE_VALUES,
            forall|v: int|
                0 <= v < NUM_CLUE_VALUES ==> #[trigger] counts@[v] == feedback_count(
                    self.spec_filtered_sols(),
                    guess_chars@,
                    v,
                ),
            total(counts@) == self.spec_filtered_sols().len(),
    {
        let mut counts: Vec<usize> = Vec::new();
        while counts.len() < NUM_CLUE_VALUES
            invariant
                counts@.len() <= NUM_CLUE_VALUES,
                forall|v: int| 0 <= v < counts@.len() ==> #[trigger] counts@[v] == 0,
                total(counts@) == 0,
            decreases NUM_CLUE_VALUES - counts@.len(),
        {
            let ghost prev = counts@;
            counts.push(0);
            proof {
                assert(counts@.drop_last() =~= prev);
            }
        }
        let ghost ws = self.filtered_sols@;
        let mut index: usize = 0;
        while index < self.filtered_sols.len()
            invariant
                0 <= index <= ws.len(),
                self.filtered_sols@ == ws,
                ws == self.spec_filtered_sols(),
                counts@.len() == NUM_CLUE_VALUES,
                forall|v: int|
                    0 <= v < NUM_CLUE_VALUES ==> #[trigger] counts@[v] == feedback_count(
                        ws.take(index as int),
                        guess_chars@,
                        v,
                    ),
                forall|v: int| 0 <= v < NUM_CLUE_VALUES ==> #[trigger] counts@[v] <= index,
                total(counts@) == index,
            decreases ws.len() - index,
        {
            let value = WordClue::calc_val_from_guess_n_solution(guess_chars, self.filtered_sols[index].as_slice());
            proof {
                crate::clue::lemma_feedback_value_bound(guess_chars@, ws[index as int]@);
                lemma_total_add_one(counts@, value as int);
                assert(ws.take(index + 1).drop_last() =~= ws.take(index as int));
            }
            let bumped = counts[value] + 1;
            counts.set(value, bumped);
            index += 1;
        }
        proof {
            assert(ws.take(ws.len() as int) =~= ws);
        }
        counts
    }
}

/// The number of guesses after which a simulated game stops.
pub const MAX_SIMULATED_GUESSES: usize = 7;

impl Solver {
    /// Makes every official solution remain again, as at the start of a game.
    pub fn reset_filtered_sols(&mut self)
        ensures
            final(self).spec_filtered_sols() == old(self).spec_all_solutions(),
            final(self).spec_all_solutions() == old(self).spec_all_solutions(),
            final(self).spec_all_guesses() == old(self).spec_all_guesses(),
            final(self).spec_verbosity() == old(self).spec_verbosity(),
    {
        proof {
            use_type_invariant(&*self);
        }
        self.filtered_sols = copy_words(&self.all_solutions);
    }

    /// Whether a simulated game goes on after `guesses_made` guesses: while more than one
    /// solution remains and fewer than `MAX_SIMULATED_GUESSES` guesses were made.
    pub fn simulation_continues(&self, guesses_made: usize) -> (r: bool)
        ensures
            r == (self.spec_filtered_sols().len() > 1 && guesses_made < MAX_SIMULATED_GUESSES),
    {
        self.filtered_sols.len() > 1 && guesses_made < MAX_SIMULATED_GUESSES
    }

    /// The guess that ends a simulated game after `last_guess`: the first remaining solution,
    /// where it is not `last_guess`.
    pub fn final_guess(&self, last_guess: WordChars) -> (r: Option<WordChars>)
        requires
            self.spec_filtered_sols().len() > 0,
        ensures
            r == if self.spec_filtered_sols()[0] == last_guess {
                None
            } else {
                Some(self.spec_filtered_sols()[0])
            },
    {
        let first = self.filtered_sols[0];
        if words_equal(&first, &last_guess) {
            None
        } else {
            Some(first)
        }
    }
}

/// The error of a best-guess search with no solution left.
pub open spec fn no_solutions_message() -> Seq<char> {
    seq![
        'N', 'o', ' ', 's', 'o', 'l', 'u', 't', 'i', 'o', 'n', 's', ' ', 'l', 'e', 'f', 't', ' ',
        't', 'o', ' ', 'g', 'u', 'e', 's', 's', ' ', 'f', 'r', 'o', 'm',
    ]
}

impl Solver {
    /// How a search for the best guess starts: an error where no solution remains, the one
    /// remaining solution where only one does, and `None` where the guesses must be ranked.
    pub fn search_start(&self) -> (r: Result<Option<WordChars>, String>)
        ensures
            self.spec_filtered_sols().len() == 0 <==> r is Err,
            r matches Err(m) ==> m@ == no_solutions_message(),
            self.spec_filtered_sols().len() == 1 ==> r == Ok::<Option<WordChars>, String>(
                Some(self.spec_filtered_sols()[0]),
            ),
            self.spec_filtered_sols().len() > 1 ==> r == Ok::<Option<WordChars>, String>(None),
    {
        let n = self.filtered_sols.len();
        if n == 0 {
            let message = String::from_str("No solutions left to guess from");
            proof {
                reveal_strlit("No solutions left to guess from");
            }
            return Err(message);
        }
        if n == 1 {
            return Ok(Some(self.filtered_sols[0]));
        }
        Ok(None)
    }

    /// The words that a search for the best guess goes through: the remaining solutions in hard
    /// mode, else every allowed guess; last first where `reverse` holds.
    pub fn guess_list(&self, hard_mode: bool, reverse: bool) -> (ws: Vec<WordChars>)
        ensures
            ({
                let base = if hard_mode {
                    self.spec_filtered_sols()
                } else {
                    self.spec_all_guesses()
                };
                ws@ == if reverse {
                    base.reverse()
                } else {
                    base
                }
            }),
    {
        let base = if hard_mode {
            &self.filtered_sols
        } else {
            &self.all_guesses
        };
        if !reverse {
            return copy_words(base);
        }
        let n = base.len();
        let mut ws: Vec<WordChars> = Vec::new();
        let mut index: usize = 0;
        while index < n
            invariant
                0 <= index <= n,
                n == base@.len(),
                ws@.len() == index,
                forall|i: int| 0 <= i < index ==> #[trigger] ws@[i] == base@[n - 1 - i],
            decreases n - index,
        {
            ws.push(base[n - 1 - index]);
            index += 1;
        }
        proof {
            assert(ws@ =~= base@.reverse());
        }
        ws
    }
}

/// Whether two words have the same letters.
pub fn words_equal(a: &WordChars, b: &WordChars) -> (r: bool)
    ensures
        r == (*a == *b),
{
    let r = a[0] == b[0] && a[1] == b[1] && a[2] == b[2] && a[3] == b[3] && a[4] == b[4];
    proof {
        if r {
            assert(*a =~= *b);
        }
    }
    r
}

/// A word as a string, followed by `+` where `in_sols` holds.
pub fn word_label(word_chars: &WordChars, in_sols: bool) -> (s: String)
    ensures
        s@ == word_chars@ + if in_sols {
            seq!['+']
        } else {
            Seq::<char>::empty()
        },
{
    let mut out = crate::text::string_of(word_chars.as_slice());
    if in_sols {
        crate::text::push_char(&mut out, '+');
    } else {
        proof {
            assert(out@ =~= word_chars@ + Seq::<char>::empty());
        }
    }
    out
}

/// The upper-cased letters of each word of the list, or `None` where one of them is not a word.
pub fn make_words(words: &Vec<String>) -> (r: Option<Vec<WordChars>>)
    ensures
        r is Some <==> forall|i: int| 0 <= i < words@.len() ==> is_word(#[trigger] words@[i]@),
        r matches Some(ws) ==> ws@.len() == words@.len() && forall|i: int|
            0 <= i < words@.len() ==> #[trigger] ws@[i]@ == uppercase(words@[i]@),
{
    let mut ws: Vec<WordChars> = Vec::new();
    let mut index: usize = 0;
    while index < words.len()
        invariant
            0 <= index <= words@.len(),
            ws@.len() == index,
            forall|i: int| 0 <= i < index ==> is_word(#[trigger] words@[i]@),
            forall|i: int| 0 <= i < index ==> #[trigger] ws@[i]@ == uppercase(words@[i]@),
        decreases words@.len() - index,
    {
        match WordClue::try_make_word_chars(words[index].as_str()) {
            Some(w) => ws.push(w),
            None => return None,
        }
        index += 1;
    }
    Some(ws)
}

/// Adds the words of `words` to the strictly sorted list `ws`.
fn insert_words(ws: &mut Vec<WordChars>, words: &Vec<WordChars>)
    requires
        strictly_sorted(old(ws)@),
    ensures
        strictly_sorted(final(ws)@),
        forall|x: WordChars| #[trigger] final(ws)@.contains(x) <==> (old(ws)@.contains(x) || words@.contains(x)),
{
    let ghost start = ws@;
    let mut index: usize = 0;
    while index < words.len()
        invariant
            0 <= index <= words@.len(),
            strictly_sorted(ws@),
            forall|x: WordChars| #[trigger] ws@.contains(x) <==> (start.contains(x) || words@.take(index as int).contains(x)),
        decreases words@.len() - index,
    {
        insert_word(ws, words[index]);
        proof {
            let t0 = words@.take(index as int);
            let t1 = words@.take(index + 1);
            assert forall|x: WordChars| t1.contains(x) <==> (t0.contains(x) || x == words@[index as int]) by {
                if t1.contains(x) && x != words@[index as int] {
                    let j = choose|j: int| 0 <= j < t1.len() && t1[j] == x;
                    assert(t0[j] == x);
                }
                if t0.contains(x) {
                    let j = choose|j: int| 0 <= j < t0.len() && t0[j] == x;
                    assert(t1[j] == x);
                }
                if x == words@[index as int] {
                    assert(t1[index as int] == x);
                }
            }
        }
        index += 1;
    }
    proof {
        assert(words@.take(words@.len() as int) =~= words@);
    }
}

/// A copy of a list of words.
fn copy_words(ws: &Vec<WordChars>) -> (copy: Vec<WordChars>)
    ensures
        copy@ == ws@,
{
    let mut copy: Vec<WordChars> = Vec::new();
    let mut index: usize = 0;
    while index < ws.len()
        invariant
            0 <= index <= ws@.len(),
            copy@ == ws@.take(index as int),
        decreases ws@.len() - index,
    {
        copy.push(ws[index]);
        index += 1;
        proof {
            assert(copy@ =~= ws@.take(index as int));
        }
    }
    proof {
        assert(ws@.take(ws@.len() as int) =~= ws@);
    }
    copy
}

} // verus!

verus! {

/// A path with every leading `./` removed, as `str::trim_start_matches("./")` does.
pub open spec fn trim_dot_slash(s: Seq<char>) -> Seq<char>
    decreases s.len(),
{
    if s.len() >= 2 && s[0] == '.' && s[1] == '/' {
        trim_dot_slash(s.skip(2))
    } else {
        s
    }
}

/// Where a default data file is looked for: the name itself where a file of that name exists,
/// else the name without its leading `./` in the parent directory.
pub fn resolve_default_path(file_name: &str, file_exists: bool) -> (path: String)
    ensures
        path@ == if file_exists {
            file_name@
        } else {
            seq!['.', '.', '/'] + trim_dot_slash(file_name@)
        },
{
    if file_exists {
        return String::from_str(file_name);
    }
    let n = file_name.unicode_len();
    let mut start: usize = 0;
    proof {
        assert(file_name@.skip(0) =~= file_name@);
    }
    while n - start >= 2 && file_name.get_char(start) == '.' && file_name.get_char(start + 1) == '/'
        invariant
            0 <= start <= n,
            n == file_name@.len(),
            trim_dot_slash(file_name@.skip(start as int)) == trim_dot_slash(file_name@),
        decreases n - start,
    {
        proof {
            assert(file_name@.skip(start as int).skip(2) =~= file_name@.skip(start + 2));
        }
        start = start + 2;
    }
    let rest = file_name.substring_char(start, n);
    proof {
        assert(rest@ =~= file_name@.skip(start as int));
    }
    let mut path = String::from_str("../");
    proof {
        reveal_strlit("../");
    }
    path.append(rest);
    path
}

} // verus!

verus! {

/// The count of a clue value is the number of remaining solutions that filtering by a
/// solution with that clue keeps: the counts behind a guess's entropy are the sizes of the
/// lists it can leave.
pub proof fn lemma_count_is_filtered_len(ws: Seq<WordChars>, guess: WordChars, solution: WordChars)
    ensures
        feedback_count(ws, guess@, feedback_value(guess@, solution@) as int) == ws.filter(
            |w: WordChars| same_feedback(guess, solution, w),
        ).len(),
    decreases ws.len(),
{
    reveal(Seq::filter);
    if ws.len() > 0 {
        lemma_count_is_filtered_len(ws.drop_last(), guess, solution);
    }
}

/// A guess of five upper-case ASCII letters followed by the clue string of its clue against a
/// solution is a guess+clue string that reads back as that guess and that clue, and the
/// solution agrees with it: a solution is never ruled out by the clue it gives.
pub proof fn lemma_solution_agrees_with_its_clue(guess: Seq<char>, sol: Seq<char>)
    requires
        guess.len() == WORD_LENGTH,
        sol.len() == WORD_LENGTH,
        forall|i: int| 0 <= i < WORD_LENGTH ==> 'A' <= #[trigger] guess[i] && guess[i] <= 'Z',
    ensures
        ({
            let s = guess + clue_text(spec_clues(guess, sol));
            &&& is_guess_clue_str(s)
            &&& uppercase(guess_part(s)) == guess
            &&& parsed_clues(clue_part(s)) == spec_clues(guess, sol)
            &&& agrees_with_clue(s, sol)
        }),
{
    let clues = spec_clues(guess, sol);
    let t = clue_text(clues);
    let s = guess + t;
    assert forall|i: int| 0 <= i < WORD_LENGTH implies crate::text::ascii_letter(#[trigger] guess[i]) by {}
    lemma_ascii_word(guess);
    assert(uppercase(guess) =~= guess);
    assert forall|i: int| 0 <= i < WORD_LENGTH implies t[i] == 'g' || t[i] == 'y' || t[i] == '_' by {}
    assert(vstd::utf8::is_ascii_chars(guess));
    assert(vstd::utf8::is_ascii_chars(t));
    assert(vstd::utf8::is_ascii_chars(s));
    vstd::utf8::is_ascii_chars_encode_utf8(guess);
    vstd::utf8::is_ascii_chars_encode_utf8(t);
    vstd::utf8::is_ascii_chars_encode_utf8(s);
    assert(padded_guess_clue(s) =~= s);
    let bytes = vstd::utf8::encode_utf8(s);
    vstd::utf8::encode_utf8_valid_utf8(s);
    assert(bytes[5] == s[5] as u8);
    vstd::utf8::is_char_boundary_iff_not_is_continuation_byte(bytes, 5);
    assert(bytes.subrange(0, 5) =~= vstd::utf8::encode_utf8(guess));
    assert(bytes.subrange(5, 10) =~= vstd::utf8::encode_utf8(t));
    vstd::utf8::encode_utf8_decode_utf8(guess);
    vstd::utf8::encode_utf8_decode_utf8(t);
    assert(guess_part(s) == guess);
    assert(clue_part(s) == t);
    assert(crate::text::lowercase(t) =~= t);
    assert(parsed_clues(t) =~= clues);
}

proof fn lemma_filter_filter(s: Seq<WordChars>, p: spec_fn(WordChars) -> bool, q: spec_fn(WordChars) -> bool)
    ensures
        s.filter(p).filter(q) == s.filter(|w: WordChars| p(w) && q(w)),
    decreases s.len(),
{
    reveal(Seq::filter);
    let pq = |w: WordChars| p(w) && q(w);
    if s.len() > 0 {
        lemma_filter_filter(s.drop_last(), p, q);
        let sp = s.drop_last().filter(p);
        if p(s.last()) {
            assert(s.filter(p) == sp.push(s.last()));
            assert(sp.push(s.last()).drop_last() =~= sp);
        }
    } else {
        assert(s.filter(p).filter(q) =~= s.filter(pq));
    }
}

/// Applying one list of clues and then another keeps the same solutions as applying both
/// lists together; so clues may be applied one at a time or all at once.
pub proof fn lemma_clue_lists_compose(sols: Seq<WordChars>, first: Seq<String>, second: Seq<String>)
    ensures
        sols.filter(|w: WordChars| agrees_with_all(first, w)).filter(
            |w: WordChars| agrees_with_all(second, w),
        ) == sols.filter(|w: WordChars| agrees_with_all(first + second, w)),
{
    let p = |w: WordChars| agrees_with_all(first, w);
    let q = |w: WordChars| agrees_with_all(second, w);
    let both = |w: WordChars| agrees_with_all(first + second, w);
    lemma_filter_filter(sols, p, q);
    assert forall|w: WordChars| #[trigger] both(w) == (p(w) && q(w)) by {
        let all = first + second;
        if p(w) && q(w) {
            assert forall|i: int| 0 <= i < all.len() implies agrees_with_clue(#[trigger] all[i]@, w@) by {
                if i < first.len() {
                    assert(all[i] == first[i]);
                } else {
                    assert(all[i] == second[i - first.len()]);
                }
            }
        }
        if both(w) {
            assert forall|i: int| 0 <= i < first.len() implies agrees_with_clue(#[trigger] first[i]@, w@) by {
                assert(all[i] == first[i]);
            }
            assert forall|i: int| 0 <= i < second.len() implies agrees_with_clue(#[trigger] second[i]@, w@) by {
                assert(all[i + first.len()] == second[i]);
            }
        }
    }
    assert((|w: WordChars| p(w) && q(w)) =~= both);
}

} // verus!
