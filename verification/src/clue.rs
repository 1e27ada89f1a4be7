//! Wordle feedback: the colour of each tile of a guess against a solution, its base-3 value,
//! and the parsing of guesses and clue strings.
use vstd::prelude::*;
use vstd::utf8::{decode_utf8, encode_utf8, is_char_boundary};

use crate::text::{
    alphabetic, ascii_letter, ascii_upper, char_is_alphabetic, lowercase, str_to_lowercase,
    str_to_uppercase, uppercase,
};

verus! {

/// Number of letters in a word.
pub const WORD_LENGTH: usize = 5;

/// The letters of a word.
pub type WordChars = [char; WORD_LENGTH];

/// A clue value: the base-3 number formed by the tile weights, between 0 and 242.
pub type WordClueVal = usize;

/// The colour of one tile.
#[derive(Clone, Copy, Debug, PartialEq, Eq, Structural)]
pub enum SingleClue {
    Green,
    Yellow,
    Gray,
}

impl SingleClue {
    /// Weight of the tile in the base-3 clue value.
    pub open spec fn weight(self) -> nat {
        match self {
            SingleClue::Green => 2,
            SingleClue::Yellow => 1,
            SingleClue::Gray => 0,
        }
    }

    /// The character that shows this tile in a clue string.
    pub open spec fn spec_char(self) -> char {
        match self {
            SingleClue::Green => 'g',
            SingleClue::Yellow => 'y',
            SingleClue::Gray => '_',
        }
    }

    /// The character that shows this tile in a clue string: `g`, `y` or `_`.
    pub fn clue_char(self) -> (c: char)
        ensures
            c == self.spec_char(),
    {
        match self {
            SingleClue::Green => 'g',
            SingleClue::Yellow => 'y',
            SingleClue::Gray => '_',
        }
    }

    /// This tile as a one-character clue string.
    pub fn to_string(self) -> (s: String)
        ensures
            s@ == seq![self.spec_char()],
    {
        match self {
            SingleClue::Green => {
                let s = String::from_str("g");
                proof {
                    reveal_strlit("g");
                }
                s
            },
            SingleClue::Yellow => {
                let s = String::from_str("y");
                proof {
                    reveal_strlit("y");
                }
                s
            },
            SingleClue::Gray => {
                let s = String::from_str("_");
                proof {
                    reveal_strlit("_");
                }
                s
            },
        }
    }

    /// The weight of this tile as a number.
    pub fn value(self) -> (v: usize)
        ensures
            v == self.weight(),
    {
        match self {
            SingleClue::Green => 2,
            SingleClue::Yellow => 1,
            SingleClue::Gray => 0,
        }
    }
}

/// Occurrences of `c` at positions `0..n` of the guess that are not green.
pub open spec fn nongreen_guess_count(guess: Seq<char>, sol: Seq<char>, c: char, n: int) -> nat
    decreases n,
{
    if n <= 0 {
        0
    } else {
        nongreen_guess_count(guess, sol, c, n - 1) + if guess[n - 1] == c && guess[n - 1]
            != sol[n - 1] {
            1nat
        } else {
            0nat
        }
    }
}

/// Occurrences of `c` at positions `0..n` of the solution that are not green.
pub open spec fn nongreen_solution_count(guess: Seq<char>, sol: Seq<char>, c: char, n: int) -> nat
    decreases n,
{
    if n <= 0 {
        0
    } else {
        nongreen_solution_count(guess, sol, c, n - 1) + if sol[n - 1] == c && guess[n - 1]
            != sol[n - 1] {
            1nat
        } else {
            0nat
        }
    }
}

/// The tile at position `i`: green where the letters agree; otherwise yellow when this is
/// one of the first k non-green occurrences of the letter in the guess, k being the number
/// of non-green occurrences of that letter in the solution; gray else.
pub open spec fn spec_clue(guess: Seq<char>, sol: Seq<char>, i: int) -> SingleClue {
    if guess[i] == sol[i] {
        SingleClue::Green
    } else if nongreen_guess_count(guess, sol, guess[i], i + 1) <= nongreen_solution_count(
        guess,
        sol,
        guess[i],
        WORD_LENGTH as int,
    ) {
        SingleClue::Yellow
    } else {
        SingleClue::Gray
    }
}

/// The tiles of a guess against a solution.
pub open spec fn spec_clues(guess: Seq<char>, sol: Seq<char>) -> Seq<SingleClue> {
    Seq::new(WORD_LENGTH as nat, |i: int| spec_clue(guess, sol, i))
}

/// The base-3 value of a sequence of tiles, the first tile being the most significant digit.
pub open spec fn clues_value(clues: Seq<SingleClue>) -> nat
    decreases clues.len(),
{
    if clues.len() == 0 {
        0
    } else {
        clues_value(clues.drop_last()) * 3 + clues.last().weight()
    }
}

/// The clue value of a guess against a solution.
pub open spec fn feedback_value(guess: Seq<char>, sol: Seq<char>) -> nat {
    clues_value(spec_clues(guess, sol))
}

/// Positions `p < n` still available for a yellow tile whose solution letter is `c`.
spec fn available_count(remaining: Seq<bool>, sol: Seq<char>, c: char, n: int) -> nat
    decreases n,
{
    if n <= 0 {
        0
    } else {
        available_count(remaining, sol, c, n - 1) + if remaining[n - 1] && sol[n - 1] == c {
            1nat
        } else {
            0nat
        }
    }
}

proof fn lemma_available_update(remaining: Seq<bool>, sol: Seq<char>, c: char, n: int, p: int)
    requires
        0 <= p < remaining.len(),
        n <= remaining.len(),
    ensures
        available_count(remaining.update(p, false), sol, c, n) == available_count(
            remaining,
            sol,
            c,
            n,
        ) - if p < n && remaining[p] && sol[p] == c {
            1int
        } else {
            0int
        },
    decreases n,
{
    if n > 0 {
        lemma_available_update(remaining, sol, c, n - 1, p);
    }
}

proof fn lemma_available_none(remaining: Seq<bool>, sol: Seq<char>, c: char, n: int)
    requires
        forall|p: int| 0 <= p < n ==> !(remaining[p] && sol[p] == c),
    ensures
        available_count(remaining, sol, c, n) == 0,
    decreases n,
{
    if n > 0 {
        lemma_available_none(remaining, sol, c, n - 1);
    }
}

proof fn lemma_available_some(remaining: Seq<bool>, sol: Seq<char>, c: char, n: int, p: int)
    requires
        0 <= p < n,
        remaining[p] && sol[p] == c,
    ensures
        available_count(remaining, sol, c, n) >= 1,
    decreases n,
{
    if n - 1 != p {
        lemma_available_some(remaining, sol, c, n - 1, p);
    }
}

proof fn lemma_available_initial(remaining: Seq<bool>, guess: Seq<char>, sol: Seq<char>, c: char, n: int)
    requires
        forall|p: int| 0 <= p < n ==> remaining[p] == (guess[p] != sol[p]),
    ensures
        available_count(remaining, sol, c, n) == nongreen_solution_count(guess, sol, c, n),
    decreases n,
{
    if n > 0 {
        lemma_available_initial(remaining, guess, sol, c, n - 1);
    }
}

spec fn min_nat(a: nat, b: nat) -> nat {
    if a <= b {
        a
    } else {
        b
    }
}

/// Computes the tiles of `guess` against the first five letters of `solution`: first the
/// green tiles, then, from left to right, a yellow tile for each guess letter that still
/// finds an unused equal letter in the solution.
fn compute_clues(guess: &WordChars, solution: &[char]) -> (clues: [SingleClue; WORD_LENGTH])
    requires
        solution@.len() >= WORD_LENGTH,
    ensures
        clues@ == spec_clues(guess@, solution@),
{
    let ghost g = guess@;
    let ghost s = solution@;
    let mut clues = [SingleClue::Gray;WORD_LENGTH];
    let mut remaining = [true;WORD_LENGTH];
    let mut index: usize = 0;
    while index < WORD_LENGTH
        invariant
            0 <= index <= WORD_LENGTH,
            g == guess@,
            s == solution@,
            s.len() >= WORD_LENGTH,
            forall|j: int|
                0 <= j < index ==> clues@[j] == (if g[j] == s[j] {
                    SingleClue::Green
                } else {
                    SingleClue::Gray
                }),
            forall|j: int| 0 <= j < index ==> remaining@[j] == (g[j] != s[j]),
            forall|j: int| index <= j < WORD_LENGTH ==> clues@[j] == SingleClue::Gray,
            forall|j: int| index <= j < WORD_LENGTH ==> remaining@[j],
        decreases WORD_LENGTH - index,
    {
        if guess[index] == solution[index] {
            clues[index] = SingleClue::Green;
            remaining[index] = false;
        }
        index += 1;
    }
    proof {
        assert forall|c: char|
            available_count(remaining@, s, c, WORD_LENGTH as int) == nongreen_solution_count(
                g,
                s,
                c,
                WORD_LENGTH as int,
            ) by {
            lemma_available_initial(remaining@, g, s, c, WORD_LENGTH as int);
        }
    }
    let mut index: usize = 0;
    while index < WORD_LENGTH
        invariant
            0 <= index <= WORD_LENGTH,
            g == guess@,
            s == solution@,
            s.len() >= WORD_LENGTH,
            forall|j: int| 0 <= j < index ==> clues@[j] == spec_clue(g, s, j),
            forall|j: int|
                index <= j < WORD_LENGTH ==> clues@[j] == (if g[j] == s[j] {
                    SingleClue::Green
                } else {
                    SingleClue::Gray
                }),
            forall|p: int| 0 <= p < WORD_LENGTH && remaining@[p] ==> g[p] != s[p],
            forall|c: char|
                #[trigger] available_count(remaining@, s, c, WORD_LENGTH as int)
                    == nongreen_solution_count(g, s, c, WORD_LENGTH as int) - min_nat(
                    nongreen_guess_count(g, s, c, index as int),
                    nongreen_solution_count(g, s, c, WORD_LENGTH as int),
                ),
        decreases WORD_LENGTH - index,
    {
        let letter = guess[index];
        if guess[index] != solution[index] {
            let mut position: usize = 0;
            let mut found = false;
            while position < WORD_LENGTH
                invariant
                    0 <= position <= WORD_LENGTH,
                    s == solution@,
                    s.len() >= WORD_LENGTH,
                    found ==> position < WORD_LENGTH && remaining@[position as int] && s[position as int] == letter,
                    !found ==> forall|p: int| 0 <= p < position ==> !(remaining@[p] && s[p] == letter),
                ensures
                    found ==> position < WORD_LENGTH && remaining@[position as int] && s[position as int] == letter,
                    !found ==> forall|p: int| 0 <= p < WORD_LENGTH ==> !(remaining@[p] && s[p] == letter),
                decreases WORD_LENGTH - position + if found { 0int } else { 1int },
            {
                if remaining[position] && solution[position] == letter {
                    found = true;
                    break;
                }
                position += 1;
            }
            proof {
                assert(nongreen_guess_count(g, s, letter, index + 1) == nongreen_guess_count(g, s, letter, index as int) + 1);
            }
            if found {
                proof {
                    lemma_available_some(remaining@, s, letter, WORD_LENGTH as int, position as int);
                    assert forall|c: char|
                        available_count(remaining@.update(position as int, false), s, c, WORD_LENGTH as int)
                            == available_count(remaining@, s, c, WORD_LENGTH as int) - if c == letter { 1int } else { 0int } by {
                        lemma_available_update(remaining@, s, c, WORD_LENGTH as int, position as int);
                    }
                }
                clues[index] = SingleClue::Yellow;
                remaining[position] = false;
            } else {
                proof {
                    lemma_available_none(remaining@, s, letter, WORD_LENGTH as int);
                }
            }
        }
        index += 1;
    }
    proof {
        assert(clues@ =~= spec_clues(g, s));
    }
    clues
}

} // verus!

verus! {

/// A clue for one guess: the five tiles and their base-3 value.
#[derive(Clone, Copy, Debug, PartialEq, Eq)]
pub struct WordClue {
    word_clue: [SingleClue; WORD_LENGTH],
    val: WordClueVal,
}

impl View for WordClue {
    type V = Seq<SingleClue>;

    closed spec fn view(&self) -> Seq<SingleClue> {
        self.word_clue@
    }
}

/// `3` to the power `n`.
pub open spec fn pow3(n: nat) -> nat
    decreases n,
{
    if n == 0 {
        1
    } else {
        3 * pow3((n - 1) as nat)
    }
}

/// The value of `k` tiles is below `3^k`.
pub proof fn lemma_clues_value_bound(clues: Seq<SingleClue>)
    ensures
        clues_value(clues) < pow3(clues.len()),
    decreases clues.len(),
{
    if clues.len() > 0 {
        lemma_clues_value_bound(clues.drop_last());
    }
}

/// A word the solver accepts: five bytes long, every character alphabetic, and five
/// characters once upper-cased.
pub open spec fn is_word(w: Seq<char>) -> bool {
    &&& encode_utf8(w).len() == WORD_LENGTH
    &&& forall|i: int| 0 <= i < w.len() ==> alphabetic(#[trigger] w[i])
    &&& uppercase(w).len() == WORD_LENGTH
}

/// The tile shown by a lower-case clue character.
pub open spec fn clue_of_char(c: char) -> Option<SingleClue> {
    if c == 'g' {
        Some(SingleClue::Green)
    } else if c == 'y' {
        Some(SingleClue::Yellow)
    } else if c == '_' {
        Some(SingleClue::Gray)
    } else {
        None
    }
}

/// A clue string the solver accepts: five bytes long, and five characters out of `g`, `y`
/// and `_` once lower-cased.
pub open spec fn is_clue_str(s: Seq<char>) -> bool {
    &&& encode_utf8(s).len() == WORD_LENGTH
    &&& lowercase(s).len() == WORD_LENGTH
    &&& forall|i: int| 0 <= i < WORD_LENGTH ==> clue_of_char(#[trigger] lowercase(s)[i]) is Some
}

/// The tiles that a clue string shows.
pub open spec fn parsed_clues(s: Seq<char>) -> Seq<SingleClue> {
    Seq::new(WORD_LENGTH as nat, |i: int| clue_of_char(lowercase(s)[i])->0)
}

/// The clue string that shows the tiles `clues`.
pub open spec fn clue_text(clues: Seq<SingleClue>) -> Seq<char> {
    Seq::new(WORD_LENGTH as nat, |i: int| clues[i].spec_char())
}

/// A guess followed by its clue, padded with `_` to ten bytes.
pub open spec fn padded_guess_clue(s: Seq<char>) -> Seq<char> {
    s + Seq::new((2 * WORD_LENGTH - encode_utf8(s).len()) as nat, |i: int| '_')
}

/// The guess part of a guess+clue string: its first five bytes once padded.
pub open spec fn guess_part(s: Seq<char>) -> Seq<char> {
    decode_utf8(encode_utf8(padded_guess_clue(s)).subrange(0, WORD_LENGTH as int))
}

/// The clue part of a guess+clue string: what follows its first five bytes once padded.
pub open spec fn clue_part(s: Seq<char>) -> Seq<char> {
    let bytes = encode_utf8(padded_guess_clue(s));
    decode_utf8(bytes.subrange(WORD_LENGTH as int, bytes.len() as int))
}

/// A guess+clue string the solver accepts: five to ten bytes, split after the fifth byte at a
/// character boundary into a word and a clue string.
pub open spec fn is_guess_clue_str(s: Seq<char>) -> bool {
    &&& WORD_LENGTH <= encode_utf8(s).len() <= 2 * WORD_LENGTH
    &&& is_char_boundary(encode_utf8(padded_guess_clue(s)), WORD_LENGTH as int)
    &&& is_word(guess_part(s))
    &&& is_clue_str(clue_part(s))
}

impl WordClue {
    #[verifier::type_invariant]
    spec fn value_matches(self) -> bool {
        self.val == clues_value(self.word_clue@)
    }

    /// The tiles of this clue.
    pub fn word_clue(&self) -> (clues: [SingleClue; WORD_LENGTH])
        ensures
            clues@ == self@,
    {
        self.word_clue
    }

    /// The base-3 value of this clue.
    pub fn val(&self) -> (v: WordClueVal)
        ensures
            v == clues_value(self@),
    {
        proof {
            use_type_invariant(self);
        }
        self.val
    }

    /// Creates a clue from a string of five clue characters (`g`, `y`, `_`, in either case).
    fn new_from_clue_str(clues_str: &str) -> (r: Self)
        requires
            is_clue_str(clues_str@),
        ensures
            r@ == parsed_clues(clues_str@),
    {
        let lower = str_to_lowercase(clues_str);
        let lower = lower.as_str();
        let mut char_clues = [SingleClue::Gray;WORD_LENGTH];
        let mut index: usize = 0;
        while index < WORD_LENGTH
            invariant
                0 <= index <= WORD_LENGTH,
                lower@ == lowercase(clues_str@),
                is_clue_str(clues_str@),
                forall|j: int| 0 <= j < index ==> char_clues@[j] == parsed_clues(clues_str@)[j],
            decreases WORD_LENGTH - index,
        {
            let c = lower.get_char(index);
            proof {
                assert(clue_of_char(lowercase(clues_str@)[index as int]) is Some);
            }
            char_clues[index] = if c == 'g' {
                SingleClue::Green
            } else if c == 'y' {
                SingleClue::Yellow
            } else {
                SingleClue::Gray
            };
            index += 1;
        }
        proof {
            assert(char_clues@ =~= parsed_clues(clues_str@));
        }
        Self::new_from_char_clues(char_clues)
    }

    fn new_from_char_clues(char_clues: [SingleClue; WORD_LENGTH]) -> (r: Self)
        ensures
            r@ == char_clues@,
    {
        Self { word_clue: char_clues, val: Self::calc_val(char_clues) }
    }

    fn calc_val(clues: [SingleClue; WORD_LENGTH]) -> (v: usize)
        ensures
            v == clues_value(clues@),
    {
        let mut val: usize = 0;
        let mut index: usize = 0;
        while index < WORD_LENGTH
            invariant
                0 <= index <= WORD_LENGTH,
                val == clues_value(clues@.take(index as int)),
            decreases WORD_LENGTH - index,
        {
            proof {
                lemma_clues_value_bound(clues@.take(index as int));
                reveal_with_fuel(pow3, 5);
                assert(clues@.take(index + 1).drop_last() =~= clues@.take(index as int));
            }
            val = val * 3 + clues[index].value();
            index += 1;
        }
        proof {
            assert(clues@.take(WORD_LENGTH as int) =~= clues@);
        }
        val
    }

    /// The upper-cased letters of a word.
    pub fn make_word_chars(word: &str) -> (chars: WordChars)
        requires
            is_word(word@),
        ensures
            chars@ == uppercase(word@),
    {
        let upper = str_to_uppercase(word);
        let upper = upper.as_str();
        let chars = [
            upper.get_char(0),
            upper.get_char(1),
            upper.get_char(2),
            upper.get_char(3),
            upper.get_char(4),
        ];
        proof {
            assert(chars@ =~= uppercase(word@));
        }
        chars
    }

    /// The upper-cased letters of `word`, or `None` where `word` is not five bytes long, has a
    /// character that is not alphabetic, or does not upper-case to five characters.
    pub fn try_make_word_chars(word: &str) -> (chars: Option<WordChars>)
        ensures
            chars is Some <==> is_word(word@),
            chars matches Some(c) ==> c@ == uppercase(word@),
    {
        if byte_len(word) != WORD_LENGTH {
            return None;
        }
        let n = word.unicode_len();
        let mut index: usize = 0;
        while index < n
            invariant
                0 <= index <= n,
                n == word@.len(),
                forall|j: int| 0 <= j < index ==> alphabetic(#[trigger] word@[j]),
            decreases n - index,
        {
            if !char_is_alphabetic(word.get_char(index)) {
                return None;
            }
            index += 1;
        }
        let upper = str_to_uppercase(word);
        if upper.as_str().unicode_len() != WORD_LENGTH {
            return None;
        }
        Some(Self::make_word_chars(word))
    }

    /// The clue that `guess_chars` gets when the solution is `solution` (upper-cased).
    pub fn new_from_guess_n_solution(guess_chars: WordChars, solution: &str) -> (r: Self)
        requires
            is_word(solution@),
        ensures
            r@ == spec_clues(guess_chars@, uppercase(solution@)),
            clues_value(r@) == feedback_value(guess_chars@, uppercase(solution@)),
    {
        let solution_chars = Self::make_word_chars(solution);
        let char_clues = compute_clues(&guess_chars, solution_chars.as_slice());
        Self::new_from_char_clues(char_clues)
    }

    /// The clue that `guess_chars` gets when the solution is `solution`, or `None` where
    /// `solution` is not a word.
    pub fn try_new_from_guess_n_solution(guess_chars: WordChars, solution: &str) -> (r: Option<
        Self,
    >)
        ensures
            r is Some <==> is_word(solution@),
            r matches Some(c) ==> c@ == spec_clues(guess_chars@, uppercase(solution@)) && clues_value(
                c@,
            ) == feedback_value(guess_chars@, uppercase(solution@)),
    {
        match Self::try_make_word_chars(solution) {
            Some(_) => Some(Self::new_from_guess_n_solution(guess_chars, solution)),
            None => None,
        }
    }

    /// Splits a guess+clue string such as `"xALEb_gggy"` into the guess letters and the clue.
    /// A clue shorter than five characters is completed with `_`.
    pub fn new_from_guess_n_clue_str(guess_and_clue_str: &str) -> (r: (WordChars, Self))
        requires
            is_guess_clue_str(guess_and_clue_str@),
        ensures
            r.0@ == uppercase(guess_part(guess_and_clue_str@)),
            r.1@ == parsed_clues(clue_part(guess_and_clue_str@)),
    {
        let padded = pad_guess_clue(guess_and_clue_str);
        let (guess_str, clue_str) = padded.as_str().split_at(WORD_LENGTH);
        proof {
            vstd::utf8::encode_utf8_decode_utf8(guess_str@);
            vstd::utf8::encode_utf8_decode_utf8(clue_str@);
        }
        let guess_chars = Self::make_word_chars(guess_str);
        (guess_chars, Self::new_from_clue_str(clue_str))
    }

    /// Splits a guess+clue string as `new_from_guess_n_clue_str` does, or returns `None` where
    /// the string is not a guess followed by a clue.
    pub fn try_new_from_guess_n_clue_str(guess_and_clue_str: &str) -> (r: Option<
        (WordChars, Self),
    >)
        ensures
            r is Some <==> is_guess_clue_str(guess_and_clue_str@),
            r matches Some(p) ==> p.0@ == uppercase(guess_part(guess_and_clue_str@)) && p.1@
                == parsed_clues(clue_part(guess_and_clue_str@)),
    {
        let str_len = byte_len(guess_and_clue_str);
        if str_len < WORD_LENGTH || str_len > 2 * WORD_LENGTH {
            return None;
        }
        let padded = pad_guess_clue(guess_and_clue_str);
        if !padded.as_str().is_char_boundary(WORD_LENGTH) {
            return None;
        }
        let (guess_str, clue_str) = padded.as_str().split_at(WORD_LENGTH);
        proof {
            vstd::utf8::encode_utf8_decode_utf8(guess_str@);
            vstd::utf8::encode_utf8_decode_utf8(clue_str@);
        }
        if Self::try_make_word_chars(guess_str).is_none() || !is_valid_clue_str(clue_str) {
            return None;
        }
        Some(Self::new_from_guess_n_clue_str(guess_and_clue_str))
    }

    /// The clue value of `guess` against the first five letters of `solution`.
    pub fn calc_val_from_guess_n_solution(guess: WordChars, solution: &[char]) -> (v: WordClueVal)
        requires
            solution@.len() >= WORD_LENGTH,
        ensures
            v == feedback_value(guess@, solution@),
    {
        let clues = compute_clues(&guess, solution);
        Self::calc_val(clues)
    }

    /// Whether `solution_str` (upper-cased) would give this clue to `guess_chars`.
    pub fn is_match(&self, guess_chars: WordChars, solution_str: &str) -> (r: bool)
        requires
            is_word(solution_str@),
        ensures
            r == (feedback_value(guess_chars@, uppercase(solution_str@)) == clues_value(self@)),
    {
        let solution_chars = Self::make_word_chars(solution_str);
        Self::calc_val_from_guess_n_solution(guess_chars, solution_chars.as_slice()) == self.val()
    }

    /// Whether `solution_str` would give this clue to `guess_chars`, or `None` where
    /// `solution_str` is not a word.
    pub fn try_is_match(&self, guess_chars: WordChars, solution_str: &str) -> (r: Option<bool>)
        ensures
            r is Some <==> is_word(solution_str@),
            r matches Some(b) ==> b == (feedback_value(guess_chars@, uppercase(solution_str@))
                == clues_value(self@)),
    {
        match Self::try_make_word_chars(solution_str) {
            Some(_) => Some(self.is_match(guess_chars, solution_str)),
            None => None,
        }
    }

    /// The clue as a string of five clue characters, such as `"yy__g"`.
    pub fn to_string(&self) -> (s: String)
        ensures
            s@ == clue_text(self@),
    {
        let mut out = String::new();
        let mut index: usize = 0;
        while index < WORD_LENGTH
            invariant
                0 <= index <= WORD_LENGTH,
                self@ == self.word_clue@,
                out@ == Seq::new(index as nat, |i: int| self@[i].spec_char()),
            decreases WORD_LENGTH - index,
        {
            let piece = self.word_clue[index].to_string();
            out.append(piece.as_str());
            index += 1;
            proof {
                assert(out@ =~= Seq::new(index as nat, |i: int| self@[i].spec_char()));
            }
        }
        out
    }
}

/// The length of `s` in bytes of UTF-8.
fn byte_len(s: &str) -> (n: usize)
    ensures
        n == encode_utf8(s@).len(),
{
    s.as_bytes().len()
}

/// The guess+clue string followed by as many `_` as make it ten bytes long.
fn pad_guess_clue(s: &str) -> (padded: String)
    requires
        encode_utf8(s@).len() <= 2 * WORD_LENGTH,
    ensures
        padded@ == padded_guess_clue(s@),
{
    let missing = 2 * WORD_LENGTH - byte_len(s);
    let mut padded = String::from_str(s);
    let underscore = "_";
    proof {
        reveal_strlit("_");
    }
    let mut added: usize = 0;
    while added < missing
        invariant
            0 <= added <= missing,
            underscore@ == seq!['_'],
            padded@ == s@ + Seq::new(added as nat, |i: int| '_'),
        decreases missing - added,
    {
        padded.append(underscore);
        added += 1;
        proof {
            assert(padded@ =~= s@ + Seq::new(added as nat, |i: int| '_'));
        }
    }
    padded
}

/// Whether `clue_str` is five bytes long and lower-cases to five clue characters.
fn is_valid_clue_str(clue_str: &str) -> (ok: bool)
    ensures
        ok == is_clue_str(clue_str@),
{
    if byte_len(clue_str) != WORD_LENGTH {
        return false;
    }
    let lower = str_to_lowercase(clue_str);
    let lower = lower.as_str();
    if lower.unicode_len() != WORD_LENGTH {
        return false;
    }
    let mut index: usize = 0;
    while index < WORD_LENGTH
        invariant
            0 <= index <= WORD_LENGTH,
            lower@ == lowercase(clue_str@),
            lower@.len() == WORD_LENGTH,
            forall|j: int| 0 <= j < index ==> clue_of_char(#[trigger] lower@[j]) is Some,
        decreases WORD_LENGTH - index,
    {
        let c = lower.get_char(index);
        if c != 'g' && c != 'y' && c != '_' {
            return false;
        }
        index += 1;
    }
    true
}

} // verus!

verus! {

/// Occurrences of `c` among the first `n` letters of `w`.
pub open spec fn letter_count(w: Seq<char>, c: char, n: int) -> nat
    decreases n,
{
    if n <= 0 {
        0
    } else {
        letter_count(w, c, n - 1) + if w[n - 1] == c {
            1nat
        } else {
            0nat
        }
    }
}

/// Positions `i < n` where the guess has letter `c` and the tile is green or yellow.
pub open spec fn marked_count(guess: Seq<char>, sol: Seq<char>, c: char, n: int) -> nat
    decreases n,
{
    if n <= 0 {
        0
    } else {
        marked_count(guess, sol, c, n - 1) + if guess[n - 1] == c && spec_clue(guess, sol, n - 1)
            != SingleClue::Gray {
            1nat
        } else {
            0nat
        }
    }
}

/// Positions `i < n` where both words have letter `c`.
spec fn green_count(guess: Seq<char>, sol: Seq<char>, c: char, n: int) -> nat
    decreases n,
{
    if n <= 0 {
        0
    } else {
        green_count(guess, sol, c, n - 1) + if guess[n - 1] == c && guess[n - 1] == sol[n - 1] {
            1nat
        } else {
            0nat
        }
    }
}

proof fn lemma_letter_split(guess: Seq<char>, sol: Seq<char>, c: char, n: int)
    ensures
        letter_count(guess, c, n) == green_count(guess, sol, c, n) + nongreen_guess_count(
            guess,
            sol,
            c,
            n,
        ),
        letter_count(sol, c, n) == green_count(guess, sol, c, n) + nongreen_solution_count(
            guess,
            sol,
            c,
            n,
        ),
    decreases n,
{
    if n > 0 {
        lemma_letter_split(guess, sol, c, n - 1);
    }
}

proof fn lemma_marked_split(guess: Seq<char>, sol: Seq<char>, c: char, n: int)
    requires
        n <= WORD_LENGTH,
    ensures
        marked_count(guess, sol, c, n) == green_count(guess, sol, c, n) + min_nat(
            nongreen_guess_count(guess, sol, c, n),
            nongreen_solution_count(guess, sol, c, WORD_LENGTH as int),
        ),
    decreases n,
{
    if n > 0 {
        lemma_marked_split(guess, sol, c, n - 1);
    }
}

/// For every letter, the number of green and yellow tiles on that letter of the guess is the
/// smaller of its number of occurrences in the guess and in the solution.
pub proof fn lemma_marked_letters(guess: Seq<char>, sol: Seq<char>, c: char)
    ensures
        marked_count(guess, sol, c, WORD_LENGTH as int) == if letter_count(
            guess,
            c,
            WORD_LENGTH as int,
        ) <= letter_count(sol, c, WORD_LENGTH as int) {
            letter_count(guess, c, WORD_LENGTH as int)
        } else {
            letter_count(sol, c, WORD_LENGTH as int)
        },
{
    lemma_letter_split(guess, sol, c, WORD_LENGTH as int);
    lemma_marked_split(guess, sol, c, WORD_LENGTH as int);
}

/// Every clue value lies between 0 and 242.
pub proof fn lemma_feedback_value_bound(guess: Seq<char>, sol: Seq<char>)
    ensures
        feedback_value(guess, sol) <= 242,
{
    lemma_clues_value_bound(spec_clues(guess, sol));
    reveal_with_fuel(pow3, 6);
}

/// Guessing the solution gives five green tiles, the clue value 242.
pub proof fn lemma_correct_guess(guess: Seq<char>, sol: Seq<char>)
    requires
        forall|i: int| 0 <= i < WORD_LENGTH ==> guess[i] == sol[i],
    ensures
        spec_clues(guess, sol) == Seq::new(WORD_LENGTH as nat, |i: int| SingleClue::Green),
        feedback_value(guess, sol) == 242,
{
    let clues = spec_clues(guess, sol);
    assert(clues =~= Seq::new(WORD_LENGTH as nat, |i: int| SingleClue::Green));
    assert(clues.drop_last().drop_last().drop_last().drop_last().drop_last() =~= Seq::empty());
    reveal_with_fuel(clues_value, 6);
}

/// The clue value determines the tiles: two tile sequences of one length with the same value
/// are equal.
pub proof fn lemma_clues_value_injective(a: Seq<SingleClue>, b: Seq<SingleClue>)
    requires
        a.len() == b.len(),
        clues_value(a) == clues_value(b),
    ensures
        a == b,
    decreases a.len(),
{
    if a.len() > 0 {
        let x = clues_value(a.drop_last());
        let y = clues_value(b.drop_last());
        assert(a.last().weight() == b.last().weight());
        assert(x == y);
        lemma_clues_value_injective(a.drop_last(), b.drop_last());
        assert(a =~= a.drop_last().push(a.last()));
        assert(b =~= b.drop_last().push(b.last()));
    } else {
        assert(a =~= b);
    }
}

/// Five equal tiles have the value `121` times their weight.
proof fn lemma_uniform_value(t: SingleClue)
    ensures
        clues_value(Seq::new(WORD_LENGTH as nat, |i: int| t)) == 121 * t.weight(),
{
    let u = Seq::new(WORD_LENGTH as nat, |i: int| t);
    assert(u.drop_last().drop_last().drop_last().drop_last().drop_last() =~= Seq::<SingleClue>::empty());
    reveal_with_fuel(clues_value, 6);
}

proof fn lemma_no_occurrence(guess: Seq<char>, sol: Seq<char>, c: char, n: int)
    requires
        forall|j: int| 0 <= j < n ==> sol[j] != c,
    ensures
        nongreen_solution_count(guess, sol, c, n) == 0,
    decreases n,
{
    if n > 0 {
        lemma_no_occurrence(guess, sol, c, n - 1);
    }
}

proof fn lemma_letter_occurs(w: Seq<char>, c: char, n: int, i: int)
    requires
        0 <= i < n,
        w[i] == c,
    ensures
        letter_count(w, c, n) >= 1,
    decreases n,
{
    if i < n - 1 {
        lemma_letter_occurs(w, c, n - 1, i);
    }
}

proof fn lemma_gray_unmarked(guess: Seq<char>, sol: Seq<char>, c: char, n: int)
    requires
        forall|k: int| 0 <= k < n ==> spec_clue(guess, sol, k) == SingleClue::Gray,
    ensures
        marked_count(guess, sol, c, n) == 0,
    decreases n,
{
    if n > 0 {
        lemma_gray_unmarked(guess, sol, c, n - 1);
    }
}

/// The clue that a guess gets against a solution is all green, the value 242, exactly when the
/// guess is the solution, and all gray, the value 0, exactly when no letter of the guess occurs
/// in the solution.
pub proof fn lemma_all_green_or_all_gray(guess: Seq<char>, sol: Seq<char>)
    requires
        guess.len() == WORD_LENGTH,
        sol.len() == WORD_LENGTH,
    ensures
        feedback_value(guess, sol) == 242 <==> guess == sol,
        feedback_value(guess, sol) == 0 <==> forall|i: int, j: int|
            0 <= i < WORD_LENGTH && 0 <= j < WORD_LENGTH ==> guess[i] != sol[j],
{
    let clues = spec_clues(guess, sol);
    let green = Seq::new(WORD_LENGTH as nat, |i: int| SingleClue::Green);
    let gray = Seq::new(WORD_LENGTH as nat, |i: int| SingleClue::Gray);
    lemma_uniform_value(SingleClue::Green);
    lemma_uniform_value(SingleClue::Gray);
    if feedback_value(guess, sol) == 242 {
        lemma_clues_value_injective(clues, green);
        assert forall|i: int| 0 <= i < WORD_LENGTH implies guess[i] == sol[i] by {
            assert(clues[i] == green[i]);
        }
        assert(guess =~= sol);
    }
    if guess == sol {
        lemma_correct_guess(guess, sol);
    }
    let disjoint = forall|i: int, j: int|
        0 <= i < WORD_LENGTH && 0 <= j < WORD_LENGTH ==> guess[i] != sol[j];
    if disjoint {
        assert forall|i: int| 0 <= i < WORD_LENGTH implies clues[i] == gray[i] by {
            lemma_no_occurrence(guess, sol, guess[i], WORD_LENGTH as int);
            assert(guess[i] != sol[i]);
            assert(nongreen_guess_count(guess, sol, guess[i], i + 1) >= 1);
        }
        assert(clues =~= gray);
    }
    if feedback_value(guess, sol) == 0 {
        lemma_clues_value_injective(clues, gray);
        assert forall|i: int, j: int| 0 <= i < WORD_LENGTH && 0 <= j < WORD_LENGTH implies guess[i] != sol[j] by {
            if guess[i] == sol[j] {
                let c = guess[i];
                assert forall|k: int| 0 <= k < WORD_LENGTH implies spec_clue(guess, sol, k) == SingleClue::Gray by {
                    assert(clues[k] == gray[k]);
                }
                lemma_gray_unmarked(guess, sol, c, WORD_LENGTH as int);
                lemma_marked_letters(guess, sol, c);
                lemma_letter_occurs(guess, c, WORD_LENGTH as int, i);
                lemma_letter_occurs(sol, c, WORD_LENGTH as int, j);
            }
        }
    }
}

/// Five ASCII letters make a word, which upper-cases letter by letter.
pub proof fn lemma_ascii_word(w: Seq<char>)
    requires
        w.len() == WORD_LENGTH,
        forall|i: int| 0 <= i < WORD_LENGTH ==> ascii_letter(#[trigger] w[i]),
    ensures
        is_word(w),
        uppercase(w) == w.map_values(|c: char| ascii_upper(c)),
{
    assert(vstd::utf8::is_ascii_chars(w));
    vstd::utf8::is_ascii_chars_encode_utf8(w);
}

} // verus!
