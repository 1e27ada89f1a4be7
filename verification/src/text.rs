//! Unicode case mapping, letter and white-space classification from std, as used on words,
//! clue strings and files.
use vstd::prelude::*;

verus! {

/// Whether `c` is an ASCII letter.
pub open spec fn ascii_letter(c: char) -> bool {
    ('a' <= c && c <= 'z') || ('A' <= c && c <= 'Z')
}

/// `c` with an ASCII lower-case letter turned into its upper-case letter.
pub open spec fn ascii_upper(c: char) -> char {
    if 'a' <= c && c <= 'z' {
        ((c as int) - 32) as char
    } else {
        c
    }
}

/// `c` with an ASCII upper-case letter turned into its lower-case letter.
pub open spec fn ascii_lower(c: char) -> char {
    if 'A' <= c && c <= 'Z' {
        ((c as int) + 32) as char
    } else {
        c
    }
}

/// Whether `char::is_alphabetic` holds of a character beyond ASCII (the Unicode `Alphabetic`
/// property).
pub uninterp spec fn non_ascii_alphabetic(c: char) -> bool;

/// Whether `char::is_alphabetic` holds of `c`: of an ASCII character exactly when it is a
/// letter.
pub open spec fn alphabetic(c: char) -> bool {
    if c <= '\u{7f}' {
        ascii_letter(c)
    } else {
        non_ascii_alphabetic(c)
    }
}

/// What `str::to_uppercase` returns for a string with the characters `s` that is not all
/// ASCII.
pub uninterp spec fn non_ascii_uppercase(s: Seq<char>) -> Seq<char>;

/// What `str::to_uppercase` returns for a string with the characters `s`: an ASCII string
/// with each lower-case letter made upper-case.
pub open spec fn uppercase(s: Seq<char>) -> Seq<char> {
    if vstd::utf8::is_ascii_chars(s) {
        s.map_values(|c: char| ascii_upper(c))
    } else {
        non_ascii_uppercase(s)
    }
}

/// What `str::to_lowercase` returns for a string with the characters `s` that is not all
/// ASCII.
pub uninterp spec fn non_ascii_lowercase(s: Seq<char>) -> Seq<char>;

/// What `str::to_lowercase` returns for a string with the characters `s`: an ASCII string
/// with each upper-case letter made lower-case.
pub open spec fn lowercase(s: Seq<char>) -> Seq<char> {
    if vstd::utf8::is_ascii_chars(s) {
        s.map_values(|c: char| ascii_lower(c))
    } else {
        non_ascii_lowercase(s)
    }
}

/// Whether `char::is_whitespace` holds of `c`: whether `c` has the Unicode `White_Space`
/// property, which these code points have.
pub open spec fn whitespace(c: char) -> bool {
    ||| ('\u{9}' <= c && c <= '\u{d}')
    ||| c == ' '
    ||| c == '\u{85}'
    ||| c == '\u{a0}'
    ||| c == '\u{1680}'
    ||| ('\u{2000}' <= c && c <= '\u{200a}')
    ||| c == '\u{2028}'
    ||| c == '\u{2029}'
    ||| c == '\u{202f}'
    ||| c == '\u{205f}'
    ||| c == '\u{3000}'
}

/// Whether `c` is white space, as `char::is_whitespace` tells it.
pub fn char_is_whitespace(c: char) -> (r: bool)
    ensures
        r == whitespace(c),
{
    ('\u{9}' <= c && c <= '\u{d}') || c == ' ' || c == '\u{85}' || c == '\u{a0}'
        || c == '\u{1680}' || ('\u{2000}' <= c && c <= '\u{200a}') || c == '\u{2028}'
        || c == '\u{2029}' || c == '\u{202f}' || c == '\u{205f}' || c == '\u{3000}'
}

/// Calls `String::push`, which appends one character.
#[verifier::external_body]
pub(crate) fn push_char(s: &mut String, c: char)
    ensures
        final(s)@ == old(s)@.push(c),
{
    s.push(c)
}

/// The characters of `s`, in order.
pub fn chars_of(s: &str) -> (v: Vec<char>)
    ensures
        v@ == s@,
{
    let mut v: Vec<char> = Vec::new();
    for c in it: s.chars()
        invariant
            v@ == it.seq().take(it.index() as int),
            it.seq() == s@,
    {
        v.push(c);
    }
    v
}

/// A string made of the characters `cs`.
pub fn string_of(cs: &[char]) -> (s: String)
    ensures
        s@ == cs@,
{
    let mut s = String::new();
    let mut index: usize = 0;
    while index < cs.len()
        invariant
            0 <= index <= cs@.len(),
            s@ == cs@.take(index as int),
        decreases cs@.len() - index,
    {
        push_char(&mut s, cs[index]);
        index += 1;
        proof {
            assert(s@ =~= cs@.take(index as int));
        }
    }
    proof {
        assert(cs@.take(cs@.len() as int) =~= cs@);
    }
    s
}

/// The pieces of `s` between occurrences of `sep`: one more than there are occurrences, as
/// `str::split` gives them.
pub open spec fn split_char(s: Seq<char>, sep: char) -> Seq<Seq<char>>
    decreases s.len(),
{
    if s.len() == 0 {
        seq![Seq::empty()]
    } else {
        let prev = split_char(s.drop_last(), sep);
        if s.last() == sep {
            prev.push(Seq::empty())
        } else {
            prev.update(prev.len() - 1, prev.last().push(s.last()))
        }
    }
}

/// There is always at least one piece.
pub(crate) proof fn lemma_split_nonempty(s: Seq<char>, sep: char)
    ensures
        split_char(s, sep).len() >= 1,
    decreases s.len(),
{
    if s.len() > 0 {
        lemma_split_nonempty(s.drop_last(), sep);
    }
}

/// Appending characters other than the separator extends the last piece.
pub(crate) proof fn lemma_split_no_sep(a: Seq<char>, b: Seq<char>, sep: char)
    requires
        forall|i: int| 0 <= i < b.len() ==> b[i] != sep,
    ensures
        split_char(a + b, sep) == split_char(a, sep).update(
            split_char(a, sep).len() - 1,
            split_char(a, sep).last() + b,
        ),
    decreases b.len(),
{
    lemma_split_nonempty(a, sep);
    if b.len() == 0 {
        assert(a + b =~= a);
        assert(split_char(a, sep).last() + b =~= split_char(a, sep).last());
        assert(split_char(a, sep).update(split_char(a, sep).len() - 1, split_char(a, sep).last())
            =~= split_char(a, sep));
    } else {
        let b0 = b.drop_last();
        lemma_split_no_sep(a, b0, sep);
        assert((a + b).drop_last() =~= a + b0);
        assert((a + b).last() == b.last());
        let p = split_char(a, sep);
        let prev = split_char(a + b0, sep);
        assert(b[b.len() - 1] != sep);
        assert(prev.len() == p.len());
        assert(prev.last() == p.last() + b0);
        assert((p.last() + b0).push(b.last()) =~= p.last() + b);
        assert(split_char(a + b, sep) == prev.update(prev.len() - 1, prev.last().push(b.last())));
        assert(split_char(a + b, sep) =~= split_char(a, sep).update(
            split_char(a, sep).len() - 1,
            split_char(a, sep).last() + b,
        ));
    }
}

/// Appending characters keeps every piece but the last, and adds none before it.
pub(crate) proof fn lemma_split_prefix(a: Seq<char>, b: Seq<char>, sep: char)
    ensures
        split_char(a + b, sep).len() >= split_char(a, sep).len(),
        forall|i: int|
            0 <= i < split_char(a, sep).len() - 1 ==> #[trigger] split_char(a + b, sep)[i]
                == split_char(a, sep)[i],
    decreases b.len(),
{
    lemma_split_nonempty(a, sep);
    if b.len() == 0 {
        assert(a + b =~= a);
    } else {
        let b0 = b.drop_last();
        lemma_split_prefix(a, b0, sep);
        lemma_split_nonempty(a + b0, sep);
        assert((a + b).drop_last() =~= a + b0);
    }
}

/// `s` without its leading whitespace.
pub open spec fn trim_start(s: Seq<char>) -> Seq<char>
    decreases s.len(),
{
    if s.len() > 0 && whitespace(s[0]) {
        trim_start(s.skip(1))
    } else {
        s
    }
}

/// `s` without its trailing whitespace.
pub open spec fn trim_end(s: Seq<char>) -> Seq<char>
    decreases s.len(),
{
    if s.len() > 0 && whitespace(s.last()) {
        trim_end(s.drop_last())
    } else {
        s
    }
}

/// `s` without leading and trailing whitespace, as `str::trim` gives it.
pub open spec fn trim(s: Seq<char>) -> Seq<char> {
    trim_end(trim_start(s))
}

/// The pieces of `cs` between occurrences of `sep`.
pub fn split_on(cs: &Vec<char>, sep: char) -> (pieces: Vec<Vec<char>>)
    ensures
        pieces@.len() == split_char(cs@, sep).len(),
        forall|k: int| 0 <= k < pieces@.len() ==> #[trigger] pieces@[k]@ == split_char(cs@, sep)[k],
{
    let mut pieces: Vec<Vec<char>> = Vec::new();
    let mut current: Vec<char> = Vec::new();
    let mut index: usize = 0;
    while index < cs.len()
        invariant
            0 <= index <= cs@.len(),
            pieces@.len() + 1 == split_char(cs@.take(index as int), sep).len(),
            forall|k: int| 0 <= k < pieces@.len() ==> #[trigger] pieces@[k]@ == split_char(cs@.take(index as int), sep)[k],
            current@ == split_char(cs@.take(index as int), sep).last(),
        decreases cs@.len() - index,
    {
        let c = cs[index];
        proof {
            assert(cs@.take(index + 1).drop_last() =~= cs@.take(index as int));
        }
        if c == sep {
            pieces.push(current);
            current = Vec::new();
            proof {
                assert(current@ =~= Seq::<char>::empty());
            }
        } else {
            current.push(c);
        }
        index += 1;
    }
    proof {
        assert(cs@.take(cs@.len() as int) =~= cs@);
    }
    let ghost before = pieces@;
    pieces.push(current);
    proof {
        assert forall|k: int| 0 <= k < pieces@.len() implies #[trigger] pieces@[k]@ == split_char(cs@, sep)[k] by {
            if k < before.len() {
                assert(pieces@[k] == before[k]);
            }
        }
    }
    pieces
}

/// `cs` without leading and trailing whitespace.
pub fn trim_chars(cs: &Vec<char>) -> (t: Vec<char>)
    ensures
        t@ == trim(cs@),
{
    let n = cs.len();
    let mut start: usize = 0;
    proof {
        assert(cs@.skip(0) =~= cs@);
    }
    while start < n && char_is_whitespace(cs[start])
        invariant
            0 <= start <= n,
            n == cs@.len(),
            trim_start(cs@.skip(start as int)) == trim_start(cs@),
        decreases n - start,
    {
        proof {
            assert(cs@.skip(start as int).skip(1) =~= cs@.skip(start + 1));
        }
        start += 1;
    }
    let mut end: usize = n;
    proof {
        assert(cs@.skip(start as int).take(end - start) =~= cs@.skip(start as int));
    }
    while end > start && char_is_whitespace(cs[end - 1])
        invariant
            0 <= start <= end <= n,
            n == cs@.len(),
            trim_start(cs@) == cs@.skip(start as int),
            trim_end(cs@.subrange(start as int, end as int)) == trim(cs@),
        decreases end - start,
    {
        proof {
            assert(cs@.subrange(start as int, end as int).drop_last() =~= cs@.subrange(start as int, end - 1));
        }
        end -= 1;
    }
    let mut t: Vec<char> = Vec::new();
    let mut index: usize = start;
    while index < end
        invariant
            0 <= start <= index <= end <= n,
            n == cs@.len(),
            t@ == cs@.subrange(start as int, index as int),
        decreases end - index,
    {
        t.push(cs[index]);
        index += 1;
        proof {
            assert(t@ =~= cs@.subrange(start as int, index as int));
        }
    }
    t
}

/// Calls `char::is_alphabetic`: of an ASCII character it holds exactly of the letters; of
/// any other character its result, which follows the long Unicode `Alphabetic` table, is named
/// `non_ascii_alphabetic(c)`.
#[verifier::external_body]
pub(crate) fn char_is_alphabetic(c: char) -> (r: bool)
    ensures
        r == if c <= '\u{7f}' {
            ascii_letter(c)
        } else {
            non_ascii_alphabetic(c)
        },
{
    c.is_alphabetic()
}

/// Calls `str::to_uppercase`: an ASCII string comes back with each lower-case letter made
/// upper-case; for any other string the result, which follows the Unicode case tables and
/// may have more characters than `s`, is named `non_ascii_uppercase(s@)`.
#[verifier::external_body]
pub(crate) fn str_to_uppercase(s: &str) -> (r: String)
    ensures
        r@ == if vstd::utf8::is_ascii_chars(s@) {
            s@.map_values(|c: char| ascii_upper(c))
        } else {
            non_ascii_uppercase(s@)
        },
{
    s.to_uppercase()
}

/// Calls `str::to_lowercase`: an ASCII string comes back with each upper-case letter made
/// lower-case; for any other string the result, which follows the Unicode case tables and
/// may have more characters than `s`, is named `non_ascii_lowercase(s@)`.
#[verifier::external_body]
pub(crate) fn str_to_lowercase(s: &str) -> (r: String)
    ensures
        r@ == if vstd::utf8::is_ascii_chars(s@) {
            s@.map_values(|c: char| ascii_lower(c))
        } else {
            non_ascii_lowercase(s@)
        },
{
    s.to_lowercase()
}

} // verus!
