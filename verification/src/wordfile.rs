//! The word files: one word per line for guesses, and a word with a second field (as in
//! `CRANE 1234`) per line for solutions, under an optional `Word` header.
use vstd::prelude::*;

use crate::clue::WORD_LENGTH;
use crate::text::{
    char_is_whitespace, chars_of, lemma_split_no_sep, lemma_split_nonempty, split_char,
    str_to_uppercase, string_of, uppercase, whitespace,
};

verus! {

/// A line without the carriage return that may end it.
pub open spec fn strip_cr(line: Seq<char>) -> Seq<char> {
    if line.len() > 0 && line.last() == '\r' {
        line.drop_last()
    } else {
        line
    }
}

/// The lines of `s` as `str::lines` gives them: the pieces between newlines, each ended by a
/// newline losing one carriage return before it, and an empty last piece dropped.
pub open spec fn text_lines(s: Seq<char>) -> Seq<Seq<char>> {
    let pieces = split_char(s, '\n');
    let ended = pieces.drop_last().map_values(|p: Seq<char>| strip_cr(p));
    if pieces.last().len() == 0 {
        ended
    } else {
        ended.push(pieces.last())
    }
}

/// The fields of `s` as `str::split_whitespace` gives them: the maximal runs of characters
/// that are not whitespace.
pub open spec fn split_fields(s: Seq<char>) -> Seq<Seq<char>>
    decreases s.len(),
{
    if s.len() == 0 {
        Seq::empty()
    } else {
        let prev = split_fields(s.drop_last());
        let c = s.last();
        if whitespace(c) {
            prev
        } else if s.len() >= 2 && !whitespace(s[s.len() - 2]) {
            prev.update(prev.len() - 1, prev.last().push(c))
        } else {
            prev.push(seq![c])
        }
    }
}

/// The word a line gives, upper-cased: in a solution file a line of two fields whose first is
/// not `Word`, in a guess file a line of one field.
pub open spec fn line_word(line: Seq<char>, solution_file: bool) -> Option<Seq<char>> {
    let fields = split_fields(line);
    if (solution_file && fields.len() == 2 && fields[0] != seq!['W', 'o', 'r', 'd']) || (
    !solution_file && fields.len() == 1) {
        Some(uppercase(fields[0]))
    } else {
        None
    }
}

/// The words that the lines give, in order.
pub open spec fn listed_words(lines: Seq<Seq<char>>, solution_file: bool) -> Seq<Seq<char>>
    decreases lines.len(),
{
    if lines.len() == 0 {
        Seq::empty()
    } else {
        let prev = listed_words(lines.drop_last(), solution_file);
        match line_word(lines.last(), solution_file) {
            Some(w) => prev.push(w),
            None => prev,
        }
    }
}

/// The words of a word file with the contents `contents`.
pub open spec fn file_words(contents: Seq<char>, solution_file: bool) -> Seq<Seq<char>> {
    listed_words(text_lines(contents), solution_file)
}

/// The start of the error for a word that is not five letters long.
pub open spec fn length_error_prefix(solution_file: bool) -> Seq<char> {
    if solution_file {
        seq!['I', 'n', 'v', 'a', 'l', 'i', 'd', ' ', 's', 'o', 'l', 'u', 't', 'i', 'o', 'n', ' ', 'l', 'e', 'n', 'g', 't', 'h', ':', ' ']
    } else {
        seq!['I', 'n', 'v', 'a', 'l', 'i', 'd', ' ', 'g', 'u', 'e', 's', 's', ' ', 'l', 'e', 'n', 'g', 't', 'h', ':', ' ']
    }
}

/// The fields of a line.
fn line_fields(line: &Vec<char>) -> (fields: Vec<Vec<char>>)
    ensures
        fields@.len() == split_fields(line@).len(),
        forall|k: int| 0 <= k < fields@.len() ==> #[trigger] fields@[k]@ == split_fields(line@)[k],
{
    let mut fields: Vec<Vec<char>> = Vec::new();
    let mut previous_is_space = true;
    let mut index: usize = 0;
    while index < line.len()
        invariant
            0 <= index <= line@.len(),
            fields@.len() == split_fields(line@.take(index as int)).len(),
            forall|k: int| 0 <= k < fields@.len() ==> #[trigger] fields@[k]@ == split_fields(line@.take(index as int))[k],
            previous_is_space == (index == 0 || whitespace(line@[index - 1])),
            !previous_is_space ==> fields@.len() > 0,
        decreases line@.len() - index,
    {
        let c = line[index];
        let ghost prefix = line@.take(index + 1);
        proof {
            assert(prefix.drop_last() =~= line@.take(index as int));
        }
        if char_is_whitespace(c) {
            previous_is_space = true;
        } else if previous_is_space {
            let mut field: Vec<char> = Vec::new();
            field.push(c);
            fields.push(field);
            previous_is_space = false;
            proof {
                assert(fields@.last()@ =~= seq![c]);
            }
        } else {
            let last = fields.len() - 1;
            let ghost before = fields@;
            let mut field = fields.pop().unwrap();
            field.push(c);
            fields.push(field);
            proof {
                assert forall|k: int| 0 <= k < fields@.len() implies #[trigger] fields@[k]@ == split_fields(prefix)[k] by {
                    if k < last {
                        assert(fields@[k] == before[k]);
                    }
                }
            }
        }
        index += 1;
    }
    proof {
        assert(line@.take(line@.len() as int) =~= line@);
    }
    fields
}

/// Whether the letters `cs` spell `Word`.
fn is_header_word(cs: &Vec<char>) -> (b: bool)
    ensures
        b == (cs@ == seq!['W', 'o', 'r', 'd']),
{
    let b = cs.len() == 4 && cs[0] == 'W' && cs[1] == 'o' && cs[2] == 'r' && cs[3] == 'd';
    proof {
        if cs@.len() == 4 {
            assert(b == (cs@ =~= seq!['W', 'o', 'r', 'd']));
        }
    }
    b
}

/// The word a line gives, if any.
fn word_of_line(line: &Vec<char>, solution_file: bool) -> (w: Option<String>)
    ensures
        w is Some <==> line_word(line@, solution_file) is Some,
        w matches Some(s) ==> s@ == line_word(line@, solution_file)->0,
{
    let fields = line_fields(line);
    let valid = if solution_file {
        fields.len() == 2 && !is_header_word(&fields[0])
    } else {
        fields.len() == 1
    };
    if valid {
        let first = string_of(fields[0].as_slice());
        Some(str_to_uppercase(first.as_str()))
    } else {
        None
    }
}

/// The lines of `contents`, as `str::lines` gives them.
pub fn lines_of(contents: &str) -> (lines: Vec<Vec<char>>)
    ensures
        lines@.len() == text_lines(contents@).len(),
        forall|k: int| 0 <= k < lines@.len() ==> #[trigger] lines@[k]@ == text_lines(contents@)[k],
{
    let cs = chars_of(contents);
    let ghost text = contents@;
    let mut lines: Vec<Vec<char>> = Vec::new();
    let mut line: Vec<char> = Vec::new();
    let ghost mut done: Seq<Seq<char>> = Seq::empty();
    let mut index: usize = 0;
    while index < cs.len()
        invariant
            0 <= index <= cs@.len(),
            cs@ == text,
            text == contents@,
            split_char(text.take(index as int), '\n') == done.push(line@),
            lines@.len() == done.len(),
            forall|k: int| 0 <= k < lines@.len() ==> #[trigger] lines@[k]@ == strip_cr(done[k]),
        decreases cs@.len() - index,
    {
        let c = cs[index];
        proof {
            assert(text.take(index + 1).drop_last() =~= text.take(index as int));
        }
        if c == '\n' {
            let ghost raw = line@;
            let mut ended = line;
            if ended.len() > 0 && ended[ended.len() - 1] == '\r' {
                ended.pop();
            }
            proof {
                assert(ended@ == strip_cr(raw)) by {
                    if raw.len() > 0 && raw.last() == '\r' {
                        assert(ended@ =~= raw.drop_last());
                    }
                }
            }
            let ghost before = lines@;
            lines.push(ended);
            proof {
                done = done.push(raw);
                assert forall|k: int| 0 <= k < lines@.len() implies #[trigger] lines@[k]@ == strip_cr(done[k]) by {
                    if k < before.len() {
                        assert(lines@[k] == before[k]);
                    }
                }
            }
            line = Vec::new();
            proof {
                assert(split_char(text.take(index + 1), '\n') =~= done.push(line@));
            }
        } else {
            line.push(c);
            proof {
                assert(split_char(text.take(index + 1), '\n') =~= done.push(line@));
            }
        }
        index += 1;
    }
    proof {
        assert(text.take(text.len() as int) =~= text);
        let pieces = split_char(text, '\n');
        assert(pieces.drop_last() =~= done);
        assert(pieces.last() == line@);
    }
    if line.len() > 0 {
        let ghost before = lines@;
        lines.push(line);
        proof {
            assert forall|k: int| 0 <= k < lines@.len() implies #[trigger] lines@[k]@ == text_lines(contents@)[k] by {
                if k < before.len() {
                    assert(lines@[k] == before[k]);
                }
            }
        }
    }
    lines
}

/// The upper-cased words of a word file, or an error naming the first that is not five
/// characters long.
pub fn parse_word_list(contents: &str, solution_file: bool) -> (r: Result<Vec<String>, String>)
    ensures
        r is Ok <==> forall|i: int|
            0 <= i < file_words(contents@, solution_file).len() ==> (#[trigger] file_words(
                contents@,
                solution_file,
            )[i]).len() == WORD_LENGTH,
        r matches Ok(ws) ==> ws@.len() == file_words(contents@, solution_file).len() && forall|
            i: int,
        |
            0 <= i < ws@.len() ==> #[trigger] ws@[i]@ == file_words(contents@, solution_file)[i],
        r matches Err(m) ==> exists|k: int|
            0 <= k < file_words(contents@, solution_file).len() && (#[trigger] file_words(
                contents@,
                solution_file,
            )[k]).len() != WORD_LENGTH && (forall|j: int|
                0 <= j < k ==> (#[trigger] file_words(contents@, solution_file)[j]).len()
                    == WORD_LENGTH) && m@ == length_error_prefix(solution_file) + file_words(
                contents@,
                solution_file,
            )[k],
{
    let lines = lines_of(contents);
    let ghost all_lines = text_lines(contents@);
    let mut words: Vec<String> = Vec::new();
    let mut index: usize = 0;
    while index < lines.len()
        invariant
            0 <= index <= lines@.len(),
            all_lines == text_lines(contents@),
            lines@.len() == all_lines.len(),
            forall|k: int| 0 <= k < lines@.len() ==> #[trigger] lines@[k]@ == all_lines[k],
            words@.len() == listed_words(all_lines.take(index as int), solution_file).len(),
            forall|i: int| 0 <= i < words@.len() ==> #[trigger] words@[i]@ == listed_words(all_lines.take(index as int), solution_file)[i],
        decreases lines@.len() - index,
    {
        proof {
            assert(all_lines.take(index + 1).drop_last() =~= all_lines.take(index as int));
            assert(lines@[index as int]@ == all_lines[index as int]);
        }
        match word_of_line(&lines[index], solution_file) {
            Some(w) => words.push(w),
            None => {},
        }
        index += 1;
    }
    proof {
        assert(all_lines.take(all_lines.len() as int) =~= all_lines);
    }
    let ghost all = file_words(contents@, solution_file);
    let mut index: usize = 0;
    while index < words.len()
        invariant
            0 <= index <= words@.len(),
            all == file_words(contents@, solution_file),
            words@.len() == all.len(),
            forall|i: int| 0 <= i < words@.len() ==> #[trigger] words@[i]@ == all[i],
            forall|j: int| 0 <= j < index ==> (#[trigger] all[j]).len() == WORD_LENGTH,
        decreases words@.len() - index,
    {
        if words[index].as_str().unicode_len() != WORD_LENGTH {
            let mut message = if solution_file {
                String::from_str("Invalid solution length: ")
            } else {
                String::from_str("Invalid guess length: ")
            };
            proof {
                reveal_strlit("Invalid solution length: ");
                reveal_strlit("Invalid guess length: ");
            }
            message.append(words[index].as_str());
            proof {
                assert(message@ =~= length_error_prefix(solution_file) + all[index as int]);
                assert(words@[index as int]@ == all[index as int]);
                assert(all[index as int].len() != WORD_LENGTH);
            }
            return Err(message);
        }
        index += 1;
    }
    Ok(words)
}

/// Splitting after a separator: the pieces of what precedes it, then those of what follows.
proof fn lemma_split_after_sep(a: Seq<char>, c: Seq<char>, sep: char)
    ensures
        split_char(a.push(sep) + c, sep) == split_char(a, sep) + split_char(c, sep),
    decreases c.len(),
{
    lemma_split_nonempty(c, sep);
    lemma_split_nonempty(a, sep);
    let head = split_char(a, sep);
    if c.len() == 0 {
        assert(a.push(sep) + c =~= a.push(sep));
        assert(a.push(sep).drop_last() =~= a);
        assert(split_char(c, sep) =~= seq![Seq::<char>::empty()]);
        assert(split_char(a.push(sep), sep) =~= head + split_char(c, sep));
    } else {
        let c0 = c.drop_last();
        let ch = c.last();
        lemma_split_after_sep(a, c0, sep);
        lemma_split_nonempty(c0, sep);
        assert((a.push(sep) + c).drop_last() =~= a.push(sep) + c0);
        assert((a.push(sep) + c).last() == ch);
        let tail0 = split_char(c0, sep);
        if ch == sep {
            assert(split_char(c, sep) == tail0.push(Seq::<char>::empty()));
            assert((head + tail0).push(Seq::<char>::empty()) =~= head + tail0.push(Seq::<char>::empty()));
        } else {
            assert(split_char(c, sep) == tail0.update(tail0.len() - 1, tail0.last().push(ch)));
            let whole0 = head + tail0;
            assert(whole0.last() == tail0.last());
            assert(whole0.update(whole0.len() - 1, whole0.last().push(ch)) =~= head + tail0.update(
                tail0.len() - 1,
                tail0.last().push(ch),
            ));
        }
    }
}

/// A trailing carriage return does not change the fields of a line.
proof fn lemma_fields_strip_cr(l: Seq<char>)
    ensures
        split_fields(strip_cr(l)) == split_fields(l),
{
    if l.len() > 0 && l.last() == '\r' {
        assert(whitespace(l.last()));
    }
}

/// The words of lines read one after the other are the words of each part in turn.
proof fn lemma_listed_words_concat(first: Seq<Seq<char>>, rest: Seq<Seq<char>>, solution_file: bool)
    ensures
        listed_words(first + rest, solution_file) == listed_words(first, solution_file)
            + listed_words(rest, solution_file),
    decreases rest.len(),
{
    if rest.len() == 0 {
        assert(first + rest =~= first);
        assert(listed_words(first, solution_file) + listed_words(rest, solution_file) =~= listed_words(first, solution_file));
    } else {
        lemma_listed_words_concat(first, rest.drop_last(), solution_file);
        assert((first + rest).drop_last() =~= first + rest.drop_last());
        assert((first + rest).last() == rest.last());
        let a = listed_words(first, solution_file);
        let b = listed_words(rest.drop_last(), solution_file);
        match line_word(rest.last(), solution_file) {
            Some(w) => {
                assert((a + b).push(w) =~= a + b.push(w));
            },
            None => {},
        }
    }
}

/// A line put in front of a word file, with a newline after it, adds at the front the
/// upper-cased first field of that line where the line gives a word (in a solution file two
/// whitespace-separated fields of which the first is not `Word`, in a guess file a single
/// field), and nothing else; the rest of the file gives the same words as before, wherever
/// the line stands.
pub proof fn lemma_line_in_front(line: Seq<char>, contents: Seq<char>, solution_file: bool)
    requires
        forall|i: int| 0 <= i < line.len() ==> line[i] != '\n',
    ensures
        ({
            let f = split_fields(line);
            file_words(line.push('\n') + contents, solution_file) == if (solution_file && f.len()
                == 2 && f[0] != seq!['W', 'o', 'r', 'd']) || (!solution_file && f.len() == 1) {
                seq![uppercase(f[0])] + file_words(contents, solution_file)
            } else {
                file_words(contents, solution_file)
            }
        }),
{
    let empty = Seq::<char>::empty();
    lemma_split_no_sep(empty, line, '\n');
    assert(empty + line =~= line);
    assert(split_char(empty, '\n') =~= seq![empty]);
    assert(split_char(line, '\n') =~= seq![line]);
    lemma_split_after_sep(line, contents, '\n');
    let tail = split_char(contents, '\n');
    lemma_split_nonempty(contents, '\n');
    let pieces = seq![line] + tail;
    assert(pieces.last() == tail.last());
    assert(pieces.drop_last() =~= seq![line] + tail.drop_last());
    let cr = |p: Seq<char>| strip_cr(p);
    assert(pieces.drop_last().map_values(cr) =~= seq![strip_cr(line)] + tail.drop_last().map_values(cr));
    let lines = text_lines(line.push('\n') + contents);
    assert(lines =~= seq![strip_cr(line)] + text_lines(contents));
    lemma_listed_words_concat(seq![strip_cr(line)], text_lines(contents), solution_file);
    let one = seq![strip_cr(line)];
    assert(one.drop_last() =~= Seq::<Seq<char>>::empty());
    lemma_fields_strip_cr(line);
    let f = split_fields(line);
    let front = listed_words(one, solution_file);
    assert(listed_words(one.drop_last(), solution_file) == Seq::<Seq<char>>::empty());
    assert(one.last() == strip_cr(line));
    assert(split_fields(strip_cr(line)) == f);
    if (solution_file && f.len() == 2 && f[0] != seq!['W', 'o', 'r', 'd']) || (!solution_file
        && f.len() == 1) {
        assert(front =~= seq![uppercase(f[0])]);
    } else {
        assert(front =~= Seq::<Seq<char>>::empty());
        assert(front + file_words(contents, solution_file) =~= file_words(contents, solution_file));
    }
}

/// A newline at the end of a word file changes none of its words: the last line gives its
/// word whether or not a newline ends it.
pub proof fn lemma_final_newline(contents: Seq<char>, solution_file: bool)
    ensures
        file_words(contents.push('\n'), solution_file) == file_words(contents, solution_file),
{
    let empty = Seq::<char>::empty();
    let s = split_char(contents, '\n');
    lemma_split_nonempty(contents, '\n');
    let cr = |p: Seq<char>| strip_cr(p);
    assert(contents.push('\n').drop_last() =~= contents);
    assert(contents.push('\n').last() == '\n');
    assert(split_char(contents.push('\n'), '\n') == s.push(empty));
    assert(s.push(empty).drop_last() =~= s);
    let with_nl = text_lines(contents.push('\n'));
    assert(with_nl == s.map_values(cr));
    assert(s.map_values(cr) =~= s.drop_last().map_values(cr).push(strip_cr(s.last())));
    let without = text_lines(contents);
    lemma_fields_strip_cr(s.last());
    assert(with_nl.drop_last() =~= s.drop_last().map_values(cr));
    if s.last().len() == 0 {
        assert(split_fields(empty) =~= Seq::<Seq<char>>::empty());
        assert(strip_cr(s.last()) == empty);
        assert(without == s.drop_last().map_values(cr));
    } else {
        assert(without == s.drop_last().map_values(cr).push(s.last()));
        assert(without.drop_last() =~= s.drop_last().map_values(cr));
    }
}

proof fn lemma_fields_nonempty(s: Seq<char>)
    requires
        s.len() > 0,
        !whitespace(s.last()),
    ensures
        split_fields(s).len() > 0,
    decreases s.len(),
{
    if s.len() >= 2 && !whitespace(s[s.len() - 2]) {
        assert(s.drop_last().last() == s[s.len() - 2]);
        lemma_fields_nonempty(s.drop_last());
    }
}

/// A run of characters none of which is white space is a single field.
pub proof fn lemma_fields_of_word(w: Seq<char>)
    requires
        w.len() > 0,
        forall|i: int| 0 <= i < w.len() ==> !whitespace(#[trigger] w[i]),
    ensures
        split_fields(w) == seq![w],
    decreases w.len(),
{
    assert(!whitespace(w[w.len() - 1]));
    if w.len() == 1 {
        assert(w.drop_last() =~= Seq::<char>::empty());
        assert(seq![w.last()] =~= w);
        assert(split_fields(w.drop_last()) =~= Seq::<Seq<char>>::empty());
        assert(split_fields(w) == split_fields(w.drop_last()).push(seq![w.last()]));
        assert(Seq::<Seq<char>>::empty().push(seq![w.last()]) =~= seq![w]);
    } else {
        assert(!whitespace(w[w.len() - 2]));
        lemma_fields_of_word(w.drop_last());
        assert(w[w.len() - 2] == w.drop_last().last());
        assert(w.drop_last().push(w.last()) =~= w);
        let prev = split_fields(w.drop_last());
        assert(prev.len() == 1 && prev.last() == w.drop_last());
        assert(split_fields(w) == prev.update(prev.len() - 1, prev.last().push(w.last())));
        assert(seq![w.drop_last()].update(0, w.drop_last().push(w.last())) =~= seq![w]);
    }
}

/// A white-space character separates fields: the fields of what comes before it, then those
/// of what comes after it.
pub proof fn lemma_fields_split_at_space(a: Seq<char>, space: char, b: Seq<char>)
    requires
        whitespace(space),
    ensures
        split_fields(a.push(space) + b) == split_fields(a) + split_fields(b),
    decreases b.len(),
{
    let fa = split_fields(a);
    let whole = a.push(space) + b;
    if b.len() == 0 {
        assert(whole =~= a.push(space));
        assert(a.push(space).drop_last() =~= a);
        assert(split_fields(b) =~= Seq::<Seq<char>>::empty());
        assert(fa + split_fields(b) =~= fa);
    } else {
        let b0 = b.drop_last();
        let c = b.last();
        lemma_fields_split_at_space(a, space, b0);
        assert(whole.drop_last() =~= a.push(space) + b0);
        assert(whole.last() == c);
        let f0 = split_fields(b0);
        if whitespace(c) {
        } else if b0.len() == 0 {
            assert(whole[whole.len() - 2] == space);
            assert(b.drop_last() =~= Seq::<char>::empty());
            assert(split_fields(b0) =~= Seq::<Seq<char>>::empty());
            assert(split_fields(b) == f0.push(seq![c]));
            assert((fa + f0).push(seq![c]) =~= fa + f0.push(seq![c]));
        } else {
            assert(whole[whole.len() - 2] == b0.last());
            assert(b[b.len() - 2] == b0.last());
            if !whitespace(b0.last()) {
                lemma_fields_nonempty(b0);
                let both = fa + f0;
                assert(both.last() == f0.last());
                assert(both.update(both.len() - 1, both.last().push(c)) =~= fa + f0.update(
                    f0.len() - 1,
                    f0.last().push(c),
                ));
            } else {
                assert((fa + f0).push(seq![c]) =~= fa + f0.push(seq![c]));
            }
        }
    }
}

} // verus!
