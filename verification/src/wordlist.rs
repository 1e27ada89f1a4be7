//! Ordered lists of distinct words: the order of words, search and insertion.
use vstd::prelude::*;

use crate::clue::{WordChars, WORD_LENGTH};

verus! {

/// The radix in which a word's letters form its key: every `char` is below it.
pub const KEY_RADIX: u128 = 0x200000;

/// A number that orders words as their letters do, the first letter being the most
/// significant digit in radix `KEY_RADIX`.
pub open spec fn word_key(w: Seq<char>) -> int {
    ((((w[0] as int) * KEY_RADIX + (w[1] as int)) * KEY_RADIX + (w[2] as int)) * KEY_RADIX + (
    w[3] as int)) * KEY_RADIX + (w[4] as int)
}

/// Words in strictly increasing order, hence distinct.
pub open spec fn strictly_sorted(ws: Seq<WordChars>) -> bool {
    forall|i: int, j: int| 0 <= i < j < ws.len() ==> word_key(ws[i]@) < word_key(ws[j]@)
}

proof fn lemma_char_bound(c: char)
    ensures
        0 <= (c as int) < KEY_RADIX,
{
    vstd::utf8::char_is_scalar(c);
}

/// Two words with the same key are the same word.
pub proof fn lemma_word_key_injective(a: WordChars, b: WordChars)
    requires
        word_key(a@) == word_key(b@),
    ensures
        a == b,
{
    lemma_char_bound(a[0]);
    lemma_char_bound(a[1]);
    lemma_char_bound(a[2]);
    lemma_char_bound(a[3]);
    lemma_char_bound(a[4]);
    lemma_char_bound(b[0]);
    lemma_char_bound(b[1]);
    lemma_char_bound(b[2]);
    lemma_char_bound(b[3]);
    lemma_char_bound(b[4]);
    let k = KEY_RADIX as int;
    let a0 = a[0] as int;
    let a1 = a[1] as int;
    let a2 = a[2] as int;
    let a3 = a[3] as int;
    let a4 = a[4] as int;
    let b0 = b[0] as int;
    let b1 = b[1] as int;
    let b2 = b[2] as int;
    let b3 = b[3] as int;
    let b4 = b[4] as int;
    let x = ((a0 * k + a1) * k + a2) * k + a3;
    let y = ((b0 * k + b1) * k + b2) * k + b3;
    assert(x * k + a4 == y * k + b4);
    assert(a4 == b4 && x == y) by (nonlinear_arith)
        requires
            x * k + a4 == y * k + b4,
            0 <= a4 < k,
            0 <= b4 < k,
            k == 0x200000,
    ;
    let x2 = (a0 * k + a1) * k + a2;
    let y2 = (b0 * k + b1) * k + b2;
    assert(a3 == b3 && x2 == y2) by (nonlinear_arith)
        requires
            x2 * k + a3 == y2 * k + b3,
            0 <= a3 < k,
            0 <= b3 < k,
            k == 0x200000,
    ;
    let x3 = a0 * k + a1;
    let y3 = b0 * k + b1;
    assert(a2 == b2 && x3 == y3) by (nonlinear_arith)
        requires
            x3 * k + a2 == y3 * k + b2,
            0 <= a2 < k,
            0 <= b2 < k,
            k == 0x200000,
    ;
    assert(a1 == b1 && a0 == b0) by (nonlinear_arith)
        requires
            a0 * k + a1 == b0 * k + b1,
            0 <= a1 < k,
            0 <= b1 < k,
            k == 0x200000,
    ;
    assert(a@ =~= b@);
    assert(a[0] == b[0]);
    assert(a[1] == b[1]);
    assert(a[2] == b[2]);
    assert(a[3] == b[3]);
    assert(a[4] == b[4]);
}

/// Whether the first `n` letters of `a` come before those of `b` letter by letter, as the
/// order of `[char; 5]` compares words.
pub open spec fn letters_before(a: Seq<char>, b: Seq<char>, n: int) -> bool
    decreases n,
{
    if n <= 0 {
        false
    } else {
        letters_before(a, b, n - 1) || (a.take(n - 1) == b.take(n - 1) && (a[n - 1] as int) < (
        b[n - 1] as int))
    }
}

/// The key of the first `n` letters of `w`.
spec fn prefix_key(w: Seq<char>, n: int) -> int
    decreases n,
{
    if n <= 0 {
        0
    } else {
        prefix_key(w, n - 1) * KEY_RADIX + (w[n - 1] as int)
    }
}

proof fn lemma_digit_order(x: int, y: int, d: int, e: int)
    requires
        0 <= d < KEY_RADIX,
        0 <= e < KEY_RADIX,
    ensures
        (x * KEY_RADIX + d < y * KEY_RADIX + e) <==> (x < y || (x == y && d < e)),
        (x * KEY_RADIX + d == y * KEY_RADIX + e) <==> (x == y && d == e),
{
    assert((x * KEY_RADIX + d < y * KEY_RADIX + e) <==> (x < y || (x == y && d < e)))
        by (nonlinear_arith)
        requires
            0 <= d < KEY_RADIX,
            0 <= e < KEY_RADIX,
    ;
    assert((x * KEY_RADIX + d == y * KEY_RADIX + e) <==> (x == y && d == e)) by (nonlinear_arith)
        requires
            0 <= d < KEY_RADIX,
            0 <= e < KEY_RADIX,
    ;
}

proof fn lemma_prefix_key_order(a: Seq<char>, b: Seq<char>, n: int)
    requires
        0 <= n <= a.len(),
        n <= b.len(),
    ensures
        prefix_key(a, n) < prefix_key(b, n) <==> letters_before(a, b, n),
        prefix_key(a, n) == prefix_key(b, n) <==> a.take(n) == b.take(n),
    decreases n,
{
    if n <= 0 {
        assert(a.take(n) =~= b.take(n));
    } else {
        lemma_prefix_key_order(a, b, n - 1);
        lemma_char_bound(a[n - 1]);
        lemma_char_bound(b[n - 1]);
        lemma_digit_order(prefix_key(a, n - 1), prefix_key(b, n - 1), a[n - 1] as int, b[n - 1] as int);
        assert(a.take(n) == b.take(n) <==> (a.take(n - 1) == b.take(n - 1) && a[n - 1] == b[n - 1])) by {
            if a.take(n) == b.take(n) {
                assert(a.take(n - 1) =~= a.take(n).take(n - 1));
                assert(b.take(n - 1) =~= b.take(n).take(n - 1));
                assert(a[n - 1] == a.take(n)[n - 1]);
                assert(b[n - 1] == b.take(n)[n - 1]);
            }
            if a.take(n - 1) == b.take(n - 1) && a[n - 1] == b[n - 1] {
                assert forall|i: int| 0 <= i < n implies a.take(n)[i] == b.take(n)[i] by {
                    if i < n - 1 {
                        assert(a.take(n - 1)[i] == b.take(n - 1)[i]);
                    }
                }
                assert(a.take(n) =~= b.take(n));
            }
        }
        assert(a[n - 1] == b[n - 1] <==> (a[n - 1] as int) == (b[n - 1] as int));
    }
}

/// The key orders words as `[char; 5]` does: letter by letter.
pub proof fn lemma_word_key_order(a: WordChars, b: WordChars)
    ensures
        word_key(a@) < word_key(b@) <==> letters_before(a@, b@, WORD_LENGTH as int),
{
    lemma_prefix_key_order(a@, b@, WORD_LENGTH as int);
    reveal_with_fuel(prefix_key, 6);
}

/// The key of a word.
pub fn key_of(w: &WordChars) -> (k: u128)
    ensures
        k == word_key(w@),
{
    proof {
        lemma_char_bound(w[0]);
        lemma_char_bound(w[1]);
        lemma_char_bound(w[2]);
        lemma_char_bound(w[3]);
        lemma_char_bound(w[4]);
    }
    let d0 = w[0] as u32 as u128;
    let d1 = w[1] as u32 as u128;
    let d2 = w[2] as u32 as u128;
    let d3 = w[3] as u32 as u128;
    let d4 = w[4] as u32 as u128;
    let k1 = d0 * KEY_RADIX + d1;
    assert(k1 < KEY_RADIX * KEY_RADIX);
    let k2 = k1 * KEY_RADIX + d2;
    assert(k2 < KEY_RADIX * KEY_RADIX * KEY_RADIX) by (nonlinear_arith)
        requires
            k1 < KEY_RADIX * KEY_RADIX,
            k2 == k1 * KEY_RADIX + d2,
            d2 < KEY_RADIX,
    ;
    let k3 = k2 * KEY_RADIX + d3;
    assert(k3 < KEY_RADIX * KEY_RADIX * KEY_RADIX * KEY_RADIX) by (nonlinear_arith)
        requires
            k2 < KEY_RADIX * KEY_RADIX * KEY_RADIX,
            k3 == k2 * KEY_RADIX + d3,
            d3 < KEY_RADIX,
    ;
    k3 * KEY_RADIX + d4
}

/// Searches a strictly sorted list for `w`: `Ok` with its index where it occurs, else `Err`
/// with the index at which inserting it keeps the list sorted.
pub fn search_word(ws: &Vec<WordChars>, w: &WordChars) -> (r: Result<usize, usize>)
    requires
        strictly_sorted(ws@),
    ensures
        r matches Ok(i) ==> i < ws@.len() && ws@[i as int] == *w,
        r matches Err(i) ==> i <= ws@.len() && (forall|j: int|
            0 <= j < i ==> word_key(#[trigger] ws@[j]@) < word_key(w@)) && (forall|j: int|
            i <= j < ws@.len() ==> word_key(w@) < word_key(#[trigger] ws@[j]@)),
        r is Ok <==> ws@.contains(*w),
{
    let key = key_of(w);
    let mut low: usize = 0;
    let mut high: usize = ws.len();
    while low < high
        invariant
            0 <= low <= high <= ws@.len(),
            key == word_key(w@),
            strictly_sorted(ws@),
            forall|j: int| 0 <= j < low ==> word_key(#[trigger] ws@[j]@) < key,
            forall|j: int| high <= j < ws@.len() ==> key < word_key(#[trigger] ws@[j]@),
        decreases high - low,
    {
        let mid = low + (high - low) / 2;
        let mid_key = key_of(&ws[mid]);
        if mid_key == key {
            proof {
                lemma_word_key_injective(ws@[mid as int], *w);
            }
            return Ok(mid);
        } else if mid_key < key {
            low = mid + 1;
        } else {
            high = mid;
        }
    }
    proof {
        if ws@.contains(*w) {
            let j = choose|j: int| 0 <= j < ws@.len() && ws@[j] == *w;
            assert(word_key(ws@[j]@) == key);
        }
    }
    Err(low)
}

/// Whether the strictly sorted list `ws` holds `w`.
pub fn contains_word(ws: &Vec<WordChars>, w: &WordChars) -> (found: bool)
    requires
        strictly_sorted(ws@),
    ensures
        found == ws@.contains(*w),
{
    search_word(ws, w).is_ok()
}

/// Adds `w` to a strictly sorted list unless it holds it already.
pub fn insert_word(ws: &mut Vec<WordChars>, w: WordChars)
    requires
        strictly_sorted(old(ws)@),
    ensures
        strictly_sorted(final(ws)@),
        forall|x: WordChars| #[trigger] final(ws)@.contains(x) <==> (old(ws)@.contains(x) || x == w),
{
    match search_word(ws, &w) {
        Ok(_) => {},
        Err(i) => {
            let ghost prev = ws@;
            ws.insert(i, w);
            proof {
                assert forall|x: WordChars| #[trigger] ws@.contains(x) <==> (prev.contains(x) || x == w) by {
                    if ws@.contains(x) {
                        let j = choose|j: int| 0 <= j < ws@.len() && ws@[j] == x;
                        if j < i {
                            assert(prev[j] == x);
                        } else if j > i {
                            assert(prev[j - 1] == x);
                        }
                    }
                    if prev.contains(x) {
                        let j = choose|j: int| 0 <= j < prev.len() && prev[j] == x;
                        if j < i {
                            assert(ws@[j] == x);
                        } else {
                            assert(ws@[j + 1] == x);
                        }
                    }
                    if x == w {
                        assert(ws@[i as int] == x);
                    }
                }
                assert forall|a: int, b: int| 0 <= a < b < ws@.len() implies word_key(ws@[a]@) < word_key(ws@[b]@) by {
                    if b < i {
                        assert(ws@[a] == prev[a] && ws@[b] == prev[b]);
                    } else if b == i {
                        assert(ws@[a] == prev[a]);
                    } else if a < i {
                        assert(ws@[a] == prev[a] && ws@[b] == prev[b - 1]);
                    } else if a == i {
                        assert(ws@[b] == prev[b - 1]);
                    } else {
                        assert(ws@[a] == prev[a - 1] && ws@[b] == prev[b - 1]);
                    }
                }
            }
        },
    }
}

/// The words of `ws` that come after `last` in the order of words, in the order of `ws`.
pub fn words_after(ws: &Vec<WordChars>, last: &WordChars) -> (after: Vec<WordChars>)
    ensures
        after@ == ws@.filter(|w: WordChars| word_key(last@) < word_key(w@)),
{
    let ghost pred = |w: WordChars| word_key(last@) < word_key(w@);
    let last_key = key_of(last);
    let mut after: Vec<WordChars> = Vec::new();
    let mut index: usize = 0;
    while index < ws.len()
        invariant
            0 <= index <= ws@.len(),
            last_key == word_key(last@),
            pred == (|w: WordChars| word_key(last@) < word_key(w@)),
            after@ == ws@.take(index as int).filter(pred),
        decreases ws@.len() - index,
    {
        proof {
            reveal(Seq::filter);
            assert(ws@.take(index + 1).drop_last() =~= ws@.take(index as int));
        }
        if last_key < key_of(&ws[index]) {
            after.push(ws[index]);
        }
        index += 1;
    }
    proof {
        assert(ws@.take(ws@.len() as int) =~= ws@);
    }
    after
}

/// Words in increasing order, equal words side by side.
pub open spec fn sorted_words(ws: Seq<WordChars>) -> bool {
    forall|i: int, j: int| 0 <= i < j < ws.len() ==> word_key(ws[i]@) <= word_key(ws[j]@)
}

/// The words of `ws` in increasing order, as `slice::sort` orders `[char; 5]`, repeated words
/// kept.
pub fn sorted_copy(ws: &Vec<WordChars>) -> (out: Vec<WordChars>)
    ensures
        sorted_words(out@),
        out@.to_multiset() == ws@.to_multiset(),
{
    let mut out: Vec<WordChars> = Vec::new();
    let mut index: usize = 0;
    proof {
        assert(ws@.take(0) =~= Seq::<WordChars>::empty());
        assert(out@ =~= Seq::<WordChars>::empty());
    }
    while index < ws.len()
        invariant
            0 <= index <= ws@.len(),
            sorted_words(out@),
            out@.to_multiset() == ws@.take(index as int).to_multiset(),
        decreases ws@.len() - index,
    {
        let w = ws[index];
        let key = key_of(&w);
        let mut p: usize = 0;
        while p < out.len() && key_of(&out[p]) <= key
            invariant
                0 <= p <= out@.len(),
                key == word_key(w@),
                sorted_words(out@),
                forall|q: int| 0 <= q < p ==> word_key(#[trigger] out@[q]@) <= key,
            decreases out@.len() - p,
        {
            p += 1;
        }
        let ghost before = out@;
        proof {
            assert forall|q: int| p <= q < before.len() implies key < word_key(#[trigger] before[q]@) by {
                assert(word_key(before[p as int]@) <= word_key(before[q]@));
            }
        }
        out.insert(p, w);
        proof {
            assert(out@ == before.insert(p as int, w));
            assert(ws@.take(index + 1) =~= ws@.take(index as int).push(w));
            vstd::seq_lib::to_multiset_insert(before, p as int, w);
            vstd::seq_lib::to_multiset_build(ws@.take(index as int), w);
            assert forall|i: int, j: int| 0 <= i < j < out@.len() implies word_key(out@[i]@) <= word_key(out@[j]@) by {
                if j < p {
                    assert(out@[i] == before[i] && out@[j] == before[j]);
                } else if j == p {
                    assert(out@[i] == before[i]);
                } else if i < p {
                    assert(out@[i] == before[i] && out@[j] == before[j - 1]);
                } else if i == p {
                    assert(out@[j] == before[j - 1]);
                } else {
                    assert(out@[i] == before[i - 1] && out@[j] == before[j - 1]);
                }
            }
        }
        index += 1;
    }
    proof {
        assert(ws@.take(ws@.len() as int) =~= ws@);
    }
    out
}

} // verus!
