//! Letter statistics of a dictionary and the random board drawn from them.
//! The distribution is kept as exact letter counts: letter `j` has mass
//! `counts[j] / total`, and a draw is a number below `total`.

use rand::Rng;
use vstd::prelude::*;
use vstd::string::*;
use crate::board::{Board, is_letter};
use crate::words::{chars_of, views};

verus! {

/// The letter with alphabet index `j` (`a` is 0).
pub open spec fn letter(j: int) -> char {
    (j + 97) as char
}

/// The vowel-class letters a word must hold to be kept.
pub open spec fn is_vowel(c: char) -> bool {
    c == 'a' || c == 'e' || c == 'i' || c == 'o' || c == 'u' || c == 'y'
}

pub open spec fn has_vowel(w: Seq<char>) -> bool {
    exists|k: int| 0 <= k < w.len() && is_vowel(#[trigger] w[k])
}

/// A dictionary word is kept for a round when it is at least `min_len`
/// letters long and holds a vowel.
pub open spec fn keeps(min_len: int, w: Seq<char>) -> bool {
    w.len() >= min_len && has_vowel(w)
}

/// The words of `ws` that are kept, in order.
pub open spec fn kept(min_len: int, ws: Seq<Seq<char>>) -> Seq<Seq<char>>
    decreases ws.len(),
{
    if ws.len() == 0 {
        Seq::empty()
    } else {
        let prev = kept(min_len, ws.drop_last());
        if keeps(min_len, ws.last()) {
            prev.push(ws.last())
        } else {
            prev
        }
    }
}

/// How many times `c` occurs in `w`.
pub open spec fn count_in(w: Seq<char>, c: char) -> int
    decreases w.len(),
{
    if w.len() == 0 {
        0
    } else {
        count_in(w.drop_last(), c) + if w.last() == c {
            1int
        } else {
            0int
        }
    }
}

/// How many times `c` occurs over all the words of `ws`.
pub open spec fn letter_count(ws: Seq<Seq<char>>, c: char) -> int
    decreases ws.len(),
{
    if ws.len() == 0 {
        0
    } else {
        letter_count(ws.drop_last(), c) + count_in(ws.last(), c)
    }
}

/// The count of each letter `a` to `z` over the words of `ws`.
pub open spec fn letter_counts(ws: Seq<Seq<char>>) -> Seq<int> {
    Seq::new(26, |j: int| letter_count(ws, letter(j)))
}

/// The number of characters over all the words of `ws`.
pub open spec fn char_total(ws: Seq<Seq<char>>) -> int
    decreases ws.len(),
{
    if ws.len() == 0 {
        0
    } else {
        char_total(ws.drop_last()) + ws.last().len()
    }
}

pub open spec fn sum(s: Seq<int>) -> int
    decreases s.len(),
{
    if s.len() == 0 {
        0
    } else {
        s[0] + sum(s.drop_first())
    }
}

/// Inverse-CDF sampling: the index whose interval of `0..sum(s)` holds `r`,
/// scanning from the front and subtracting each mass in turn; the last index
/// when the masses run out first.
pub open spec fn pick_index(s: Seq<int>, r: int) -> int
    decreases s.len(),
{
    if s.len() <= 1 || r < s[0] {
        0
    } else {
        1 + pick_index(s.drop_first(), r - s[0])
    }
}

pub open spec fn as_ints(v: Seq<u64>) -> Seq<int> {
    v.map_values(|x: u64| x as int)
}

/// `c` is the letter that some draw below the total selects from `counts`.
pub open spec fn drawable(counts: Seq<int>, c: char) -> bool {
    exists|r: int| 0 <= r < sum(counts) && c == letter(#[trigger] pick_index(counts, r))
}

/// A draw below the total lands on an index with a positive count.
pub proof fn lemma_pick_positive(s: Seq<int>, r: int)
    requires
        s.len() >= 1,
        0 <= r < sum(s),
        forall|j: int| 0 <= j < s.len() ==> s[j] >= 0,
    ensures
        0 <= pick_index(s, r) < s.len(),
        s[pick_index(s, r)] > 0,
    decreases s.len(),
{
    if s.len() <= 1 {
        assert(s.drop_first().len() == 0);
    } else if r >= s[0] {
        lemma_pick_positive(s.drop_first(), r - s[0]);
    }
}

proof fn lemma_sum_update(s: Seq<int>, j: int, v: int)
    requires
        0 <= j < s.len(),
    ensures
        sum(s.update(j, v)) == sum(s) - s[j] + v,
    decreases s.len(),
{
    if j > 0 {
        assert(s.update(j, v).drop_first() =~= s.drop_first().update(j - 1, v));
        lemma_sum_update(s.drop_first(), j - 1, v);
    } else {
        assert(s.update(j, v).drop_first() =~= s.drop_first());
    }
}

proof fn lemma_char_total_prefix(ws: Seq<Seq<char>>, k: int)
    requires
        0 <= k <= ws.len(),
    ensures
        char_total(ws.subrange(0, k)) <= char_total(ws),
        0 <= char_total(ws.subrange(0, k)),
    decreases ws.len(),
{
    if k < ws.len() {
        assert(ws.drop_last().subrange(0, k) =~= ws.subrange(0, k));
        lemma_char_total_prefix(ws.drop_last(), k);
    } else {
        assert(ws.subrange(0, k) =~= ws);
        if ws.len() > 0 {
            lemma_char_total_prefix(ws.drop_last(), k - 1);
            assert(ws.drop_last().subrange(0, k - 1) =~= ws.drop_last());
        }
    }
}

proof fn lemma_count_in_facts(w: Seq<char>, c: char, k: int)
    ensures
        count_in(w, c) >= 0,
        0 <= k < w.len() && w[k] == c ==> count_in(w, c) >= 1,
    decreases w.len(),
{
    if w.len() > 0 {
        if k == w.len() - 1 {
            lemma_count_in_facts(w.drop_last(), c, 0);
        } else {
            lemma_count_in_facts(w.drop_last(), c, k);
        }
    }
}

proof fn lemma_letter_count_facts(ws: Seq<Seq<char>>, c: char, m: int)
    ensures
        letter_count(ws, c) >= 0,
        0 <= m < ws.len() ==> letter_count(ws, c) >= count_in(ws[m], c),
    decreases ws.len(),
{
    if ws.len() > 0 {
        lemma_count_in_facts(ws.last(), c, 0);
        if m == ws.len() - 1 {
            lemma_letter_count_facts(ws.drop_last(), c, 0);
        } else {
            lemma_letter_count_facts(ws.drop_last(), c, m);
        }
    }
}

proof fn lemma_sum_facts(s: Seq<int>, j: int)
    requires
        forall|i: int| 0 <= i < s.len() ==> s[i] >= 0,
    ensures
        sum(s) >= 0,
        0 <= j < s.len() ==> sum(s) >= s[j],
    decreases s.len(),
{
    if s.len() > 0 {
        lemma_sum_facts(s.drop_first(), j - 1);
    }
}

proof fn lemma_kept_facts(min_len: int, ws: Seq<Seq<char>>, k: int)
    ensures
        char_total(kept(min_len, ws)) <= char_total(ws),
        forall|m: int| 0 <= m < kept(min_len, ws).len() ==> keeps(min_len, #[trigger] kept(min_len, ws)[m]),
        0 <= k < ws.len() && keeps(min_len, ws[k]) ==> kept(min_len, ws).len() > 0,
    decreases ws.len(),
{
    if ws.len() > 0 {
        let prev = kept(min_len, ws.drop_last());
        if k == ws.len() - 1 {
            lemma_kept_facts(min_len, ws.drop_last(), 0);
        } else {
            lemma_kept_facts(min_len, ws.drop_last(), k);
        }
        if keeps(min_len, ws.last()) {
            assert(prev.push(ws.last()).drop_last() =~= prev);
            assert forall|m: int| 0 <= m < prev.len() + 1 implies keeps(
                min_len,
                #[trigger] prev.push(ws.last())[m],
            ) by {
                if m < prev.len() {
                    assert(keeps(min_len, prev[m]));
                }
            }
        }
    }
}

/// Whether `w` holds a vowel-class letter.
fn word_has_vowel(w: &Vec<char>) -> (r: bool)
    ensures
        r == has_vowel(w@),
{
    let mut k: usize = 0;
    while k < w.len()
        invariant
            forall|m: int| 0 <= m < k ==> !is_vowel(w@[m]),
        decreases w.len() - k,
    {
        let c = w[k];
        if c == 'a' || c == 'e' || c == 'i' || c == 'o' || c == 'u' || c == 'y' {
            return true;
        }
        k = k + 1;
    }
    false
}

/// The words that a round is played with: those of at least `min_len`
/// letters that hold a vowel, in their order.
pub fn filter_words(min_len: usize, words: Vec<String>) -> (r: Vec<String>)
    ensures
        views(r@) == kept(min_len as int, views(words@)),
{
    let mut out: Vec<String> = Vec::new();
    let n = words.len();
    let mut k: usize = 0;
    while k < n
        invariant
            n == words@.len(),
            k <= n,
            views(out@) == kept(min_len as int, views(words@).subrange(0, k as int)),
        decreases n - k,
    {
        let ghost prefix = views(words@).subrange(0, k as int + 1);
        assert(prefix.drop_last() =~= views(words@).subrange(0, k as int));
        assert(prefix.last() == words@[k as int]@);
        let ghost before = out@;
        let cs = chars_of(words[k].as_str());
        if cs.len() >= min_len && word_has_vowel(&cs) {
            let w = words[k].clone();
            out.push(w);
            assert(views(out@) =~= views(before).push(w@));
        }
        k = k + 1;
    }
    assert(views(words@).subrange(0, n as int) =~= views(words@));
    out
}

/// The count of each letter `a` to `z` over the words; other characters are
/// not letters of the board and are not counted.
pub fn get_char_counts(words: &Vec<String>) -> (r: Vec<u64>)
    requires
        char_total(views(words@)) <= u64::MAX,
    ensures
        as_ints(r@) == letter_counts(views(words@)),
        sum(as_ints(r@)) <= char_total(views(words@)),
{
    let ghost ws = views(words@);
    let mut counts: Vec<u64> = Vec::new();
    let mut j: usize = 0;
    while j < 26
        invariant
            j <= 26,
            counts@.len() == j,
            forall|i: int| 0 <= i < j ==> counts@[i] == 0,
        decreases 26 - j,
    {
        counts.push(0);
        j = j + 1;
    }
    proof {
        assert(as_ints(counts@) =~= Seq::new(26, |i: int| 0int));
        lemma_sum_zero(as_ints(counts@));
    }
    let n = words.len();
    let mut k: usize = 0;
    while k < n
        invariant
            n == words@.len(),
            ws == views(words@),
            k <= n,
            char_total(ws) <= u64::MAX,
            counts@.len() == 26,
            forall|i: int|
                0 <= i < 26 ==> counts@[i] == letter_count(ws.subrange(0, k as int), letter(i)),
            sum(as_ints(counts@)) <= char_total(ws.subrange(0, k as int)),
        decreases n - k,
    {
        let cs = chars_of(words[k].as_str());
        let ghost prefix = ws.subrange(0, k as int);
        proof {
            assert(ws.subrange(0, k as int + 1).drop_last() =~= prefix);
            assert(ws.subrange(0, k as int + 1).last() == cs@);
            lemma_char_total_prefix(ws, k as int + 1);
        }
        let mut m: usize = 0;
        while m < cs.len()
            invariant
                counts@.len() == 26,
                m <= cs@.len(),
                char_total(prefix) + cs@.len() <= u64::MAX,
                forall|i: int|
                    0 <= i < 26 ==> counts@[i] == letter_count(prefix, letter(i)) + count_in(
                        cs@.subrange(0, m as int),
                        letter(i),
                    ),
                sum(as_ints(counts@)) <= char_total(prefix) + m,
            decreases cs@.len() - m,
        {
            let c = cs[m];
            let ghost before = counts@;
            proof {
                assert(cs@.subrange(0, m as int + 1).drop_last() =~= cs@.subrange(0, m as int));
                assert(cs@.subrange(0, m as int + 1).last() == c);
            }
            if 'a' <= c && c <= 'z' {
                let j = (c as u32 - 97) as usize;
                proof {
                    assert(letter(j as int) == c);
                    assert forall|i: int| 0 <= i < 26 && i != j implies letter(i) != c by {}
                    assert forall|i: int| 0 <= i < 26 implies as_ints(before)[i] >= 0 by {}
                    lemma_sum_facts(as_ints(before), j as int);
                }
                let v = counts[j] + 1;
                counts.set(j, v);
                proof {
                    assert(as_ints(counts@) =~= as_ints(before).update(j as int, v as int));
                    lemma_sum_update(as_ints(before), j as int, v as int);
                }
            } else {
                proof {
                    assert forall|i: int| 0 <= i < 26 implies letter(i) != c by {}
                }
            }
            m = m + 1;
        }
        proof {
            assert(cs@.subrange(0, cs@.len() as int) =~= cs@);
        }
        k = k + 1;
    }
    proof {
        assert(ws.subrange(0, n as int) =~= ws);
        assert(as_ints(counts@) =~= letter_counts(ws));
    }
    counts
}

proof fn lemma_sum_zero(s: Seq<int>)
    requires
        forall|i: int| 0 <= i < s.len() ==> s[i] == 0,
    ensures
        sum(s) == 0,
    decreases s.len(),
{
    if s.len() > 0 {
        lemma_sum_zero(s.drop_first());
    }
}

/// The sum of the counts.
fn sum_counts(counts: &Vec<u64>) -> (r: u64)
    requires
        sum(as_ints(counts@)) <= u64::MAX,
    ensures
        r == sum(as_ints(counts@)),
{
    let ghost s = as_ints(counts@);
    let n = counts.len();
    let mut total: u64 = 0;
    let mut j: usize = 0;
    assert(s.subrange(0, n as int) =~= s);
    while j < n
        invariant
            n == counts@.len(),
            s == as_ints(counts@),
            j <= n,
            sum(s) <= u64::MAX,
            total + sum(s.subrange(j as int, n as int)) == sum(s),
        decreases n - j,
    {
        proof {
            let sub = s.subrange(j as int, n as int);
            assert(sub.drop_first() =~= s.subrange(j + 1, n as int));
            assert forall|i: int| 0 <= i < sub.drop_first().len() implies sub.drop_first()[i]
                >= 0 by {}
            lemma_sum_facts(sub.drop_first(), 0);
        }
        total = total + counts[j];
        j = j + 1;
    }
    total
}

/// The letter that draw `r` selects: the first letter whose share of
/// `0..total` holds `r`.
pub fn pick_letter(counts: &Vec<u64>, r: u64) -> (c: char)
    requires
        counts@.len() == 26,
        r < sum(as_ints(counts@)),
    ensures
        c == letter(pick_index(as_ints(counts@), r as int)),
        0 <= pick_index(as_ints(counts@), r as int) < 26,
        as_ints(counts@)[pick_index(as_ints(counts@), r as int)] > 0,
        is_letter(c),
{
    let ghost s = as_ints(counts@);
    proof {
        assert forall|i: int| 0 <= i < s.len() implies s[i] >= 0 by {}
        lemma_pick_positive(s, r as int);
    }
    let mut j: usize = 0;
    let mut rest: u64 = r;
    assert(s.subrange(0, 26) =~= s);
    while j < 25 && rest >= counts[j]
        invariant
            counts@.len() == 26,
            s == as_ints(counts@),
            j <= 25,
            pick_index(s, r as int) == j + pick_index(s.subrange(j as int, 26), rest as int),
            rest < sum(s.subrange(j as int, 26)),
        decreases 25 - j,
    {
        assert(s.subrange(j as int, 26).drop_first() =~= s.subrange(j + 1, 26));
        rest = rest - counts[j];
        j = j + 1;
    }
    let b: u8 = 97 + j as u8;
    b as char
}

/// Relies on `rand::Rng::gen_range` over the thread's generator: a value in
/// `0..bound`; it panics on an empty range, which `requires` rules out.
#[verifier::external_body]
fn draw_below(bound: u64) -> (r: u64)
    requires
        bound > 0,
    ensures
        r < bound,
{
    rand::thread_rng().gen_range(0..bound)
}

impl Board {
    /// A board of `size` by `size` letters for the kept words of a
    /// dictionary, each letter drawn on its own from the kept words' letter
    /// counts.
    pub fn random(size: usize, min_len: usize, words: Vec<String>) -> (b: Board)
        requires
            size >= 2,
            min_len >= 2,
            size * size <= usize::MAX,
            char_total(views(words@)) <= u64::MAX,
            exists|k: int| 0 <= k < words@.len() && keeps(min_len as int, #[trigger] words@[k]@),
        ensures
            b.wf(),
            b.size == size,
            b.min_len == min_len,
            views(b.words@) == kept(min_len as int, views(words@)),
            forall|k: int|
                0 <= k < b.chars@.len() ==> drawable(
                    letter_counts(views(b.words@)),
                    #[trigger] b.chars@[k],
                ),
            forall|k: int|
                0 <= k < b.chars@.len() ==> letter_count(views(b.words@), #[trigger] b.chars@[k])
                    > 0,
    {
        let ghost all = views(words@);
        let ghost k0 = choose|k: int| 0 <= k < words@.len() && keeps(min_len as int, #[trigger] words@[k]@);
        let words = filter_words(min_len, words);
        let ghost ws = views(words@);
        proof {
            lemma_kept_facts(min_len as int, all, k0);
        }
        let counts = get_char_counts(&words);
        proof {
            // a kept word holds a vowel, so some letter count is positive
            assert(keeps(min_len as int, ws[0]));
            let v = choose|v: int| 0 <= v < ws[0].len() && is_vowel(#[trigger] ws[0][v]);
            let c = ws[0][v];
            let j = c as int - 97;
            assert(letter(j) == c);
            lemma_count_in_facts(ws[0], c, v);
            lemma_letter_count_facts(ws, c, 0);
            assert forall|i: int| 0 <= i < 26 implies as_ints(counts@)[i] >= 0 by {}
            lemma_sum_facts(as_ints(counts@), j);
        }
        let total = sum_counts(&counts);
        let n = size * size;
        let mut chars: Vec<char> = Vec::new();
        while chars.len() < n
            invariant
                n == size * size,
                chars@.len() <= n,
                total == sum(as_ints(counts@)),
                total > 0,
                counts@.len() == 26,
                as_ints(counts@) == letter_counts(ws),
                forall|k: int|
                    0 <= k < chars@.len() ==> drawable(letter_counts(ws), #[trigger] chars@[k]),
                forall|k: int|
                    0 <= k < chars@.len() ==> letter_count(ws, #[trigger] chars@[k]) > 0 && is_letter(
                        chars@[k],
                    ),
            decreases n - chars@.len(),
        {
            let r = draw_below(total);
            let c = pick_letter(&counts, r);
            let ghost before = chars@;
            chars.push(c);
            proof {
                let p = pick_index(as_ints(counts@), r as int);
                assert(letter_counts(ws)[p] == letter_count(ws, letter(p)));
                assert(drawable(letter_counts(ws), c));
                assert forall|k: int| 0 <= k < chars@.len() implies drawable(
                    letter_counts(ws),
                    #[trigger] chars@[k],
                ) by {
                    if k < before.len() {
                        assert(chars@[k] == before[k]);
                    } else {
                        assert(chars@[k] == c);
                    }
                }
                assert forall|k: int| 0 <= k < chars@.len() implies letter_count(
                    ws,
                    #[trigger] chars@[k],
                ) > 0 && is_letter(chars@[k]) by {
                    if k < before.len() {
                        assert(chars@[k] == before[k]);
                    }
                }
            }
        }
        let ghost cs = chars@;
        let b = Board { size, chars, min_len, words };
        assert(views(b.words@) == ws);
        assert(b.chars@ == cs);
        b
    }
}

/// When all the mass is on one letter, every draw below the total selects
/// that letter.
pub proof fn lemma_draw_concentrated(counts: Seq<int>, j: int, r: int)
    requires
        0 <= j < counts.len(),
        forall|i: int| 0 <= i < counts.len() && i != j ==> counts[i] == 0,
        counts[j] > 0,
        0 <= r < sum(counts),
    ensures
        pick_index(counts, r) == j,
{
    assert forall|i: int| 0 <= i < counts.len() implies counts[i] >= 0 by {}
    lemma_pick_positive(counts, r);
}

/// When all the mass is on letter `j`, it is the only letter a draw selects.
pub proof fn lemma_drawable_concentrated(counts: Seq<int>, j: int)
    requires
        0 <= j < counts.len(),
        forall|i: int| 0 <= i < counts.len() && i != j ==> counts[i] == 0,
        counts[j] > 0,
    ensures
        forall|c: char| drawable(counts, c) ==> c == letter(j),
{
    assert forall|c: char| drawable(counts, c) implies c == letter(j) by {
        let r = choose|r: int| 0 <= r < sum(counts) && c == letter(#[trigger] pick_index(counts, r));
        lemma_draw_concentrated(counts, j, r);
    }
}

/// A board whose cells are draws from its words' letter counts, as
/// `Board::random` gives it, holds letter `j` in every cell when `j` is the
/// only letter of those words.
pub proof fn lemma_board_of_one_letter(b: Board, j: int)
    requires
        0 <= j < 26,
        forall|k: int|
            0 <= k < b.chars@.len() ==> drawable(letter_counts(views(b.words@)), #[trigger] b.chars@[k]),
        forall|i: int| 0 <= i < 26 && i != j ==> letter_count(views(b.words@), letter(i)) == 0,
        letter_count(views(b.words@), letter(j)) > 0,
    ensures
        forall|k: int| 0 <= k < b.chars@.len() ==> b.chars@[k] == letter(j),
{
    lemma_drawable_concentrated(letter_counts(views(b.words@)), j);
    assert forall|k: int| 0 <= k < b.chars@.len() implies b.chars@[k] == letter(j) by {
        assert(drawable(letter_counts(views(b.words@)), b.chars@[k]));
    }
}

/// Letter counts add up over concatenated word lists, so the distribution
/// of two lists together does not depend on their order.
pub proof fn lemma_letter_counts_concat(ws1: Seq<Seq<char>>, ws2: Seq<Seq<char>>)
    ensures
        forall|c: char| #[trigger] letter_count(ws1 + ws2, c) == letter_count(ws1, c) + letter_count(ws2, c),
        letter_counts(ws1 + ws2) == letter_counts(ws2 + ws1),
{
    assert forall|c: char| #[trigger] letter_count(ws1 + ws2, c) == letter_count(ws1, c) + letter_count(ws2, c) by {
        lemma_letter_counts_concat_one(ws1, ws2, c);
    }
    assert forall|j: int| 0 <= j < 26 implies letter_counts(ws1 + ws2)[j] == letter_counts(ws2 + ws1)[j] by {
        lemma_letter_counts_concat_one(ws1, ws2, letter(j));
        lemma_letter_counts_concat_one(ws2, ws1, letter(j));
    }
    assert(letter_counts(ws1 + ws2) =~= letter_counts(ws2 + ws1));
}

proof fn lemma_letter_counts_concat_one(ws1: Seq<Seq<char>>, ws2: Seq<Seq<char>>, c: char)
    ensures
        letter_count(ws1 + ws2, c) == letter_count(ws1, c) + letter_count(ws2, c),
    decreases ws2.len(),
{
    if ws2.len() == 0 {
        assert(ws1 + ws2 =~= ws1);
    } else {
        lemma_letter_counts_concat_one(ws1, ws2.drop_last(), c);
        assert((ws1 + ws2).drop_last() =~= ws1 + ws2.drop_last());
        assert((ws1 + ws2).last() == ws2.last());
    }
}

} // verus!
