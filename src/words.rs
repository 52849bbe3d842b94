//! Words as the board sees them: the digraph "qu" is stored as the single
//! letter 'q' ("compression"), and turned back into "qu" for the player.

use vstd::prelude::*;
use vstd::string::*;

verus! {

/// The word with every "qu", scanned left to right, replaced by 'q'.
pub open spec fn compress(w: Seq<char>) -> Seq<char>
    decreases w.len(),
{
    if w.len() == 0 {
        w
    } else if w.len() >= 2 && w[0] == 'q' && w[1] == 'u' {
        seq!['q'] + compress(w.subrange(2, w.len() as int))
    } else {
        seq![w[0]] + compress(w.drop_first())
    }
}

/// The word with every 'q' replaced by "qu".
pub open spec fn expand(w: Seq<char>) -> Seq<char>
    decreases w.len(),
{
    if w.len() == 0 {
        w
    } else if w[0] == 'q' {
        seq!['q', 'u'] + expand(w.drop_first())
    } else {
        seq![w[0]] + expand(w.drop_first())
    }
}

/// Compresses a word given as characters.
pub fn compress_chars(w: &Vec<char>) -> (r: Vec<char>)
    ensures
        r@ == compress(w@),
{
    let n = w.len();
    let mut out: Vec<char> = Vec::new();
    let mut i: usize = 0;
    assert(w@.subrange(0, n as int) =~= w@);
    assert(out@ + compress(w@) =~= compress(w@));
    while i < n
        invariant
            n == w.len(),
            i <= n,
            compress(w@) == out@ + compress(w@.subrange(i as int, n as int)),
        decreases n - i,
    {
        let ghost rest = w@.subrange(i as int, n as int);
        let ghost before = out@;
        if i + 1 < n && w[i] == 'q' && w[i + 1] == 'u' {
            assert(rest.subrange(2, rest.len() as int) =~= w@.subrange(i + 2, n as int));
            out.push('q');
            i = i + 2;
            assert(before + (seq!['q'] + compress(w@.subrange(i as int, n as int))) =~= out@
                + compress(w@.subrange(i as int, n as int)));
        } else {
            assert(rest.drop_first() =~= w@.subrange(i + 1, n as int));
            let c = w[i];
            out.push(c);
            i = i + 1;
            assert(before + (seq![c] + compress(w@.subrange(i as int, n as int))) =~= out@
                + compress(w@.subrange(i as int, n as int)));
        }
    }
    assert(w@.subrange(n as int, n as int) =~= Seq::<char>::empty());
    assert(out@ + Seq::<char>::empty() =~= out@);
    out
}

/// Expands a word given as characters.
pub fn expand_chars(w: &Vec<char>) -> (r: Vec<char>)
    ensures
        r@ == expand(w@),
{
    let n = w.len();
    let mut out: Vec<char> = Vec::new();
    let mut i: usize = 0;
    assert(w@.subrange(0, n as int) =~= w@);
    assert(out@ + expand(w@) =~= expand(w@));
    while i < n
        invariant
            n == w.len(),
            i <= n,
            expand(w@) == out@ + expand(w@.subrange(i as int, n as int)),
        decreases n - i,
    {
        let ghost rest = w@.subrange(i as int, n as int);
        let ghost before = out@;
        assert(rest.drop_first() =~= w@.subrange(i + 1, n as int));
        let c = w[i];
        if c == 'q' {
            out.push('q');
            out.push('u');
            assert(before + (seq!['q', 'u'] + expand(w@.subrange(i + 1, n as int))) =~= out@
                + expand(w@.subrange(i + 1, n as int)));
        } else {
            out.push(c);
            assert(before + (seq![c] + expand(w@.subrange(i + 1, n as int))) =~= out@ + expand(
                w@.subrange(i + 1, n as int),
            ));
        }
        i = i + 1;
    }
    assert(w@.subrange(n as int, n as int) =~= Seq::<char>::empty());
    assert(out@ + Seq::<char>::empty() =~= out@);
    out
}

/// The characters of a string, in order.
pub fn chars_of(s: &str) -> (r: Vec<char>)
    ensures
        r@ == s@,
{
    let n = s.unicode_len();
    let mut out: Vec<char> = Vec::new();
    let mut i: usize = 0;
    while i < n
        invariant
            n == s@.len(),
            i <= n,
            out@ == s@.subrange(0, i as int),
        decreases n - i,
    {
        out.push(s.get_char(i));
        i = i + 1;
        assert(out@ =~= s@.subrange(0, i as int));
    }
    assert(out@ =~= s@);
    out
}

/// Relies on `String`'s `FromIterator<char>`: collecting characters gives the
/// string of exactly those characters, in order.
#[verifier::external_body]
pub(crate) fn string_of(cs: &Vec<char>) -> (r: String)
    ensures
        r@ == cs@,
{
    cs.iter().collect()
}

/// Replaces every "qu" of `word` by 'q'.
pub fn compress_qu(word: String) -> (r: String)
    ensures
        r@ == compress(word@),
{
    let cs = chars_of(word.as_str());
    string_of(&compress_chars(&cs))
}

/// Replaces every 'q' of `word` by "qu".
pub fn expand_qu(word: String) -> (r: String)
    ensures
        r@ == expand(word@),
{
    let cs = chars_of(word.as_str());
    string_of(&expand_chars(&cs))
}

/// The lowercase form of a string, as `str::to_lowercase` gives it.
pub uninterp spec fn lower_of(s: Seq<char>) -> Seq<char>;

/// Relies on `str::to_lowercase`: the result depends on the characters alone.
#[verifier::external_body]
fn lowercase(s: &str) -> (r: String)
    ensures
        r@ == lower_of(s@),
{
    s.to_lowercase()
}

/// A word as the player typed it, in the board's form: lowercase, with every
/// "qu" compressed.
pub open spec fn normalize(w: Seq<char>) -> Seq<char> {
    compress(lower_of(w))
}

/// The board's form of a typed word.
pub fn normalize_word(word: &str) -> (r: Vec<char>)
    ensures
        r@ == normalize(word@),
{
    let lower = lowercase(word);
    compress_chars(&chars_of(lower.as_str()))
}

/// The character sequences of a sequence of strings.
pub open spec fn views(v: Seq<String>) -> Seq<Seq<char>> {
    v.map_values(|s: String| s@)
}

/// Every 'q' of `w` is followed by 'u'.
pub open spec fn q_always_u(w: Seq<char>) -> bool {
    forall|i: int| 0 <= i < w.len() && #[trigger] w[i] == 'q' ==> i + 1 < w.len() && w[i + 1] == 'u'
}

/// `w` holds no "qu".
pub open spec fn without_qu(w: Seq<char>) -> bool {
    forall|i: int| 0 <= i < w.len() - 1 ==> !(#[trigger] w[i] == 'q' && w[i + 1] == 'u')
}

/// Round trip: expanding a compressed word gives the word back, whenever
/// each of its 'q' starts a "qu".
pub proof fn lemma_expand_compress(w: Seq<char>)
    requires
        q_always_u(w),
    ensures
        expand(compress(w)) == w,
    decreases w.len(),
{
    if w.len() > 0 {
        if w.len() >= 2 && w[0] == 'q' && w[1] == 'u' {
            let rest = w.subrange(2, w.len() as int);
            assert(q_always_u(rest)) by {
                assert forall|i: int| 0 <= i < rest.len() && #[trigger] rest[i] == 'q' implies i + 1 < rest.len()
                    && rest[i + 1] == 'u' by {
                    assert(w[i + 2] == 'q');
                }
            }
            lemma_expand_compress(rest);
            let c = seq!['q'] + compress(rest);
            assert(c.drop_first() =~= compress(rest));
            assert(expand(c) == seq!['q', 'u'] + expand(compress(rest)));
            assert(seq!['q', 'u'] + rest =~= w);
        } else {
            let rest = w.drop_first();
            assert(w[0] != 'q');
            assert(q_always_u(rest)) by {
                assert forall|i: int| 0 <= i < rest.len() && #[trigger] rest[i] == 'q' implies i + 1 < rest.len()
                    && rest[i + 1] == 'u' by {
                    assert(w[i + 1] == 'q');
                }
            }
            lemma_expand_compress(rest);
            let c = seq![w[0]] + compress(rest);
            assert(c.drop_first() =~= compress(rest));
            assert(expand(c) == seq![w[0]] + expand(compress(rest)));
            assert(seq![w[0]] + rest =~= w);
        }
    }
}

/// Compression leaves a word without "qu" unchanged.
pub proof fn lemma_compress_without_qu(w: Seq<char>)
    requires
        without_qu(w),
    ensures
        compress(w) == w,
    decreases w.len(),
{
    if w.len() > 0 {
        let rest = w.drop_first();
        assert(without_qu(rest)) by {
            assert forall|i: int| 0 <= i < rest.len() - 1 implies !(#[trigger] rest[i] == 'q' && rest[i + 1]
                == 'u') by {
                assert(rest[i] == w[i + 1] && rest[i + 1] == w[i + 2]);
            }
        }
        lemma_compress_without_qu(rest);
        assert(seq![w[0]] + rest =~= w);
    }
}

/// Compression merges no two distinct words without "qu".
pub proof fn lemma_compress_injective_without_qu(a: Seq<char>, b: Seq<char>)
    requires
        without_qu(a),
        without_qu(b),
        compress(a) == compress(b),
    ensures
        a == b,
{
    lemma_compress_without_qu(a);
    lemma_compress_without_qu(b);
}

/// Expansion merges no two distinct words.
pub proof fn lemma_expand_injective(a: Seq<char>, b: Seq<char>)
    requires
        expand(a) == expand(b),
    ensures
        a == b,
    decreases a.len(),
{
    if a.len() == 0 || b.len() == 0 {
        if a.len() > 0 {
            lemma_expand_len(a);
        }
        if b.len() > 0 {
            lemma_expand_len(b);
        }
        assert(a =~= b);
    } else {
        let ea = expand(a);
        let ta = expand(a.drop_first());
        let tb = expand(b.drop_first());
        let ha: Seq<char> = if a[0] == 'q' { seq!['q', 'u'] } else { seq![a[0]] };
        let hb: Seq<char> = if b[0] == 'q' { seq!['q', 'u'] } else { seq![b[0]] };
        assert(ea == ha + ta);
        assert(ea == hb + tb);
        assert((ha + ta)[0] == ha[0]);
        assert((hb + tb)[0] == hb[0]);
        assert(a[0] == b[0]);
        assert(ha == hb);
        assert((ha + ta).subrange(ha.len() as int, ea.len() as int) =~= ta);
        assert((hb + tb).subrange(hb.len() as int, ea.len() as int) =~= tb);
        lemma_expand_injective(a.drop_first(), b.drop_first());
        assert(a =~= seq![a[0]] + a.drop_first());
        assert(b =~= seq![b[0]] + b.drop_first());
    }
}

proof fn lemma_expand_len(w: Seq<char>)
    ensures
        expand(w).len() >= w.len(),
    decreases w.len(),
{
    if w.len() > 0 {
        lemma_expand_len(w.drop_first());
    }
}

} // verus!
