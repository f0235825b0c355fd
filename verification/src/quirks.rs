//! Folding of the typographic glyphs that language models put in place of
//! plain characters, and the way back from a folded text to its original.
use vstd::prelude::*;

use crate::text::chars_of;
use crate::text::string_of;

verus! {

/// What `c` folds to: plain quotes, hyphens, punctuation and spaces for their
/// typographic variants, the letters of a Latin ligature, `s` for the long s,
/// and every other character for itself.
pub open spec fn folded_char(c: char) -> Seq<char> {
    match c {
        '\u{201C}' | '\u{201D}' | '\u{201E}' | '\u{201F}' | '\u{FF02}' => seq!['"'],
        '\u{2018}' | '\u{2019}' | '\u{201A}' | '\u{201B}' | '\u{FF07}' => seq!['\''],
        '\u{2013}' | '\u{2014}' | '\u{2015}' | '\u{2212}' => seq!['-'],
        '\u{FF0C}' => seq![','],
        '\u{FF0E}' => seq!['.'],
        '\u{FF1B}' => seq![';'],
        '\u{FF1A}' => seq![':'],
        '\u{FF1F}' => seq!['?'],
        '\u{FF01}' => seq!['!'],
        '\u{FF08}' => seq!['('],
        '\u{FF09}' => seq![')'],
        '\u{00A0}' | '\u{202F}' | '\u{2007}' | '\u{2009}' | '\u{200B}' => seq![' '],
        '\u{FB01}' => seq!['f', 'i'],
        '\u{FB02}' => seq!['f', 'l'],
        '\u{FB03}' => seq!['f', 'f', 'i'],
        '\u{FB04}' => seq!['f', 'f', 'l'],
        '\u{FB05}' | '\u{FB06}' => seq!['s', 't'],
        '\u{017F}' => seq!['s'],
        _ => seq![c],
    }
}

/// `s` with every character folded.
pub open spec fn folded(s: Seq<char>) -> Seq<char>
    decreases s.len(),
{
    if s.len() == 0 {
        Seq::empty()
    } else {
        folded(s.drop_last()) + folded_char(s.last())
    }
}

/// The first index from `k` on up to which the folded text is at least
/// `target` characters long, or the length of `s`.
pub open spec fn unfolded_from(s: Seq<char>, target: int, k: int) -> int
    decreases s.len() - k,
{
    if k < 0 || k >= s.len() || folded(s.take(k)).len() >= target {
        k
    } else {
        unfolded_from(s, target, k + 1)
    }
}

/// The index in `s` that belongs to the index `target` in `folded(s)`: the
/// smallest one whose prefix folds to at least `target` characters.
pub open spec fn unfolded_index(s: Seq<char>, target: int) -> int {
    unfolded_from(s, target, 0)
}

/// What `c` folds to.
fn fold_char(c: char) -> (r: Vec<char>)
    ensures
        r@ == folded_char(c),
{
    let r: Vec<char> = match c {
        '\u{201C}' | '\u{201D}' | '\u{201E}' | '\u{201F}' | '\u{FF02}' => vec!['"'],
        '\u{2018}' | '\u{2019}' | '\u{201A}' | '\u{201B}' | '\u{FF07}' => vec!['\''],
        '\u{2013}' | '\u{2014}' | '\u{2015}' | '\u{2212}' => vec!['-'],
        '\u{FF0C}' => vec![','],
        '\u{FF0E}' => vec!['.'],
        '\u{FF1B}' => vec![';'],
        '\u{FF1A}' => vec![':'],
        '\u{FF1F}' => vec!['?'],
        '\u{FF01}' => vec!['!'],
        '\u{FF08}' => vec!['('],
        '\u{FF09}' => vec![')'],
        '\u{00A0}' | '\u{202F}' | '\u{2007}' | '\u{2009}' | '\u{200B}' => vec![' '],
        '\u{FB01}' => vec!['f', 'i'],
        '\u{FB02}' => vec!['f', 'l'],
        '\u{FB03}' => vec!['f', 'f', 'i'],
        '\u{FB04}' => vec!['f', 'f', 'l'],
        '\u{FB05}' | '\u{FB06}' => vec!['s', 't'],
        '\u{017F}' => vec!['s'],
        _ => vec![c],
    };
    assert(r@ =~= folded_char(c));
    r
}

/// The characters of `v`, folded.
pub fn fold_chars(v: &Vec<char>) -> (r: Vec<char>)
    ensures
        r@ == folded(v@),
{
    let mut out: Vec<char> = Vec::new();
    let mut i: usize = 0;
    while i < v.len()
        invariant
            i <= v@.len(),
            out@ == folded(v@.take(i as int)),
        decreases v.len() - i,
    {
        let mut form = fold_char(v[i]);
        out.append(&mut form);
        assert(v@.take(i + 1).drop_last() =~= v@.take(i as int));
        i = i + 1;
    }
    assert(v@.take(i as int) =~= v@);
    out
}

/// Folds the typographic variants that language models emit to a canonical
/// plain form, so that texts which look alike compare equal.
pub fn normalize_llm_unicode_quirks(s: &str) -> (r: String)
    ensures
        r@ == folded(s@),
{
    string_of(&fold_chars(&chars_of(s)))
}

/// Takes an index of the folded text back to the original: the smallest index
/// of `original` whose prefix folds to at least `target_norm` characters.
pub fn map_quirk_index_to_original(original: &Vec<char>, target_norm: usize) -> (r: usize)
    ensures
        r == unfolded_index(original@, target_norm as int),
        r <= original@.len(),
{
    let mut o_idx: usize = 0;
    let mut missing: usize = target_norm;
    assert(original@.take(0) =~= Seq::<char>::empty());
    while o_idx < original.len() && missing > 0
        invariant
            o_idx <= original@.len(),
            missing == if folded(original@.take(o_idx as int)).len() >= target_norm {
                0
            } else {
                target_norm - folded(original@.take(o_idx as int)).len()
            },
            unfolded_index(original@, target_norm as int) == unfolded_from(
                original@,
                target_norm as int,
                o_idx as int,
            ),
        decreases original.len() - o_idx,
    {
        let width: usize = fold_char(original[o_idx]).len();
        proof {
            assert(original@.take(o_idx + 1).drop_last() =~= original@.take(o_idx as int));
        }
        missing = if missing > width {
            missing - width
        } else {
            0
        };
        o_idx = o_idx + 1;
    }
    o_idx
}

// ---------------------------------------------------------------------------
// Laws
// ---------------------------------------------------------------------------
/// Folding a concatenation folds its parts.
pub proof fn law_fold_concat(a: Seq<char>, b: Seq<char>)
    ensures
        folded(a + b) == folded(a) + folded(b),
    decreases b.len(),
{
    if b.len() == 0 {
        assert(a + b =~= a);
        assert(folded(a) + folded(b) =~= folded(a));
    } else {
        law_fold_concat(a, b.drop_last());
        assert((a + b).drop_last() =~= a + b.drop_last());
        assert(folded(a + b) =~= folded(a) + folded(b));
    }
}

/// What a character folds to stays as it is when folded again.
proof fn lemma_fold_char_stable(c: char)
    ensures
        folded(folded_char(c)) == folded_char(c),
{
    reveal_with_fuel(folded, 4);
    let f = folded_char(c);
    assert(folded(f) =~= f);
}

/// Folding twice is folding once.
pub proof fn law_fold_idempotent(s: Seq<char>)
    ensures
        folded(folded(s)) == folded(s),
    decreases s.len(),
{
    if s.len() > 0 {
        law_fold_idempotent(s.drop_last());
        law_fold_concat(folded(s.drop_last()), folded_char(s.last()));
        lemma_fold_char_stable(s.last());
    }
}

/// A text never gets shorter when folded.
pub proof fn law_fold_grows(s: Seq<char>)
    ensures
        folded(s).len() >= s.len(),
    decreases s.len(),
{
    if s.len() > 0 {
        law_fold_grows(s.drop_last());
    }
}

/// The index that belongs to `target` lies in the text; the prefix before it
/// folds to at least `target` characters (or is the whole text), and every
/// shorter prefix folds to fewer.
pub proof fn law_unfolded_index(s: Seq<char>, target: int)
    ensures
        0 <= unfolded_index(s, target) <= s.len(),
        unfolded_index(s, target) < s.len() ==> folded(s.take(unfolded_index(s, target))).len()
            >= target,
        forall|j: int|
            0 <= j < unfolded_index(s, target) ==> folded(#[trigger] s.take(j)).len() < target,
{
    lemma_unfolded_from(s, target, 0);
}

proof fn lemma_unfolded_from(s: Seq<char>, target: int, k: int)
    requires
        0 <= k <= s.len(),
    ensures
        k <= unfolded_from(s, target, k) <= s.len(),
        unfolded_from(s, target, k) < s.len() ==> folded(s.take(unfolded_from(s, target, k))).len()
            >= target,
        forall|j: int|
            k <= j < unfolded_from(s, target, k) ==> folded(#[trigger] s.take(j)).len() < target,
    decreases s.len() - k,
{
    if k < s.len() && folded(s.take(k)).len() < target {
        lemma_unfolded_from(s, target, k + 1);
    }
}

/// Indices taken back keep their order.
pub proof fn law_unfolded_monotone(s: Seq<char>, a: int, b: int)
    requires
        a <= b,
    ensures
        unfolded_index(s, a) <= unfolded_index(s, b),
{
    law_unfolded_index(s, a);
    law_unfolded_index(s, b);
    let ia = unfolded_index(s, a);
    let ib = unfolded_index(s, b);
    if ib < ia {
        assert(folded(s.take(ib)).len() < a);
    }
}

/// An index of the folded text that falls between two folded characters goes
/// back to exactly the prefix that folds to it.
pub proof fn law_unfolded_exact(s: Seq<char>, k: int)
    requires
        0 <= k <= s.len(),
    ensures
        unfolded_index(s, folded(s.take(k)).len() as int) == k,
{
    let t = folded(s.take(k)).len() as int;
    law_unfolded_index(s, t);
    let r = unfolded_index(s, t);
    assert forall|i: int, j: int| 0 <= i < j <= s.len() implies folded(#[trigger] s.take(i)).len()
        < folded(#[trigger] s.take(j)).len() by {
        assert(s.take(j) =~= s.take(i) + s.subrange(i, j));
        law_fold_concat(s.take(i), s.subrange(i, j));
        law_fold_grows(s.subrange(i, j));
    }
    if k < r {
        assert(folded(s.take(k)).len() < t);
    } else if r < k {
        assert(folded(s.take(r)).len() < folded(s.take(k)).len());
    }
}

/// Double and single quotes, dashes, wide punctuation and the unusual spaces fold
/// to the plain character, ligatures to their letters, the long s to `s`; every
/// other character stays.
pub proof fn law_folds(c: char)
    ensures
        ({
            let f = folded(seq![c]);
            if c == '\u{201C}' || c == '\u{201D}' || c == '\u{201E}' || c == '\u{201F}' || c
                == '\u{FF02}' {
                f == seq!['"']
            } else if c == '\u{2018}' || c == '\u{2019}' || c == '\u{201A}' || c == '\u{201B}' || c
                == '\u{FF07}' {
                f == seq!['\'']
            } else if c == '\u{2013}' || c == '\u{2014}' || c == '\u{2015}' || c == '\u{2212}' {
                f == seq!['-']
            } else if c == '\u{00A0}' || c == '\u{202F}' || c == '\u{2007}' || c == '\u{2009}' || c
                == '\u{200B}' {
                f == seq![' ']
            } else if c == '\u{FF0C}' {
                f == seq![',']
            } else if c == '\u{FF0E}' {
                f == seq!['.']
            } else if c == '\u{FF1B}' {
                f == seq![';']
            } else if c == '\u{FF1A}' {
                f == seq![':']
            } else if c == '\u{FF1F}' {
                f == seq!['?']
            } else if c == '\u{FF01}' {
                f == seq!['!']
            } else if c == '\u{FF08}' {
                f == seq!['(']
            } else if c == '\u{FF09}' {
                f == seq![')']
            } else if c == '\u{FB01}' {
                f == seq!['f', 'i']
            } else if c == '\u{FB02}' {
                f == seq!['f', 'l']
            } else if c == '\u{FB03}' {
                f == seq!['f', 'f', 'i']
            } else if c == '\u{FB04}' {
                f == seq!['f', 'f', 'l']
            } else if c == '\u{FB05}' || c == '\u{FB06}' {
                f == seq!['s', 't']
            } else if c == '\u{017F}' {
                f == seq!['s']
            } else {
                f == seq![c]
            }
        }),
        folded(Seq::empty()) == Seq::<char>::empty(),
{
    assert(seq![c].drop_last() =~= Seq::<char>::empty());
    assert(seq![c].last() == c);
    reveal_with_fuel(folded, 2);
    assert(folded(seq![c]) =~= folded_char(c));
}

} // verus!
