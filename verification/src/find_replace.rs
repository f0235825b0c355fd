//! Locating the passage of a summary that a replacement speaks of, with some
//! tolerance for trivial differences.
use vstd::prelude::*;
use vstd::utf8::*;

use crate::quirks::{
    fold_chars, folded, law_fold_concat, law_unfolded_exact, law_unfolded_index,
    law_unfolded_monotone, map_quirk_index_to_original, unfolded_index,
};
use crate::text::{
    chars_between, chars_of, find_chars, find_rows, first_occurrence, law_words_are_runs,
    lemma_occurrence, lemma_occurrence_exists, lemma_spans, lemma_white_end, lemma_word_end,
    occurs_at, rows, same_chars, spans_from, string_between, white, white_end, word_end, word_spans,
    words, words_at,
};

verus! {

/// Punctuation that may be missing at the end of a quoted passage.
pub open spec fn closing(c: char) -> bool {
    c == '.' || c == ',' || c == ';' || c == ':' || c == '!' || c == '?' || c == '"' || c == '\''
        || c == ')'
}

/// `s` without closing punctuation at its end.
pub open spec fn without_closing(s: Seq<char>) -> Seq<char>
    decreases s.len(),
{
    if s.len() > 0 && closing(s.last()) {
        without_closing(s.drop_last())
    } else {
        s
    }
}

/// The passage of `hay` that is `needle`, character for character.
pub open spec fn literal_range(hay: Seq<char>, needle: Seq<char>) -> Option<(int, int)> {
    match first_occurrence(hay, needle) {
        Some(i) => Some((i, i + needle.len())),
        None => None,
    }
}

/// The passage of `hay` that has the words of `needle`, whatever white space
/// stands between them.
pub open spec fn word_range(hay: Seq<char>, needle: Seq<char>) -> Option<(int, int)> {
    let n = words(needle);
    if n.len() == 0 {
        None
    } else {
        match first_occurrence(words(hay), n) {
            Some(k) => Some((spans_from(hay, 0)[k].0, spans_from(hay, 0)[k + n.len() - 1].1)),
            None => None,
        }
    }
}

/// The passage of `hay` that is `needle` without its closing punctuation.
pub open spec fn unpunctuated_range(hay: Seq<char>, needle: Seq<char>) -> Option<(int, int)> {
    let stripped = without_closing(needle);
    if stripped != needle && stripped.len() > 0 {
        literal_range(hay, stripped)
    } else {
        None
    }
}

/// The passage of `hay` that folds to what `needle` folds to.
pub open spec fn folded_range(hay: Seq<char>, needle: Seq<char>) -> Option<(int, int)> {
    let h = folded(hay);
    let n = folded(needle);
    if h != hay || n != needle {
        match first_occurrence(h, n) {
            Some(i) => Some((unfolded_index(hay, i), unfolded_index(hay, i + n.len()))),
            None => None,
        }
    } else {
        None
    }
}

/// The passage of `hay` that `needle` speaks of, as indices of characters: the
/// literal one, else the one with its words, else the one without its closing
/// punctuation, else the one that folds to it.
pub open spec fn replace_range(hay: Seq<char>, needle: Seq<char>) -> Option<(int, int)> {
    if literal_range(hay, needle) is Some {
        literal_range(hay, needle)
    } else if word_range(hay, needle) is Some {
        word_range(hay, needle)
    } else if unpunctuated_range(hay, needle) is Some {
        unpunctuated_range(hay, needle)
    } else {
        folded_range(hay, needle)
    }
}

/// How many bytes the first `i` characters of `s` take in UTF-8.
pub open spec fn byte_offset(s: Seq<char>, i: int) -> int {
    encode_utf8(s.take(i)).len() as int
}

/// Whether `c` is closing punctuation.
fn is_closing(c: char) -> (r: bool)
    ensures
        r == closing(c),
{
    c == '.' || c == ',' || c == ';' || c == ':' || c == '!' || c == '?' || c == '"' || c == '\''
        || c == ')'
}

/// `v` without closing punctuation at its end.
fn strip_closing(v: &Vec<char>) -> (r: Vec<char>)
    ensures
        r@ == without_closing(v@),
{
    let mut n: usize = v.len();
    assert(v@.take(n as int) =~= v@);
    while n > 0 && is_closing(v[n - 1])
        invariant
            n <= v@.len(),
            without_closing(v@) == without_closing(v@.take(n as int)),
        decreases n,
    {
        assert(v@.take(n as int).drop_last() =~= v@.take(n - 1));
        n = n - 1;
    }
    assert(v@.subrange(0, n as int) =~= v@.take(n as int));
    chars_between(v, 0, n)
}

/// The passage of `hay` that has the words of `needle`.
fn find_words(hay: &Vec<char>, needle: &Vec<char>) -> (r: Option<(usize, usize)>)
    ensures
        match r {
            Some(p) => word_range(hay@, needle@) == Some((p.0 as int, p.1 as int)),
            None => word_range(hay@, needle@) is None,
        },
{
    let h_spans = word_spans(hay);
    let n_spans = word_spans(needle);
    let h_words = words_at(hay, &h_spans);
    let n_words = words_at(needle, &n_spans);
    proof {
        assert(rows(h_words@) =~= words(hay@));
        assert(rows(n_words@) =~= words(needle@));
    }
    if n_words.len() == 0 {
        return None;
    }
    match find_rows(&h_words, &n_words) {
        Some(k) => {
            assert(k + n_words.len() <= h_words.len());
            Some((h_spans[k].0, h_spans[k + (n_words.len() - 1)].1))
        },
        None => None,
    }
}

/// The passage of `hay` that is `needle`, character for character.
fn find_literal(hay: &Vec<char>, needle: &Vec<char>) -> (r: Option<(usize, usize)>)
    ensures
        match r {
            Some(p) => literal_range(hay@, needle@) == Some((p.0 as int, p.1 as int)),
            None => literal_range(hay@, needle@) is None,
        },
{
    proof {
        lemma_occurrence(hay@, needle@, 0);
    }
    match find_chars(hay, needle) {
        Some(i) => {
            assert(i + needle.len() <= hay.len());
            Some((i, i + needle.len()))
        },
        None => None,
    }
}

/// The passage of `hay` that folds to what `needle` folds to.
fn find_folded(hay: &Vec<char>, needle: &Vec<char>) -> (r: Option<(usize, usize)>)
    ensures
        match r {
            Some(p) => folded_range(hay@, needle@) == Some((p.0 as int, p.1 as int)),
            None => folded_range(hay@, needle@) is None,
        },
{
    let h = fold_chars(hay);
    let n = fold_chars(needle);
    if same_chars(&h, hay) && same_chars(&n, needle) {
        return None;
    }
    match find_literal(&h, &n) {
        Some(p) => Some(
            (map_quirk_index_to_original(hay, p.0), map_quirk_index_to_original(hay, p.1)),
        ),
        None => None,
    }
}

/// The passage of `hay` that `needle` speaks of, as indices of characters.
pub fn find_replace_chars(hay: &Vec<char>, needle: &Vec<char>) -> (r: Option<(usize, usize)>)
    ensures
        match r {
            Some(p) => replace_range(hay@, needle@) == Some((p.0 as int, p.1 as int)) && p.0
                <= p.1 <= hay@.len(),
            None => replace_range(hay@, needle@) is None,
        },
{
    proof {
        law_replace_range_in_bounds(hay@, needle@);
    }
    if let Some(p) = find_literal(hay, needle) {
        return Some(p);
    }
    if let Some(p) = find_words(hay, needle) {
        return Some(p);
    }
    let stripped = strip_closing(needle);
    if stripped.len() > 0 && !same_chars(&stripped, needle) {
        if let Some(p) = find_literal(hay, &stripped) {
            return Some(p);
        }
    }
    find_folded(hay, needle)
}

/// The number of bytes that the first `i` characters of `v` take in UTF-8.
fn bytes_before(v: &Vec<char>, i: usize) -> (r: usize)
    requires
        i <= v@.len(),
    ensures
        r == byte_offset(v@, i as int),
{
    let prefix: String = string_between(v, 0, i);
    assert(v@.subrange(0, i as int) =~= v@.take(i as int));
    prefix.as_str().as_bytes().len()
}

/// The byte range of `haystack` that `needle` speaks of. A literal occurrence
/// is preferred; then one that differs in white space only; then one without
/// the closing punctuation of `needle`; then one that differs in typographic
/// variants only. Both ends are character boundaries.
pub fn find_replace_range(haystack: &str, needle: &str) -> (r: Option<(usize, usize)>)
    ensures
        match (r, replace_range(haystack@, needle@)) {
            (Some(p), Some(q)) => p.0 == byte_offset(haystack@, q.0) && p.1 == byte_offset(
                haystack@,
                q.1,
            ),
            (None, None) => true,
            _ => false,
        },
{
    let h = chars_of(haystack);
    let n = chars_of(needle);
    match find_replace_chars(&h, &n) {
        Some(p) => Some((bytes_before(&h, p.0), bytes_before(&h, p.1))),
        None => None,
    }
}

// ---------------------------------------------------------------------------
// Laws
// ---------------------------------------------------------------------------
/// A range that is found lies in the text and does not end before it starts.
pub proof fn law_replace_range_in_bounds(hay: Seq<char>, needle: Seq<char>)
    ensures
        match replace_range(hay, needle) {
            Some(p) => 0 <= p.0 <= p.1 <= hay.len(),
            None => true,
        },
{
    lemma_occurrence(hay, needle, 0);
    lemma_occurrence(words(hay), words(needle), 0);
    lemma_occurrence(hay, without_closing(needle), 0);
    lemma_occurrence(folded(hay), folded(needle), 0);
    lemma_spans(hay, 0);
    if let Some(k) = first_occurrence(words(hay), words(needle)) {
        let l = k + words(needle).len() - 1;
        if words(needle).len() > 0 {
            assert(spans_from(hay, 0)[k].0 < spans_from(hay, 0)[k].1);
            if k < l {
                assert(spans_from(hay, 0)[k].1 <= spans_from(hay, 0)[l].0);
            }
            assert(spans_from(hay, 0)[l].0 < spans_from(hay, 0)[l].1);
        }
    }
    if let Some(i) = first_occurrence(folded(hay), folded(needle)) {
        law_unfolded_monotone(hay, i, i + folded(needle).len());
        law_unfolded_index(hay, i);
        law_unfolded_index(hay, i + folded(needle).len());
    }
}

/// A literal occurrence wins: the range found is the first place where
/// `needle` stands in `hay`, and it holds `needle` itself.
pub proof fn law_literal_wins(hay: Seq<char>, needle: Seq<char>, k: int)
    requires
        occurs_at(hay, needle, k),
    ensures
        match replace_range(hay, needle) {
            Some(p) => 0 <= p.0 <= k && p.1 == p.0 + needle.len() && hay.subrange(p.0, p.1)
                == needle && forall|j: int| 0 <= j < p.0 ==> !occurs_at(hay, needle, j),
            None => false,
        },
{
    lemma_occurrence_exists(hay, needle, 0, k);
    lemma_occurrence(hay, needle, 0);
}

/// The empty passage is found at the very start.
pub proof fn law_empty_needle(hay: Seq<char>)
    ensures
        replace_range(hay, Seq::empty()) == Some((0int, 0int)),
{
    assert(hay.subrange(0, 0) =~= Seq::<char>::empty());
}

/// The bytes of a text are those of its beginning and those of its rest.
pub proof fn law_bytes_split(s: Seq<char>, i: int)
    requires
        0 <= i <= s.len(),
    ensures
        encode_utf8(s) == encode_utf8(s.take(i)) + encode_utf8(s.skip(i)),
    decreases i,
{
    if i == 0 {
        assert(s.take(0) =~= Seq::empty());
        assert(s.skip(0) =~= s);
        assert(encode_utf8(s.take(0)) + encode_utf8(s) =~= encode_utf8(s));
    } else {
        let rest = s.drop_first();
        law_bytes_split(rest, i - 1);
        assert(s.take(i)[0] == s[0]);
        assert(s.take(i).drop_first() =~= rest.take(i - 1));
        assert(rest.skip(i - 1) =~= s.skip(i));
        assert(encode_utf8(s) =~= encode_utf8(s.take(i)) + encode_utf8(s.skip(i)));
    }
}

/// The bytes that the first characters of a text take end at a boundary
/// between characters, so that the text can be cut there.
pub proof fn law_offsets_are_boundaries(s: Seq<char>, i: int)
    requires
        0 <= i <= s.len(),
    ensures
        is_char_boundary(encode_utf8(s), byte_offset(s, i)),
        0 <= byte_offset(s, i) <= encode_utf8(s).len(),
    decreases i,
{
    encode_utf8_valid_utf8(s);
    law_bytes_split(s, i);
    if i == 0 {
        assert(s.take(0) =~= Seq::empty());
    } else {
        let rest = s.drop_first();
        let bytes = encode_utf8(s);
        law_offsets_are_boundaries(rest, i - 1);
        encode_utf8_first_scalar(s);
        assert(s.take(i)[0] == s[0]);
        assert(s.take(i).drop_first() =~= rest.take(i - 1));
        assert(pop_first_scalar(bytes) =~= encode_utf8(rest));
        assert(byte_offset(s, i) == length_of_first_scalar(bytes) + byte_offset(rest, i - 1));
    }
}

/// A range that is found can be cut out of the text: both of its ends are
/// boundaries between characters, and it does not end before it starts.
pub proof fn law_range_can_be_cut_out(hay: Seq<char>, needle: Seq<char>)
    ensures
        match replace_range(hay, needle) {
            Some(p) => is_char_boundary(encode_utf8(hay), byte_offset(hay, p.0))
                && is_char_boundary(encode_utf8(hay), byte_offset(hay, p.1)) && byte_offset(
                hay,
                p.0,
            ) <= byte_offset(hay, p.1) <= encode_utf8(hay).len(),
            None => true,
        },
{
    law_replace_range_in_bounds(hay, needle);
    if let Some(p) = replace_range(hay, needle) {
        law_offsets_are_boundaries(hay, p.0);
        law_offsets_are_boundaries(hay, p.1);
        let end = hay.take(p.1);
        law_bytes_split(end, p.0);
        assert(end.take(p.0) =~= hay.take(p.0));
    }
}

/// Closing punctuation is the full stop, the comma, the semicolon, the colon, the
/// marks of exclamation and question, the two quotes and the closing bracket.
pub proof fn law_closing_punctuation(c: char)
    ensures
        closing(c) <==> (c == '.' || c == ',' || c == ';' || c == ':' || c == '!' || c == '?' || c
            == '"' || c == '\'' || c == ')'),
{
}

/// All closing punctuation at the end of a passage is taken away, and nothing
/// else.
pub proof fn law_without_closing(core: Seq<char>, tail: Seq<char>)
    requires
        forall|i: int| 0 <= i < tail.len() ==> closing(#[trigger] tail[i]),
        core.len() == 0 || !closing(core.last()),
    ensures
        without_closing(core + tail) == core,
    decreases tail.len(),
{
    let s = core + tail;
    if tail.len() > 0 {
        assert(s.last() == tail[tail.len() - 1]);
        let d = tail.drop_last();
        assert forall|i: int| 0 <= i < d.len() implies closing(#[trigger] d[i]) by {
            assert(d[i] == tail[i]);
        }
        law_without_closing(core, d);
        assert(s.drop_last() =~= core + d);
    } else {
        assert(s =~= core);
    }
}

/// Where a passage stands in a text neither as it is nor by its words, but without
/// its closing punctuation, the range found is the first place of exactly that:
/// what stands before and after it is not in the range.
pub proof fn law_unpunctuated_passage(hay: Seq<char>, core: Seq<char>, tail: Seq<char>, k: int)
    requires
        core.len() > 0,
        tail.len() > 0,
        forall|i: int| 0 <= i < tail.len() ==> closing(#[trigger] tail[i]),
        !closing(core.last()),
        forall|j: int| !occurs_at(hay, core + tail, j),
        forall|j: int| !occurs_at(words(hay), words(core + tail), j),
        0 <= k && k + core.len() <= hay.len(),
        hay.subrange(k, k + core.len()) == core,
    ensures
        match replace_range(hay, core + tail) {
            Some(p) => {
                &&& 0 <= p.0 <= k
                &&& p.1 - p.0 == core.len()
                &&& hay.subrange(p.0, p.1) == core
                &&& forall|j: int| 0 <= j < p.0 ==> #[trigger] hay.subrange(j, j + core.len()) != core
            },
            None => false,
        },
{
    let needle = core + tail;
    lemma_occurrence(hay, needle, 0);
    lemma_occurrence(words(hay), words(needle), 0);
    law_without_closing(core, tail);
    assert(core.len() != needle.len());
    lemma_occurrence_exists(hay, core, 0, k);
    lemma_occurrence(hay, core, 0);
    let p = replace_range(hay, needle)->0;
    assert forall|j: int| 0 <= j < p.0 implies #[trigger] hay.subrange(j, j + core.len()) != core by {
        assert(!occurs_at(hay, core, j));
    }
}

proof fn lemma_white_end_cut(hay: Seq<char>, a: int, b: int, j: int)
    requires
        0 <= a <= a + j <= b <= hay.len(),
        0 <= j,
    ensures
        white_end(hay.subrange(a, b), j) == (if white_end(hay, a + j) < b {
            white_end(hay, a + j) - a
        } else {
            b - a
        }),
    decreases b - a - j,
{
    let sub = hay.subrange(a, b);
    lemma_white_end(hay, a + j);
    if a + j < b {
        assert(sub[j] == hay[a + j]);
        if white(hay[a + j]) {
            lemma_white_end_cut(hay, a, b, j + 1);
        }
    }
}

proof fn lemma_word_end_cut(hay: Seq<char>, a: int, b: int, j: int)
    requires
        0 <= a <= a + j <= b <= hay.len(),
        0 <= j,
        b < hay.len() ==> white(hay[b]),
    ensures
        word_end(hay.subrange(a, b), j) == word_end(hay, a + j) - a,
        word_end(hay, a + j) <= b,
    decreases b - a - j,
{
    let sub = hay.subrange(a, b);
    if a + j < b {
        assert(sub[j] == hay[a + j]);
        if !white(hay[a + j]) {
            lemma_word_end_cut(hay, a, b, j + 1);
        }
    }
}

proof fn lemma_spans_cut(hay: Seq<char>, a: int, b: int, j: int)
    requires
        0 <= a <= a + j <= b <= hay.len(),
        0 <= j,
        b < hay.len() ==> white(hay[b]),
    ensures
        ({
            let cut = spans_from(hay.subrange(a, b), j);
            let whole = spans_from(hay, a + j);
            &&& cut.len() <= whole.len()
            &&& forall|q: int|
                0 <= q < cut.len() ==> #[trigger] cut[q] == (whole[q].0 - a, whole[q].1 - a)
                    && whole[q].1 <= b
            &&& cut.len() < whole.len() ==> whole[cut.len() as int].0 >= b
        }),
    decreases b - a - j,
{
    let sub = hay.subrange(a, b);
    let cut = spans_from(sub, j);
    let whole = spans_from(hay, a + j);
    lemma_white_end_cut(hay, a, b, j);
    lemma_white_end(hay, a + j);
    lemma_white_end(sub, j);
    let x = white_end(hay, a + j);
    if x < b {
        lemma_word_end_cut(hay, a, b, x - a);
        lemma_word_end(hay, x);
        let y = word_end(hay, x);
        lemma_spans_cut(hay, a, b, y - a);
        let cut_rest = spans_from(sub, y - a);
        let whole_rest = spans_from(hay, y);
        assert(cut =~= seq![(x - a, y - a)] + cut_rest);
        assert(whole =~= seq![(x, y)] + whole_rest);
        assert forall|q: int| 0 <= q < cut.len() implies #[trigger] cut[q] == (
            whole[q].0 - a,
            whole[q].1 - a,
        ) && whole[q].1 <= b by {
            if q > 0 {
                assert(cut[q] == cut_rest[q - 1]);
                assert(whole[q] == whole_rest[q - 1]);
            }
        }
        if cut.len() < whole.len() {
            assert(whole[cut.len() as int] == whole_rest[cut_rest.len() as int]);
        }
    } else {
        assert(cut =~= Seq::empty());
        if whole.len() > 0 {
            assert(whole[0].0 == x);
        }
    }
}

proof fn lemma_spans_skip(s: Seq<char>, i: int, k: int)
    requires
        0 <= i <= s.len(),
        0 <= k < spans_from(s, i).len(),
    ensures
        spans_from(s, spans_from(s, i)[k].0) == spans_from(s, i).skip(k),
    decreases k,
{
    lemma_white_end(s, i);
    let a = white_end(s, i);
    lemma_word_end(s, a);
    let b = word_end(s, a);
    let all = spans_from(s, i);
    let rest = spans_from(s, b);
    assert(all =~= seq![(a, b)] + rest);
    if k == 0 {
        assert(white_end(s, a) == a);
        assert(all.skip(0) =~= all);
    } else {
        lemma_spans_skip(s, b, k - 1);
        assert(all[k] == rest[k - 1]);
        assert(all.skip(k) =~= rest.skip(k - 1));
    }
}

/// Where a passage does not stand in a text as it is but its words do, the range
/// found has exactly these words, at their first place: it starts and ends with a
/// word, and cuts none.
pub proof fn law_passage_by_words(hay: Seq<char>, needle: Seq<char>, k: int)
    requires
        forall|j: int| !occurs_at(hay, needle, j),
        words(needle).len() > 0,
        occurs_at(words(hay), words(needle), k),
        forall|j: int| 0 <= j < k ==> !occurs_at(words(hay), words(needle), j),
    ensures
        match replace_range(hay, needle) {
            Some(p) => {
                &&& 0 <= p.0 < p.1 <= hay.len()
                &&& words(hay.subrange(p.0, p.1)) == words(needle)
                &&& !white(hay[p.0]) && !white(hay[p.1 - 1])
                &&& p.0 > 0 ==> white(hay[p.0 - 1])
                &&& p.1 < hay.len() ==> white(hay[p.1])
                &&& words(hay.take(p.0)) == words(hay).take(k)
            },
            None => false,
        },
{
    let n = words(needle);
    let m = n.len() as int;
    let sp = spans_from(hay, 0);
    lemma_occurrence(hay, needle, 0);
    lemma_occurrence_exists(words(hay), n, 0, k);
    lemma_occurrence(words(hay), n, 0);
    law_words_are_runs(hay);
    let first = sp[k];
    let last = sp[k + m - 1];
    let p = (first.0, last.1);
    assert(replace_range(hay, needle) == Some(p));
    if m > 1 {
        assert(first.1 < last.0);
    }
    lemma_spans_skip(hay, 0, k);
    let from = sp.skip(k);
    lemma_spans_cut(hay, p.0, p.1, 0);
    let sub = hay.subrange(p.0, p.1);
    let cut = spans_from(sub, 0);
    assert(cut.len() == m) by {
        if cut.len() < m {
            assert(from[cut.len() as int] == sp[k + cut.len()]);
            if cut.len() < m - 1 {
                assert(sp[k + cut.len()].1 < last.0);
            }
        }
        if cut.len() > m {
            assert(cut[m] == (from[m].0 - p.0, from[m].1 - p.0));
            assert(from[m] == sp[k + m]);
            assert(last.1 < sp[k + m].0);
        }
    }
    assert(words(sub) =~= n) by {
        assert forall|q: int| 0 <= q < m implies words(sub)[q] == #[trigger] n[q] by {
            assert(cut[q] == (from[q].0 - p.0, from[q].1 - p.0));
            assert(from[q] == sp[k + q]);
            assert(sub.subrange(cut[q].0, cut[q].1) =~= hay.subrange(sp[k + q].0, sp[k + q].1));
            assert(words(hay)[k + q] == hay.subrange(sp[k + q].0, sp[k + q].1));
            assert(words(hay).subrange(k, k + m)[q] == words(hay)[k + q]);
        }
    }
    if p.0 > 0 && !white(hay[p.0 - 1]) {
        let q = choose|q: int| 0 <= q < sp.len() && (#[trigger] sp[q]).0 <= p.0 - 1 < sp[q].1;
        if q < k {
            assert(sp[q].1 < sp[k].0);
        } else if q > k {
            assert(sp[k].1 < sp[q].0);
        }
    }
    // What stands before has the words before.
    lemma_head_words(hay, p.0, k);
}

proof fn lemma_head_words(hay: Seq<char>, b: int, k: int)
    requires
        0 <= k < spans_from(hay, 0).len(),
        b == spans_from(hay, 0)[k].0,
    ensures
        words(hay.take(b)) == words(hay).take(k),
{
    let sp = spans_from(hay, 0);
    law_words_are_runs(hay);
    let head = hay.take(b);
    let hs = spans_from(head, 0);
    law_words_are_runs(head);
    lemma_same_runs(hay, b, k);
    assert(words(head) =~= words(hay).take(k)) by {
        assert forall|q: int| 0 <= q < k implies words(head)[q] == #[trigger] words(hay)[q] by {
            assert(hs[q] == sp[q]);
            assert(sp[q].1 < sp[k].0);
            assert(head.subrange(hs[q].0, hs[q].1) =~= hay.subrange(sp[q].0, sp[q].1));
        }
    }
}

proof fn lemma_same_runs(hay: Seq<char>, b: int, k: int)
    requires
        0 <= k < spans_from(hay, 0).len(),
        b == spans_from(hay, 0)[k].0,
    ensures
        spans_from(hay.take(b), 0).len() == k,
        forall|q: int|
            0 <= q < k ==> #[trigger] spans_from(hay.take(b), 0)[q] == spans_from(hay, 0)[q],
{
    lemma_spans(hay, 0);
    lemma_runs_before(hay, b, 0, k);
}

proof fn lemma_runs_before(hay: Seq<char>, b: int, i: int, k: int)
    requires
        0 <= i <= b <= hay.len(),
        0 <= k < spans_from(hay, i).len(),
        b == spans_from(hay, i)[k].0,
    ensures
        spans_from(hay.take(b), i).len() == k,
        forall|q: int|
            0 <= q < k ==> #[trigger] spans_from(hay.take(b), i)[q] == spans_from(hay, i)[q],
    decreases k,
{
    let head = hay.take(b);
    assert(head =~= hay.subrange(0, b));
    lemma_white_end_cut(hay, 0, b, i);
    lemma_white_end(hay, i);
    let x = white_end(hay, i);
    lemma_word_end(hay, x);
    let y = word_end(hay, x);
    let whole = spans_from(hay, i);
    let rest = spans_from(hay, y);
    assert(whole =~= seq![(x, y)] + rest);
    if k == 0 {
        assert(spans_from(head, i) =~= Seq::empty());
    } else {
        assert(whole[k] == rest[k - 1]);
        lemma_spans(hay, y);
        lemma_word_end_before(hay, b, x);
        lemma_runs_before(hay, b, y, k - 1);
        assert(spans_from(head, i) =~= seq![(x, y)] + spans_from(head, y));
        assert forall|q: int| 0 <= q < k implies #[trigger] spans_from(head, i)[q] == whole[q] by {
            if q > 0 {
                assert(spans_from(head, i)[q] == spans_from(head, y)[q - 1]);
                assert(whole[q] == rest[q - 1]);
            }
        }
    }
}

proof fn lemma_word_end_before(hay: Seq<char>, b: int, x: int)
    requires
        0 <= x <= word_end(hay, x) <= b <= hay.len(),
    ensures
        word_end(hay.take(b), x) == word_end(hay, x),
    decreases hay.len() - x,
{
    let head = hay.take(b);
    if x < hay.len() && !white(hay[x]) {
        lemma_word_end(hay, x + 1);
        assert(head[x] == hay[x]);
        lemma_word_end_before(hay, b, x + 1);
    } else if x < b {
        assert(head[x] == hay[x]);
    }
}

/// Where a passage stands in a text in none of the other ways, but a part of the
/// text folds to what the passage folds to, the range found is exactly that part.
pub proof fn law_folded_passage(a: Seq<char>, part: Seq<char>, c: Seq<char>, needle: Seq<char>)
    requires
        folded(part) == folded(needle),
        folded(a + part + c) != a + part + c || folded(needle) != needle,
        first_occurrence(folded(a + part + c), folded(needle)) == Some(folded(a).len() as int),
        forall|j: int| !occurs_at(a + part + c, needle, j),
        forall|j: int| !occurs_at(words(a + part + c), words(needle), j),
        without_closing(needle) == needle || without_closing(needle).len() == 0 || forall|j: int|
            !occurs_at(a + part + c, without_closing(needle), j),
    ensures
        replace_range(a + part + c, needle) == Some(
            (a.len() as int, (a.len() + part.len()) as int),
        ),
{
    let hay = a + part + c;
    lemma_occurrence(hay, needle, 0);
    lemma_occurrence(words(hay), words(needle), 0);
    lemma_occurrence(hay, without_closing(needle), 0);
    let n = a.len() as int;
    let m = (a.len() + part.len()) as int;
    assert(hay.take(n) =~= a);
    assert(hay.take(m) =~= a + part);
    law_fold_concat(a, part);
    law_unfolded_exact(hay, n);
    law_unfolded_exact(hay, m);
}

/// Where nothing is found, the passage stands in the text neither as it is, nor by
/// its words, nor without its closing punctuation, nor folded.
pub proof fn law_nothing_found(hay: Seq<char>, needle: Seq<char>, j: int)
    requires
        replace_range(hay, needle) is None,
    ensures
        !occurs_at(hay, needle, j),
        words(needle).len() > 0 ==> !occurs_at(words(hay), words(needle), j),
        without_closing(needle).len() > 0 ==> !occurs_at(hay, without_closing(needle), j),
        !occurs_at(folded(hay), folded(needle), j),
{
    lemma_occurrence(hay, needle, 0);
    lemma_occurrence(words(hay), words(needle), 0);
    lemma_occurrence(hay, without_closing(needle), 0);
    lemma_occurrence(folded(hay), folded(needle), 0);
}

/// A text stands at a place where its characters do.
pub proof fn law_occurs_at<T>(hay: Seq<T>, needle: Seq<T>, i: int)
    ensures
        occurs_at(hay, needle, i) <==> 0 <= i && i + needle.len() <= hay.len() && forall|d: int|
            0 <= d < needle.len() ==> hay[i + d] == #[trigger] needle[d],
{
    if occurs_at(hay, needle, i) {
        assert forall|d: int| 0 <= d < needle.len() implies hay[i + d] == #[trigger] needle[d] by {
            assert(hay.subrange(i, i + needle.len())[d] == hay[i + d]);
        }
    }
    if 0 <= i && i + needle.len() <= hay.len() && forall|d: int|
        0 <= d < needle.len() ==> hay[i + d] == #[trigger] needle[d] {
        assert(hay.subrange(i, i + needle.len()) =~= needle);
    }
}

/// The bytes of a range are those of the characters in it.
pub proof fn law_bytes_of_range(s: Seq<char>, i: int, j: int)
    requires
        0 <= i <= j <= s.len(),
    ensures
        0 <= byte_offset(s, i) <= byte_offset(s, j) <= encode_utf8(s).len(),
        encode_utf8(s).subrange(byte_offset(s, i), byte_offset(s, j)) == encode_utf8(
            s.subrange(i, j),
        ),
        byte_offset(s, 0) == 0,
        byte_offset(s, s.len() as int) == encode_utf8(s).len(),
{
    law_bytes_split(s, j);
    law_bytes_split(s.take(j), i);
    assert(s.take(j).take(i) =~= s.take(i));
    assert(s.take(j).skip(i) =~= s.subrange(i, j));
    assert(encode_utf8(s).subrange(byte_offset(s, i), byte_offset(s, j)) =~= encode_utf8(
        s.subrange(i, j),
    ));
    assert(s.take(0) =~= Seq::empty());
    assert(s.take(s.len() as int) =~= s);
}

} // verus!
