//! Strings as sequences of characters: searching, trimming, splitting and
//! writing numbers, each stated over `Seq<char>`.
use vstd::prelude::*;
use vstd::string::*;

verus! {

broadcast use vstd::string::group_string_axioms;

/// The standard library's `String::push`: the character goes to the end.
pub assume_specification[ String::push ](s: &mut String, c: char)
    ensures
        final(s)@ == old(s)@.push(c),
;

// ---------------------------------------------------------------------------
// Characters and strings
// ---------------------------------------------------------------------------
/// The characters of `s`, in order.
pub fn chars_of(s: &str) -> (r: Vec<char>)
    ensures
        r@ == s@,
{
    let mut out: Vec<char> = Vec::new();
    for c in it: s.chars()
        invariant
            it.seq() == s@,
            out@ == s@.take(it.index() as int),
    {
        out.push(c);
    }
    out
}

/// The string made of the characters of `v`, in order.
pub fn string_of(v: &Vec<char>) -> (r: String)
    ensures
        r@ == v@,
{
    string_between(v, 0, v.len())
}

/// The string made of the characters of `v` from index `from` up to `to`.
pub fn string_between(v: &Vec<char>, from: usize, to: usize) -> (r: String)
    requires
        from <= to <= v@.len(),
    ensures
        r@ == v@.subrange(from as int, to as int),
{
    let mut out: String = String::new();
    let mut i: usize = from;
    while i < to
        invariant
            from <= i <= to <= v@.len(),
            out@ == v@.subrange(from as int, i as int),
        decreases to - i,
    {
        out.push(v[i]);
        i = i + 1;
    }
    out
}

/// The characters of `v` from index `from` up to `to`.
pub fn chars_between(v: &Vec<char>, from: usize, to: usize) -> (r: Vec<char>)
    requires
        from <= to <= v@.len(),
    ensures
        r@ == v@.subrange(from as int, to as int),
{
    let mut out: Vec<char> = Vec::new();
    let mut i: usize = from;
    while i < to
        invariant
            from <= i <= to <= v@.len(),
            out@ == v@.subrange(from as int, i as int),
        decreases to - i,
    {
        out.push(v[i]);
        i = i + 1;
    }
    out
}

/// Whether two character vectors hold the same characters.
pub fn same_chars(a: &Vec<char>, b: &Vec<char>) -> (r: bool)
    ensures
        r == (a@ == b@),
{
    if a.len() != b.len() {
        return false;
    }
    let mut i: usize = 0;
    while i < a.len()
        invariant
            i <= a@.len() == b@.len(),
            a@.take(i as int) == b@.take(i as int),
        decreases a.len() - i,
    {
        if a[i] != b[i] {
            assert(a@[i as int] != b@[i as int]);
            return false;
        }
        assert(a@.take(i + 1) =~= a@.take(i as int).push(a@[i as int]));
        assert(b@.take(i + 1) =~= b@.take(i as int).push(b@[i as int]));
        i = i + 1;
    }
    assert(a@.take(i as int) =~= a@);
    assert(b@.take(i as int) =~= b@);
    true
}

/// Whether two strings hold the same characters.
pub fn same_text(a: &str, b: &str) -> (r: bool)
    ensures
        r == (a@ == b@),
{
    same_chars(&chars_of(a), &chars_of(b))
}

/// A string with the characters of `s`.
pub fn copied(s: &str) -> (r: String)
    ensures
        r@ == s@,
{
    s.to_owned()
}

/// The contents of an optional string.
pub open spec fn opt_text(o: Option<String>) -> Option<Seq<char>> {
    match o {
        Some(s) => Some(s@),
        None => None,
    }
}

/// The contents of an optional string slice.
pub open spec fn opt_str(o: Option<&str>) -> Option<Seq<char>> {
    match o {
        Some(s) => Some(s@),
        None => None,
    }
}

/// An optional string with the same contents.
pub fn copied_opt(o: Option<&str>) -> (r: Option<String>)
    ensures
        opt_text(r) == opt_str(o),
{
    match o {
        Some(s) => Some(copied(s)),
        None => None,
    }
}

/// An optional string slice with the same contents.
pub fn borrowed_opt(o: &Option<String>) -> (r: Option<&str>)
    ensures
        opt_str(r) == opt_text(*o),
{
    match o {
        Some(s) => Some(s.as_str()),
        None => None,
    }
}

/// The form in which the standard library's `Debug` shows a string: in quotes,
/// with escapes.
pub uninterp spec fn debug_form(s: Seq<char>) -> Seq<char>;

/// `{:?}` of the standard library's formatting, on a string. Its result is
/// `debug_form`: which characters are escaped, and how, is left to the
/// standard library.
#[verifier::external_body]
pub(crate) fn debug_text(s: &str) -> (r: String)
    ensures
        r@ == debug_form(s@),
{
    format!("{:?}", s)
}

/// The lower-case form of a string, as the standard library has it.
pub uninterp spec fn lowercase(s: Seq<char>) -> Seq<char>;

/// The standard library's `str::to_lowercase`. Its result is `lowercase`: the
/// Unicode tables behind it are left to the standard library.
#[verifier::external_body]
pub(crate) fn to_lowercase(s: &str) -> (r: String)
    ensures
        r@ == lowercase(s@),
{
    s.to_lowercase()
}

/// Unicode's `Alphabetic` or `Numeric` characters, as the standard library
/// classifies them.
pub uninterp spec fn alphanumeric(c: char) -> bool;

/// The letters and digits of ASCII.
pub open spec fn ascii_alphanumeric(c: char) -> bool {
    'a' <= c <= 'z' || 'A' <= c <= 'Z' || '0' <= c <= '9'
}

/// The standard library's `char::is_alphanumeric`. Its result is
/// `alphanumeric`: of ASCII, the letters and digits; the Unicode tables for
/// other characters are left to the standard library.
#[verifier::external_body]
pub(crate) fn is_alphanumeric(c: char) -> (r: bool)
    ensures
        r == alphanumeric(c),
        (c as u32) < 128 ==> r == ascii_alphanumeric(c),
{
    c.is_alphanumeric()
}

// ---------------------------------------------------------------------------
// Searching
// ---------------------------------------------------------------------------
/// `needle` stands in `hay` at index `i`.
pub open spec fn occurs_at<T>(hay: Seq<T>, needle: Seq<T>, i: int) -> bool {
    0 <= i && i + needle.len() <= hay.len() && hay.subrange(i, i + needle.len()) == needle
}

/// The first index from `i` on at which `needle` stands in `hay`.
pub open spec fn occurrence_from<T>(hay: Seq<T>, needle: Seq<T>, i: int) -> Option<int>
    decreases hay.len() - needle.len() - i + 1,
{
    if i < 0 || i + needle.len() > hay.len() {
        None
    } else if occurs_at(hay, needle, i) {
        Some(i)
    } else {
        occurrence_from(hay, needle, i + 1)
    }
}

/// The first index at which `needle` stands in `hay`.
pub open spec fn first_occurrence<T>(hay: Seq<T>, needle: Seq<T>) -> Option<int> {
    occurrence_from(hay, needle, 0)
}

/// `needle` stands somewhere in `hay`.
pub open spec fn contains_text(hay: Seq<char>, needle: Seq<char>) -> bool {
    first_occurrence(hay, needle) is Some
}

/// What `occurrence_from` finds is an occurrence, and none comes before it;
/// where it finds nothing there is none.
pub proof fn lemma_occurrence<T>(hay: Seq<T>, needle: Seq<T>, i: int)
    requires
        i >= 0,
    ensures
        match occurrence_from(hay, needle, i) {
            Some(k) => k >= i && occurs_at(hay, needle, k) && forall|j: int|
                i <= j < k ==> !occurs_at(hay, needle, j),
            None => forall|j: int| i <= j ==> !occurs_at(hay, needle, j),
        },
    decreases hay.len() - needle.len() - i + 1,
{
    if i + needle.len() <= hay.len() && !occurs_at(hay, needle, i) {
        lemma_occurrence(hay, needle, i + 1);
    }
}

/// Where an occurrence exists, `occurrence_from` finds one at or before it.
pub proof fn lemma_occurrence_exists<T>(hay: Seq<T>, needle: Seq<T>, i: int, k: int)
    requires
        0 <= i <= k,
        occurs_at(hay, needle, k),
    ensures
        occurrence_from(hay, needle, i) is Some,
        i <= occurrence_from(hay, needle, i)->0 <= k,
{
    lemma_occurrence(hay, needle, i);
}

/// Whether `needle` stands in `hay` at index `i`.
pub fn stands_at(hay: &Vec<char>, needle: &Vec<char>, i: usize) -> (r: bool)
    ensures
        r == occurs_at(hay@, needle@, i as int),
{
    if needle.len() > hay.len() || i > hay.len() - needle.len() {
        return false;
    }
    let mut j: usize = 0;
    while j < needle.len()
        invariant
            j <= needle@.len(),
            i + needle.len() <= hay.len(),
            hay@.subrange(i as int, i + j) == needle@.take(j as int),
        decreases needle.len() - j,
    {
        if hay[i + j] != needle[j] {
            assert(hay@.subrange(i as int, i + needle@.len())[j as int] == hay@[i + j]);
            return false;
        }
        assert(hay@.subrange(i as int, i + j + 1) =~= hay@.subrange(i as int, i + j).push(
            hay@[i + j],
        ));
        assert(needle@.take(j + 1) =~= needle@.take(j as int).push(needle@[j as int]));
        j = j + 1;
    }
    assert(needle@.take(j as int) =~= needle@);
    true
}

/// The first index from `from` on at which `needle` stands in `hay`.
pub fn find_from(hay: &Vec<char>, needle: &Vec<char>, from: usize) -> (r: Option<usize>)
    ensures
        match r {
            Some(k) => occurrence_from(hay@, needle@, from as int) == Some(k as int),
            None => occurrence_from(hay@, needle@, from as int) is None,
        },
{
    let mut i: usize = from;
    while needle.len() <= hay.len() && i <= hay.len() - needle.len()
        invariant
            occurrence_from(hay@, needle@, from as int) == occurrence_from(
                hay@,
                needle@,
                i as int,
            ),
        decreases hay@.len() - i,
    {
        if stands_at(hay, needle, i) {
            return Some(i);
        }
        if i == hay.len() {
            assert(occurrence_from(hay@, needle@, i + 1) is None);
            return None;
        }
        i = i + 1;
    }
    None
}

/// The first index at which `needle` stands in `hay`.
pub fn find_chars(hay: &Vec<char>, needle: &Vec<char>) -> (r: Option<usize>)
    ensures
        match r {
            Some(k) => first_occurrence(hay@, needle@) == Some(k as int),
            None => first_occurrence(hay@, needle@) is None,
        },
{
    find_from(hay, needle, 0)
}

/// Whether `needle` stands somewhere in `hay`.
pub fn has_text(hay: &str, needle: &str) -> (r: bool)
    ensures
        r == contains_text(hay@, needle@),
{
    find_chars(&chars_of(hay), &chars_of(needle)).is_some()
}

/// `s` begins with `prefix`.
pub open spec fn begins_with(s: Seq<char>, prefix: Seq<char>) -> bool {
    occurs_at(s, prefix, 0)
}

/// `s` ends with `suffix`.
pub open spec fn ends_with(s: Seq<char>, suffix: Seq<char>) -> bool {
    occurs_at(s, suffix, s.len() - suffix.len())
}

/// Whether `s` begins with `prefix`.
pub fn has_prefix(s: &str, prefix: &str) -> (r: bool)
    ensures
        r == begins_with(s@, prefix@),
{
    stands_at(&chars_of(s), &chars_of(prefix), 0)
}

/// Whether `s` ends with `suffix`.
pub fn has_suffix(s: &str, suffix: &str) -> (r: bool)
    ensures
        r == ends_with(s@, suffix@),
{
    let a = chars_of(s);
    let b = chars_of(suffix);
    if b.len() > a.len() {
        return false;
    }
    stands_at(&a, &b, a.len() - b.len())
}

/// The first index from `i` on at which `c` stands in `s`.
pub open spec fn char_from(s: Seq<char>, c: char, i: int) -> Option<int> {
    occurrence_from(s, seq![c], i)
}

/// The first index from `from` on at which `c` stands in `v`.
pub fn find_char(v: &Vec<char>, c: char, from: usize) -> (r: Option<usize>)
    ensures
        match r {
            Some(k) => char_from(v@, c, from as int) == Some(k as int) && from <= k < v@.len()
                && v@[k as int] == c,
            None => char_from(v@, c, from as int) is None,
        },
{
    let mut needle: Vec<char> = Vec::new();
    needle.push(c);
    assert(needle@ =~= seq![c]);
    let r = find_from(v, &needle, from);
    proof {
        lemma_occurrence(v@, seq![c], from as int);
        if let Some(k) = r {
            assert(v@.subrange(k as int, k + 1)[0] == v@[k as int]);
        }
    }
    r
}

// ---------------------------------------------------------------------------
// White space and trimming
// ---------------------------------------------------------------------------
/// The characters with the Unicode property `White_Space`.
pub open spec fn white(c: char) -> bool {
    let u = c as u32;
    ||| 0x9 <= u <= 0xD
    ||| u == 0x20
    ||| u == 0x85
    ||| u == 0xA0
    ||| u == 0x1680
    ||| 0x2000 <= u <= 0x200A
    ||| u == 0x2028
    ||| u == 0x2029
    ||| u == 0x202F
    ||| u == 0x205F
    ||| u == 0x3000
}

/// Whether `c` is white space.
pub fn is_white(c: char) -> (r: bool)
    ensures
        r == white(c),
{
    let u: u32 = c as u32;
    (0x9 <= u && u <= 0xD) || u == 0x20 || u == 0x85 || u == 0xA0 || u == 0x1680 || (0x2000 <= u
        && u <= 0x200A) || u == 0x2028 || u == 0x2029 || u == 0x202F || u == 0x205F || u == 0x3000
}

/// The first index from `i` on whose character is not white space, or the
/// length of `s`.
pub open spec fn white_end(s: Seq<char>, i: int) -> int
    decreases s.len() - i,
{
    if 0 <= i < s.len() && white(s[i]) {
        white_end(s, i + 1)
    } else {
        i
    }
}

/// The first index from `i` on whose character is white space, or the length
/// of `s`.
pub open spec fn word_end(s: Seq<char>, i: int) -> int
    decreases s.len() - i,
{
    if 0 <= i < s.len() && !white(s[i]) {
        word_end(s, i + 1)
    } else {
        i
    }
}

/// The length of `s[lo..hi]`, counted from 0, without white space at its end.
pub open spec fn white_start(s: Seq<char>, lo: int, hi: int) -> int
    decreases hi - lo,
{
    if lo < hi <= s.len() && white(s[hi - 1]) {
        white_start(s, lo, hi - 1)
    } else {
        hi
    }
}

/// `s` without white space at either end.
pub open spec fn trimmed(s: Seq<char>) -> Seq<char> {
    let lo = white_end(s, 0);
    s.subrange(lo, white_start(s, lo, s.len() as int))
}

pub proof fn lemma_white_end(s: Seq<char>, i: int)
    requires
        0 <= i <= s.len(),
    ensures
        i <= white_end(s, i) <= s.len(),
        forall|j: int| i <= j < white_end(s, i) ==> white(s[j]),
        white_end(s, i) < s.len() ==> !white(s[white_end(s, i)]),
    decreases s.len() - i,
{
    if i < s.len() && white(s[i]) {
        lemma_white_end(s, i + 1);
    }
}

pub proof fn lemma_word_end(s: Seq<char>, i: int)
    requires
        0 <= i <= s.len(),
    ensures
        i <= word_end(s, i) <= s.len(),
        i < s.len() && !white(s[i]) ==> i < word_end(s, i),
        forall|j: int| i <= j < word_end(s, i) ==> !white(s[j]),
    decreases s.len() - i,
{
    if i < s.len() && !white(s[i]) {
        lemma_word_end(s, i + 1);
    }
}

pub proof fn lemma_white_start(s: Seq<char>, lo: int, hi: int)
    requires
        0 <= lo <= hi <= s.len(),
    ensures
        lo <= white_start(s, lo, hi) <= hi,
        forall|j: int| white_start(s, lo, hi) <= j < hi ==> white(s[j]),
        white_start(s, lo, hi) > lo ==> !white(s[white_start(s, lo, hi) - 1]),
    decreases hi - lo,
{
    if lo < hi && white(s[hi - 1]) {
        lemma_white_start(s, lo, hi - 1);
    }
}

/// Where the white space that starts at `from` ends.
pub fn skip_white(v: &Vec<char>, from: usize) -> (r: usize)
    requires
        from <= v@.len(),
    ensures
        r == white_end(v@, from as int),
        from <= r <= v@.len(),
{
    let mut i: usize = from;
    while i < v.len() && is_white(v[i])
        invariant
            from <= i <= v@.len(),
            white_end(v@, from as int) == white_end(v@, i as int),
        decreases v.len() - i,
    {
        i = i + 1;
    }
    i
}

/// Where the word that starts at `from` ends.
pub fn skip_word(v: &Vec<char>, from: usize) -> (r: usize)
    requires
        from <= v@.len(),
    ensures
        r == word_end(v@, from as int),
        from <= r <= v@.len(),
{
    let mut i: usize = from;
    while i < v.len() && !is_white(v[i])
        invariant
            from <= i <= v@.len(),
            word_end(v@, from as int) == word_end(v@, i as int),
        decreases v.len() - i,
    {
        i = i + 1;
    }
    i
}

/// `v` without white space at either end.
pub fn trim_chars(v: &Vec<char>) -> (r: Vec<char>)
    ensures
        r@ == trimmed(v@),
{
    let lo: usize = skip_white(v, 0);
    let mut hi: usize = v.len();
    while lo < hi && is_white(v[hi - 1])
        invariant
            lo <= hi <= v@.len(),
            white_start(v@, lo as int, v@.len() as int) == white_start(v@, lo as int, hi as int),
        decreases hi,
    {
        hi = hi - 1;
    }
    chars_between(v, lo, hi)
}

// ---------------------------------------------------------------------------
// Words
// ---------------------------------------------------------------------------
/// The contents of a vector of character vectors.
pub open spec fn rows(v: Seq<Vec<char>>) -> Seq<Seq<char>> {
    Seq::new(v.len(), |i: int| v[i]@)
}

/// The contents of a vector of strings.
pub open spec fn texts(v: Seq<String>) -> Seq<Seq<char>> {
    Seq::new(v.len(), |i: int| v[i]@)
}

pub broadcast proof fn lemma_rows_push(v: Seq<Vec<char>>, x: Vec<char>)
    ensures
        #[trigger] rows(v.push(x)) == rows(v).push(x@),
{
    assert(rows(v.push(x)) =~= rows(v).push(x@));
}

pub broadcast proof fn lemma_texts_push(v: Seq<String>, x: String)
    ensures
        #[trigger] texts(v.push(x)) == texts(v).push(x@),
{
    assert(texts(v.push(x)) =~= texts(v).push(x@));
}

pub broadcast proof fn lemma_texts_concat(v: Seq<String>, w: Seq<String>)
    ensures
        #[trigger] texts(v + w) == texts(v) + texts(w),
{
    assert(texts(v + w) =~= texts(v) + texts(w));
}

/// The maximal runs of characters other than white space in `s` from index `i`
/// on, each with the index at which it starts and the one at which it ends.
pub open spec fn spans_from(s: Seq<char>, i: int) -> Seq<(int, int)>
    decreases s.len() - i,
{
    let a = white_end(s, i);
    let b = word_end(s, a);
    if i < 0 || a >= s.len() || b <= i || b > s.len() {
        Seq::empty()
    } else {
        seq![(a, b)] + spans_from(s, b)
    }
}

/// The words of `s`: the runs between white space.
pub open spec fn words(s: Seq<char>) -> Seq<Seq<char>> {
    let spans = spans_from(s, 0);
    Seq::new(spans.len(), |k: int| s.subrange(spans[k].0, spans[k].1))
}

/// Every span lies in the text and holds at least one character.
pub proof fn lemma_spans(s: Seq<char>, i: int)
    requires
        0 <= i <= s.len(),
    ensures
        forall|k: int|
            0 <= k < spans_from(s, i).len() ==> i <= (#[trigger] spans_from(s, i)[k]).0
                < spans_from(s, i)[k].1 <= s.len(),
        forall|k: int, l: int|
            0 <= k < l < spans_from(s, i).len() ==> (#[trigger] spans_from(s, i)[k]).1 <= (
            #[trigger] spans_from(s, i)[l]).0,
    decreases s.len() - i,
{
    lemma_white_end(s, i);
    let a = white_end(s, i);
    if a < s.len() {
        lemma_word_end(s, a);
        let b = word_end(s, a);
        lemma_spans(s, b);
        let all = spans_from(s, i);
        let rest = spans_from(s, b);
        assert(all =~= seq![(a, b)] + rest);
        assert forall|k: int| 0 <= k < all.len() implies i <= (#[trigger] all[k]).0 < all[k].1
            <= s.len() by {
            if k > 0 {
                assert(all[k] == rest[k - 1]);
            }
        }
        assert forall|k: int, l: int| 0 <= k < l < all.len() implies (#[trigger] all[k]).1 <= (
        #[trigger] all[l]).0 by {
            assert(all[l] == rest[l - 1]);
            if k > 0 {
                assert(all[k] == rest[k - 1]);
            }
        }
    }
}

/// The spans of the words of `v`.
pub fn word_spans(v: &Vec<char>) -> (r: Vec<(usize, usize)>)
    ensures
        r@.len() == spans_from(v@, 0).len(),
        forall|k: int|
            0 <= k < r@.len() ==> spans_from(v@, 0)[k] == ((#[trigger] r@[k]).0 as int, r@[k].1 as int)
                && r@[k].0 < r@[k].1 <= v@.len(),
        forall|k: int, l: int| 0 <= k < l < r@.len() ==> (#[trigger] r@[k]).1 <= (#[trigger] r@[l]).0,
{
    let mut out: Vec<(usize, usize)> = Vec::new();
    let ghost whole = spans_from(v@, 0);
    let mut i: usize = skip_white(v, 0);
    proof {
        lemma_white_end(v@, 0);
        assert(spans_from(v@, 0) =~= spans_from(v@, i as int)) by {
            lemma_white_end(v@, 0);
            lemma_white_end(v@, i as int);
            lemma_word_end(v@, i as int);
        }
    }
    while i < v.len()
        invariant
            i <= v@.len(),
            i < v@.len() ==> !white(v@[i as int]),
            whole == spans_from(v@, 0),
            whole.len() == out@.len() + spans_from(v@, i as int).len(),
            forall|k: int|
                0 <= k < out@.len() ==> whole[k] == ((#[trigger] out@[k]).0 as int, out@[k].1 as int),
            forall|k: int|
                0 <= k < spans_from(v@, i as int).len() ==> whole[out@.len() + k]
                    == #[trigger] spans_from(v@, i as int)[k],
        decreases v.len() - i,
    {
        let b: usize = skip_word(v, i);
        proof {
            lemma_word_end(v@, i as int);
            lemma_white_end(v@, b as int);
            assert(white_end(v@, i as int) == i);
        }
        let next: usize = skip_white(v, b);
        proof {
            lemma_white_end(v@, next as int);
            lemma_word_end(v@, next as int);
            assert(white_end(v@, next as int) == next);
            assert(spans_from(v@, b as int) =~= spans_from(v@, next as int));
            let rest = spans_from(v@, next as int);
            assert(spans_from(v@, i as int) =~= seq![(i as int, b as int)] + rest);
            assert(spans_from(v@, i as int)[0] == (i as int, b as int));
            assert forall|k: int| 0 <= k < rest.len() implies whole[out@.len() + 1 + k]
                == #[trigger] rest[k] by {
                assert(spans_from(v@, i as int)[k + 1] == rest[k]);
            }
        }
        out.push((i, b));
        i = next;
    }
    proof {
        assert(spans_from(v@, i as int) =~= Seq::empty());
        lemma_spans(v@, 0);
        assert forall|k: int, l: int| 0 <= k < l < out@.len() implies (#[trigger] out@[k]).1 <= (
        #[trigger] out@[l]).0 by {
            assert(whole[k].1 <= whole[l].0);
        }
    }
    out
}

/// The words that stand at the given spans of `v`.
pub fn words_at(v: &Vec<char>, spans: &Vec<(usize, usize)>) -> (r: Vec<Vec<char>>)
    requires
        forall|k: int| 0 <= k < spans@.len() ==> (#[trigger] spans@[k]).0 <= spans@[k].1 <= v@.len(),
    ensures
        rows(r@) == Seq::new(
            spans@.len(),
            |k: int| v@.subrange(spans@[k].0 as int, spans@[k].1 as int),
        ),
{
    let mut out: Vec<Vec<char>> = Vec::new();
    let mut i: usize = 0;
    while i < spans.len()
        invariant
            i <= spans@.len(),
            out@.len() == i,
            forall|k: int| 0 <= k < spans@.len() ==> (#[trigger] spans@[k]).0 <= spans@[k].1 <= v@.len(),
            forall|k: int|
                0 <= k < i ==> (#[trigger] out@[k])@ == v@.subrange(
                    spans@[k].0 as int,
                    spans@[k].1 as int,
                ),
        decreases spans.len() - i,
    {
        out.push(chars_between(v, spans[i].0, spans[i].1));
        i = i + 1;
    }
    assert(rows(out@) =~= Seq::new(
        spans@.len(),
        |k: int| v@.subrange(spans@[k].0 as int, spans@[k].1 as int),
    ));
    out
}

/// Whether the rows of `needle` stand in `hay` at index `i`.
fn rows_stand_at(hay: &Vec<Vec<char>>, needle: &Vec<Vec<char>>, i: usize) -> (r: bool)
    requires
        i + needle.len() <= hay.len(),
    ensures
        r == occurs_at(rows(hay@), rows(needle@), i as int),
{
    let ghost h = rows(hay@);
    let ghost n = rows(needle@);
    let mut j: usize = 0;
    while j < needle.len()
        invariant
            j <= needle@.len(),
            i + needle.len() <= hay.len(),
            h == rows(hay@),
            n == rows(needle@),
            forall|k: int| 0 <= k < j ==> h[i + k] == #[trigger] n[k],
        decreases needle.len() - j,
    {
        if !same_chars(&hay[i + j], &needle[j]) {
            assert(h[i + j] != n[j as int]);
            assert(h.subrange(i as int, i + n.len())[j as int] == h[i + j]);
            return false;
        }
        assert(h[i + j] == n[j as int]);
        j = j + 1;
    }
    assert(h.subrange(i as int, i + n.len()) =~= n);
    true
}

/// The first index at which the rows of `needle` stand in `hay`.
pub fn find_rows(hay: &Vec<Vec<char>>, needle: &Vec<Vec<char>>) -> (r: Option<usize>)
    ensures
        match r {
            Some(k) => first_occurrence(rows(hay@), rows(needle@)) == Some(k as int) && k
                + needle@.len() <= hay@.len(),
            None => first_occurrence(rows(hay@), rows(needle@)) is None,
        },
{
    let mut i: usize = 0;
    while needle.len() <= hay.len() && i <= hay.len() - needle.len()
        invariant
            first_occurrence(rows(hay@), rows(needle@)) == occurrence_from(
                rows(hay@),
                rows(needle@),
                i as int,
            ),
        decreases hay@.len() - i,
    {
        if rows_stand_at(hay, needle, i) {
            return Some(i);
        }
        if i == hay.len() {
            assert(occurrence_from(rows(hay@), rows(needle@), i + 1) is None);
            return None;
        }
        i = i + 1;
    }
    None
}

// ---------------------------------------------------------------------------
// Numbers
// ---------------------------------------------------------------------------
/// The character of a decimal digit.
pub open spec fn digit_char(d: int) -> char {
    (48 + d) as char
}

/// `n` in decimal, without leading zeros.
pub open spec fn dec(n: nat) -> Seq<char>
    decreases n,
{
    if n < 10 {
        seq![digit_char(n as int)]
    } else {
        dec(n / 10).push(digit_char((n % 10) as int))
    }
}

/// `n` in decimal, with a minus sign where it is negative.
pub open spec fn int_dec(n: int) -> Seq<char> {
    if n < 0 {
        seq!['-'] + dec((-n) as nat)
    } else {
        dec(n as nat)
    }
}

/// How a boolean is written.
pub open spec fn bool_form(b: bool) -> Seq<char> {
    if b {
        "true"@
    } else {
        "false"@
    }
}

/// How a boolean is written.
pub fn bool_text(b: bool) -> (r: &'static str)
    ensures
        r@ == bool_form(b),
{
    if b {
        "true"
    } else {
        "false"
    }
}

/// The character of a decimal digit.
fn digit_of(d: u8) -> (r: char)
    requires
        d < 10,
    ensures
        r == digit_char(d as int),
{
    (48u8 + d) as char
}

/// `n` in decimal.
pub fn dec_text(n: u128) -> (r: String)
    ensures
        r@ == dec(n as nat),
    decreases n,
{
    if n < 10 {
        let mut s: String = String::new();
        s.push(digit_of(n as u8));
        assert(s@ =~= dec(n as nat));
        s
    } else {
        let mut s: String = dec_text(n / 10);
        s.push(digit_of((n % 10) as u8));
        s
    }
}

/// `n` in decimal, with a minus sign where it is negative.
pub fn int_text(n: i128) -> (r: String)
    ensures
        r@ == int_dec(n as int),
{
    if n < 0 {
        let magnitude: u128 = ((-(n + 1)) as u128) + 1;
        let mut s: String = String::new();
        s.push('-');
        let digits: String = dec_text(magnitude);
        s.append(digits.as_str());
        assert(s@ =~= seq!['-'] + dec(magnitude as nat));
        s
    } else {
        dec_text(n as u128)
    }
}

// ---------------------------------------------------------------------------
// Laws
// ---------------------------------------------------------------------------
/// White space is the tab and the other line controls, the plain, the next-line
/// and the no-break characters, and the spaces and separators of Unicode.
pub proof fn law_white_space(c: char)
    ensures
        white(c) <==> (c == '\u{9}' || c == '\u{A}' || c == '\u{B}' || c == '\u{C}' || c == '\u{D}'
            || c == ' ' || c == '\u{85}' || c == '\u{A0}' || c == '\u{1680}' || c == '\u{2000}' || c
            == '\u{2001}' || c == '\u{2002}' || c == '\u{2003}' || c == '\u{2004}' || c
            == '\u{2005}' || c == '\u{2006}' || c == '\u{2007}' || c == '\u{2008}' || c
            == '\u{2009}' || c == '\u{200A}' || c == '\u{2028}' || c == '\u{2029}' || c
            == '\u{202F}' || c == '\u{205F}' || c == '\u{3000}'),
{
}

/// A search finds the first place at which the characters of `needle` stand, and
/// finds nothing only where they stand nowhere.
pub proof fn law_first_occurrence<T>(hay: Seq<T>, needle: Seq<T>)
    ensures
        match first_occurrence(hay, needle) {
            Some(i) => {
                &&& 0 <= i && i + needle.len() <= hay.len()
                &&& forall|d: int| 0 <= d < needle.len() ==> hay[i + d] == #[trigger] needle[d]
                &&& forall|j: int|
                    0 <= j < i ==> #[trigger] hay.subrange(j, j + needle.len()) != needle
            },
            None => forall|j: int|
                0 <= j && j + needle.len() <= hay.len() ==> #[trigger] hay.subrange(
                    j,
                    j + needle.len(),
                ) != needle,
        },
{
    lemma_occurrence(hay, needle, 0);
    match first_occurrence(hay, needle) {
        Some(i) => {
            assert forall|d: int| 0 <= d < needle.len() implies hay[i + d] == #[trigger] needle[d] by {
                assert(hay.subrange(i, i + needle.len())[d] == hay[i + d]);
            }
            assert forall|j: int| 0 <= j < i implies #[trigger] hay.subrange(j, j + needle.len())
                != needle by {
                assert(!occurs_at(hay, needle, j));
            }
        },
        None => {
            assert forall|j: int| 0 <= j && j + needle.len() <= hay.len() implies #[trigger] hay.subrange(
                j,
                j + needle.len(),
            ) != needle by {
                assert(!occurs_at(hay, needle, j));
            }
        },
    }
}

/// A text stands in every text that is made of something, it, and something
/// else; begins every text that goes on from it; and ends every text that comes
/// to it.
pub proof fn law_parts_are_found(a: Seq<char>, s: Seq<char>, b: Seq<char>)
    ensures
        contains_text(a + s + b, s),
        begins_with(s + b, s),
        ends_with(a + s, s),
{
    let all = a + s + b;
    let n = a.len() as int;
    assert(all.subrange(n, n + s.len()) =~= s);
    lemma_occurrence_exists(all, s, 0, n);
    assert((s + b).subrange(0, s.len() as int) =~= s);
    assert((a + s).subrange(n, n + s.len()) =~= s);
}

/// A text that contains, begins with or ends with another is made of it and of
/// what stands around it.
pub proof fn law_found_parts_are_there(s: Seq<char>, part: Seq<char>)
    ensures
        contains_text(s, part) ==> exists|i: int|
            0 <= i && i + part.len() <= s.len() && s == #[trigger] s.take(i) + part + s.skip(
                i + part.len(),
            ),
        begins_with(s, part) ==> part.len() <= s.len() && s == part + s.skip(part.len() as int),
        ends_with(s, part) ==> part.len() <= s.len() && s == s.take(s.len() - part.len()) + part,
{
    lemma_occurrence(s, part, 0);
    if let Some(i) = first_occurrence(s, part) {
        lemma_split_around(s, part, i);
    }
    if begins_with(s, part) {
        lemma_split_around(s, part, 0);
        assert(s.take(0) + part + s.skip(part.len() as int) =~= part + s.skip(part.len() as int));
    }
    if ends_with(s, part) {
        let n = s.len() - part.len();
        lemma_split_around(s, part, n);
        assert(s.take(n) + part + s.skip(n + part.len()) =~= s.take(n) + part);
    }
}

proof fn lemma_split_around(s: Seq<char>, part: Seq<char>, i: int)
    requires
        occurs_at(s, part, i),
    ensures
        s == s.take(i) + part + s.skip(i + part.len()),
{
    let again = s.take(i) + part + s.skip(i + part.len());
    assert forall|j: int| 0 <= j < s.len() implies s[j] == again[j] by {
        if i <= j < i + part.len() {
            assert(s.subrange(i, i + part.len())[j - i] == s[j]);
        }
    }
    assert(s =~= again);
}

/// Trimming takes away exactly the white space around a text that neither begins
/// nor ends with it.
pub proof fn law_trim_takes_the_surrounding(before: Seq<char>, core: Seq<char>, after: Seq<char>)
    requires
        forall|i: int| 0 <= i < before.len() ==> white(#[trigger] before[i]),
        forall|i: int| 0 <= i < after.len() ==> white(#[trigger] after[i]),
        core.len() > 0 ==> !white(core[0]) && !white(core.last()),
    ensures
        trimmed(before + core + after) == core,
{
    let s = before + core + after;
    lemma_white_end(s, 0);
    let lo = white_end(s, 0);
    assert forall|i: int| 0 <= i < before.len() implies white(#[trigger] s[i]) by {
        assert(s[i] == before[i]);
    }
    assert forall|i: int| before.len() + core.len() <= i < s.len() implies white(#[trigger] s[i]) by {
        assert(s[i] == after[i - before.len() - core.len()]);
    }
    if core.len() > 0 {
        assert(s[before.len() as int] == core[0]);
        assert(lo == before.len()) by {
            if lo < before.len() {
                assert(white(s[lo]));
            }
        }
        let end = before.len() + core.len();
        assert(s[end - 1] == core.last());
        lemma_white_start(s, lo, s.len() as int);
        let hi = white_start(s, lo, s.len() as int);
        assert(hi == end) by {
            if hi > end {
                assert(white(s[hi - 1]));
            }
        }
        assert(s.subrange(lo, hi) =~= core);
    } else {
        assert(lo == s.len()) by {
            if lo < s.len() {
                assert(white(s[lo]));
            }
        }
        lemma_white_start(s, lo, s.len() as int);
        assert(trimmed(s) =~= core);
    }
}

/// The words of a text are its runs without white space: in a span there is none,
/// everything else is in a span, and between two spans there is some. Each word
/// is what stands in its span.
pub proof fn law_words_are_runs(s: Seq<char>)
    ensures
        words(s).len() == spans_from(s, 0).len(),
        forall|k: int|
            0 <= k < words(s).len() ==> {
                let span = #[trigger] spans_from(s, 0)[k];
                &&& 0 <= span.0 < span.1 <= s.len()
                &&& words(s)[k] == s.subrange(span.0, span.1)
                &&& forall|j: int| span.0 <= j < span.1 ==> !white(#[trigger] s[j])
                &&& span.1 < s.len() ==> white(s[span.1])
            },
        forall|j: int|
            0 <= j < s.len() && !white(#[trigger] s[j]) ==> exists|k: int|
                0 <= k < spans_from(s, 0).len() && (#[trigger] spans_from(s, 0)[k]).0 <= j
                    < spans_from(s, 0)[k].1,
        forall|k: int, l: int|
            0 <= k < l < spans_from(s, 0).len() ==> (#[trigger] spans_from(s, 0)[k]).1 < (
            #[trigger] spans_from(s, 0)[l]).0,
{
    lemma_runs(s, 0);
}

proof fn lemma_runs(s: Seq<char>, i: int)
    requires
        0 <= i <= s.len(),
    ensures
        forall|k: int|
            0 <= k < spans_from(s, i).len() ==> {
                let span = #[trigger] spans_from(s, i)[k];
                &&& i <= span.0 < span.1 <= s.len()
                &&& forall|j: int| span.0 <= j < span.1 ==> !white(#[trigger] s[j])
                &&& span.1 < s.len() ==> white(s[span.1])
            },
        forall|j: int|
            i <= j < s.len() && !white(#[trigger] s[j]) ==> exists|k: int|
                0 <= k < spans_from(s, i).len() && (#[trigger] spans_from(s, i)[k]).0 <= j
                    < spans_from(s, i)[k].1,
        forall|k: int, l: int|
            0 <= k < l < spans_from(s, i).len() ==> (#[trigger] spans_from(s, i)[k]).1 < (
            #[trigger] spans_from(s, i)[l]).0,
    decreases s.len() - i,
{
    lemma_white_end(s, i);
    let a = white_end(s, i);
    if a < s.len() {
        lemma_word_end(s, a);
        lemma_word_stops(s, a);
        let b = word_end(s, a);
        lemma_runs(s, b);
        let all = spans_from(s, i);
        let rest = spans_from(s, b);
        assert(all =~= seq![(a, b)] + rest);
        assert forall|k: int| 0 <= k < all.len() implies ({
            let span = #[trigger] all[k];
            &&& i <= span.0 < span.1 <= s.len()
            &&& forall|j: int| span.0 <= j < span.1 ==> !white(#[trigger] s[j])
            &&& span.1 < s.len() ==> white(s[span.1])
        }) by {
            if k > 0 {
                assert(all[k] == rest[k - 1]);
            }
        }
        assert forall|j: int| i <= j < s.len() && !white(#[trigger] s[j]) implies exists|k: int|
            0 <= k < all.len() && (#[trigger] all[k]).0 <= j < all[k].1 by {
            if j < b {
                assert(all[0] == (a, b));
            } else {
                let k = choose|k: int| 0 <= k < rest.len() && (#[trigger] rest[k]).0 <= j < rest[k].1;
                assert(all[k + 1] == rest[k]);
            }
        }
        assert forall|k: int, l: int| 0 <= k < l < all.len() implies (#[trigger] all[k]).1 < (
        #[trigger] all[l]).0 by {
            assert(all[l] == rest[l - 1]);
            if k > 0 {
                assert(all[k] == rest[k - 1]);
            } else if rest[l - 1].0 == b {
                assert(!white(s[b]));
            }
        }
    }
}

proof fn lemma_word_stops(s: Seq<char>, i: int)
    requires
        0 <= i <= s.len(),
    ensures
        word_end(s, i) < s.len() ==> white(s[word_end(s, i)]),
    decreases s.len() - i,
{
    if i < s.len() && !white(s[i]) {
        lemma_word_stops(s, i + 1);
    }
}

/// A number below 0 is written as its opposite with a minus sign before it, any
/// other with digits alone; a truth value is written as its word.
pub proof fn law_written_values(n: nat)
    ensures
        int_dec(n as int) == dec(n),
        n > 0 ==> int_dec(-n) == "-"@ + dec(n),
        bool_form(true) == "true"@,
        bool_form(false) == "false"@,
{
    reveal_strlit("-");
    if n > 0 {
        assert(int_dec(-n) =~= "-"@ + dec(n));
    }
}

} // verus!
