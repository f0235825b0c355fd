//! Splitting text into lines and at separators, and joining it again.
use vstd::prelude::*;
use vstd::string::*;

use crate::text::{
    char_from, chars_between, find_char, lemma_occurrence, lemma_rows_push, lemma_white_end,
    lemma_white_start, occurs_at, rows, string_of, trimmed, white, white_end, white_start,
};

verus! {

broadcast use lemma_rows_push;

/// `s` without a carriage return at its end.
pub open spec fn without_cr(s: Seq<char>) -> Seq<char> {
    if s.len() > 0 && s.last() == '\r' {
        s.drop_last()
    } else {
        s
    }
}

/// The lines of `s`. A line ends with a line feed, or with a carriage return
/// and a line feed; neither belongs to it. The last line need not end so.
pub open spec fn lines_of(s: Seq<char>) -> Seq<Seq<char>>
    decreases s.len(),
{
    if s.len() == 0 {
        Seq::empty()
    } else {
        match char_from(s, '\n', 0) {
            Some(k) => if 0 <= k < s.len() {
                seq![without_cr(s.take(k))] + lines_of(s.skip(k + 1))
            } else {
                Seq::empty()
            },
            None => seq![s],
        }
    }
}

/// The pieces of `s` between the places where `c` stands.
pub open spec fn pieces_of(s: Seq<char>, c: char) -> Seq<Seq<char>>
    decreases s.len(),
{
    match char_from(s, c, 0) {
        Some(k) => if 0 <= k < s.len() {
            seq![s.take(k)] + pieces_of(s.skip(k + 1), c)
        } else {
            Seq::empty()
        },
        None => seq![s],
    }
}

/// The lines one after the other, with a line feed between each two.
pub open spec fn joined(lines: Seq<Seq<char>>) -> Seq<char>
    decreases lines.len(),
{
    if lines.len() == 0 {
        Seq::empty()
    } else if lines.len() == 1 {
        lines[0]
    } else {
        joined(lines.drop_last()) + seq!['\n'] + lines.last()
    }
}

/// What stands before and after the first `c`.
pub open spec fn split_once(s: Seq<char>, c: char) -> Option<(Seq<char>, Seq<char>)> {
    match char_from(s, c, 0) {
        Some(k) => Some((s.take(k), s.skip(k + 1))),
        None => None,
    }
}

/// A character stands where it is found, and nowhere before.
pub proof fn lemma_char_from(s: Seq<char>, c: char, i: int)
    requires
        i >= 0,
    ensures
        match char_from(s, c, i) {
            Some(k) => i <= k < s.len() && s[k] == c && forall|j: int| i <= j < k ==> s[j] != c,
            None => forall|j: int| i <= j < s.len() ==> s[j] != c,
        },
{
    lemma_occurrence(s, seq![c], i);
    assert forall|j: int| i <= j < s.len() && s[j] == c implies occurs_at(s, seq![c], j) by {
        assert(s.subrange(j, j + 1) =~= seq![c]);
    }
    if let Some(k) = char_from(s, c, i) {
        assert(s.subrange(k, k + 1)[0] == s[k]);
    }
}

/// The first place of a character is where it stands and does not stand
/// before.
pub proof fn lemma_char_at(s: Seq<char>, c: char, k: int)
    requires
        0 <= k < s.len(),
        s[k] == c,
        forall|j: int| 0 <= j < k ==> s[j] != c,
    ensures
        char_from(s, c, 0) == Some(k),
{
    lemma_char_from(s, c, 0);
}

/// The lines of `v`.
pub fn split_lines(v: &Vec<char>) -> (r: Vec<Vec<char>>)
    ensures
        rows(r@) == lines_of(v@),
{
    let mut out: Vec<Vec<char>> = Vec::new();
    let mut from: usize = 0;
    let ghost all = v@;
    assert(all.skip(0) =~= all);
    assert(rows(out@) =~= Seq::empty());
    assert(rows(out@) + lines_of(all) =~= lines_of(all));
    while from < v.len()
        invariant
            from <= v@.len(),
            all == v@,
            lines_of(all) == rows(out@) + lines_of(all.skip(from as int)),
        decreases v.len() - from,
    {
        let ghost rest = all.skip(from as int);
        let ghost before = rows(out@);
        match find_char(v, '\n', from) {
            Some(k) => {
                let end: usize = if k > from && v[k - 1] == '\r' {
                    k - 1
                } else {
                    k
                };
                proof {
                    lemma_char_from(all, '\n', from as int);
                    assert forall|j: int| 0 <= j < k - from implies rest[j] != '\n' by {
                        assert(rest[j] == all[from + j]);
                    }
                    lemma_char_at(rest, '\n', k - from);
                    assert(rest.take(k - from) =~= all.subrange(from as int, k as int));
                    assert(without_cr(rest.take(k - from)) =~= all.subrange(
                        from as int,
                        end as int,
                    ));
                    assert(rest.skip(k - from + 1) =~= all.skip(k + 1));
                }
                let line = chars_between(v, from, end);
                out.push(line);
                assert(k < v.len());
                from = k + 1;
                assert(before + lines_of(rest) =~= rows(out@) + lines_of(all.skip(from as int)));
            },
            None => {
                proof {
                    lemma_char_from(all, '\n', from as int);
                    lemma_char_from(rest, '\n', 0);
                    if let Some(k) = char_from(rest, '\n', 0) {
                        assert(rest[k] == all[from + k]);
                    }
                    assert(rest =~= all.subrange(from as int, all.len() as int));
                }
                let line = chars_between(v, from, v.len());
                out.push(line);
                from = v.len();
                assert(all.skip(from as int) =~= Seq::empty());
                assert(before + lines_of(rest) =~= rows(out@) + lines_of(all.skip(from as int)));
            },
        }
    }
    assert(all.skip(from as int) =~= Seq::empty());
    assert(rows(out@) + lines_of(all.skip(from as int)) =~= rows(out@));
    out
}

/// The pieces of `v` between the places where `c` stands.
pub fn split_pieces(v: &Vec<char>, c: char) -> (r: Vec<Vec<char>>)
    ensures
        rows(r@) == pieces_of(v@, c),
{
    let mut out: Vec<Vec<char>> = Vec::new();
    let mut from: usize = 0;
    let ghost all = v@;
    assert(all.skip(0) =~= all);
    assert(rows(out@) =~= Seq::empty());
    assert(rows(out@) + pieces_of(all, c) =~= pieces_of(all, c));
    loop
        invariant_except_break
            pieces_of(all, c) == rows(out@) + pieces_of(all.skip(from as int), c),
        invariant
            from <= v@.len(),
            all == v@,
        ensures
            rows(out@) == pieces_of(all, c),
        decreases v@.len() - from,
    {
        let ghost rest = all.skip(from as int);
        let ghost before = rows(out@);
        match find_char(v, c, from) {
            Some(k) => {
                proof {
                    lemma_char_from(all, c, from as int);
                    assert forall|j: int| 0 <= j < k - from implies rest[j] != c by {
                        assert(rest[j] == all[from + j]);
                    }
                    lemma_char_at(rest, c, k - from);
                    assert(rest.take(k - from) =~= all.subrange(from as int, k as int));
                    assert(rest.skip(k - from + 1) =~= all.skip(k + 1));
                }
                let piece = chars_between(v, from, k);
                out.push(piece);
                assert(k < v.len());
                from = k + 1;
                assert(before + pieces_of(rest, c) =~= rows(out@) + pieces_of(
                    all.skip(from as int),
                    c,
                ));
            },
            None => {
                proof {
                    lemma_char_from(all, c, from as int);
                    lemma_char_from(rest, c, 0);
                    if let Some(k) = char_from(rest, c, 0) {
                        assert(rest[k] == all[from + k]);
                    }
                    assert(rest =~= all.subrange(from as int, all.len() as int));
                }
                let piece = chars_between(v, from, v.len());
                out.push(piece);
                assert(before + pieces_of(rest, c) =~= rows(out@));
                break;
            },
        }
    }
    out
}

/// What stands before and after the first `c`.
pub fn cut_once(v: &Vec<char>, c: char) -> (r: Option<(Vec<char>, Vec<char>)>)
    ensures
        match r {
            Some(p) => split_once(v@, c) == Some((p.0@, p.1@)),
            None => split_once(v@, c) is None,
        },
{
    match find_char(v, c, 0) {
        Some(k) => {
            assert(k < v.len());
            let a = chars_between(v, 0, k);
            let b = chars_between(v, k + 1, v.len());
            assert(a@ =~= v@.take(k as int));
            assert(b@ =~= v@.skip(k + 1));
            Some((a, b))
        },
        None => None,
    }
}

/// The lines one after the other, with a line feed between each two.
pub fn join_lines(lines: &Vec<Vec<char>>) -> (r: String)
    ensures
        r@ == joined(rows(lines@)),
{
    let mut out: String = String::new();
    let ghost all = rows(lines@);
    let mut i: usize = 0;
    assert(all.take(0) =~= Seq::empty());
    while i < lines.len()
        invariant
            i <= lines@.len(),
            all == rows(lines@),
            out@ == joined(all.take(i as int)),
        decreases lines.len() - i,
    {
        assert(all.take(i + 1).drop_last() =~= all.take(i as int));
        if i > 0 {
            out.push('\n');
        }
        let line: String = string_of(&lines[i]);
        out.append(line.as_str());
        assert(out@ =~= joined(all.take(i + 1)));
        i = i + 1;
    }
    assert(all.take(i as int) =~= all);
    out
}

// ---------------------------------------------------------------------------
// Laws
// ---------------------------------------------------------------------------
/// No line feed stands in `s`.
pub open spec fn one_line(s: Seq<char>) -> bool {
    forall|i: int| 0 <= i < s.len() ==> s[i] != '\n'
}

/// Joining from the front is joining from the back.
pub proof fn lemma_joined_front(lines: Seq<Seq<char>>)
    requires
        lines.len() > 1,
    ensures
        joined(lines) == lines[0] + seq!['\n'] + joined(lines.skip(1)),
    decreases lines.len(),
{
    if lines.len() == 2 {
        assert(lines.drop_last() =~= seq![lines[0]]);
        assert(lines.skip(1) =~= seq![lines[1]]);
        assert(joined(lines.drop_last()) == lines[0]);
        assert(joined(lines.skip(1)) == lines[1]);
    } else {
        lemma_joined_front(lines.drop_last());
        assert(lines.drop_last().skip(1) =~= lines.skip(1).drop_last());
        assert(lines.skip(1).last() == lines.last());
        assert(joined(lines) =~= lines[0] + seq!['\n'] + joined(lines.skip(1)));
    }
}

/// The lines of a text have no line feed in them.
pub proof fn lemma_lines_are_single(s: Seq<char>)
    ensures
        forall|i: int| 0 <= i < lines_of(s).len() ==> one_line(#[trigger] lines_of(s)[i]),
    decreases s.len(),
{
    if s.len() > 0 {
        lemma_char_from(s, '\n', 0);
        if let Some(k) = char_from(s, '\n', 0) {
            lemma_lines_are_single(s.skip(k + 1));
            let first = without_cr(s.take(k));
            let rest = lines_of(s.skip(k + 1));
            assert(one_line(first));
            assert forall|i: int| 0 <= i < lines_of(s).len() implies one_line(
                #[trigger] lines_of(s)[i],
            ) by {
                if i > 0 {
                    assert(lines_of(s)[i] == rest[i - 1]);
                }
            }
        }
    }
}

/// Reading back what was joined gives the same lines, but for carriage returns
/// at their ends and an empty last one.
pub proof fn law_lines_of_joined(lines: Seq<Seq<char>>)
    requires
        forall|i: int| 0 <= i < lines.len() ==> one_line(#[trigger] lines[i]),
    ensures
        ({
            let again = lines_of(joined(lines));
            &&& again.len() == lines.len() || (again.len() + 1 == lines.len() && lines.last().len()
                == 0)
            &&& forall|i: int|
                0 <= i < again.len() ==> #[trigger] again[i] == lines[i] || again[i] == without_cr(
                    lines[i],
                )
        }),
    decreases lines.len(),
{
    let text = joined(lines);
    let again = lines_of(text);
    if lines.len() == 1 {
        lemma_char_from(text, '\n', 0);
        assert(one_line(lines[0]));
    } else if lines.len() > 1 {
        lemma_joined_front(lines);
        let first = lines[0];
        let rest = lines.skip(1);
        assert(one_line(first));
        assert forall|j: int| 0 <= j < first.len() implies text[j] != '\n' by {
            assert(text[j] == first[j]);
        }
        assert(text[first.len() as int] == '\n');
        lemma_char_at(text, '\n', first.len() as int);
        assert(text.take(first.len() as int) =~= first);
        assert(text.skip(first.len() as int + 1) =~= joined(rest));
        assert forall|i: int| 0 <= i < rest.len() implies one_line(#[trigger] rest[i]) by {
            assert(rest[i] == lines[i + 1]);
        }
        law_lines_of_joined(rest);
        let more = lines_of(joined(rest));
        assert(again =~= seq![without_cr(first)] + more);
        assert forall|i: int| 0 <= i < again.len() implies #[trigger] again[i] == lines[i]
            || again[i] == without_cr(lines[i]) by {
            if i > 0 {
                assert(again[i] == more[i - 1]);
                assert(rest[i - 1] == lines[i]);
            }
        }
    }
}

/// A carriage return at the end is white space.
pub proof fn lemma_trim_cr(s: Seq<char>)
    ensures
        trimmed(without_cr(s)) == trimmed(s),
{
    if s.len() > 0 && s.last() == '\r' {
        let d = s.drop_last();
        lemma_white_end_prefix(d, s, 0);
        lemma_white_end(d, 0);
        lemma_white_end(s, 0);
        let lo = white_end(d, 0);
        assert(white('\r'));
        if lo < d.len() {
            assert(white_end(s, 0) == lo);
            assert(white_start(s, lo, s.len() as int) == white_start(s, lo, d.len() as int));
            lemma_white_start_prefix(d, s, lo, d.len() as int);
            lemma_white_start(d, lo, d.len() as int);
            let hi = white_start(d, lo, d.len() as int);
            assert(s.subrange(lo, hi) =~= d.subrange(lo, hi));
        } else {
            lemma_white_start(s, white_end(s, 0), s.len() as int);
            lemma_white_start(d, lo, d.len() as int);
            assert(trimmed(s) =~= Seq::empty());
            assert(trimmed(d) =~= Seq::empty());
        }
    }
}

proof fn lemma_white_end_prefix(d: Seq<char>, s: Seq<char>, i: int)
    requires
        0 <= i <= d.len(),
        s.len() == d.len() + 1,
        forall|j: int| 0 <= j < d.len() ==> s[j] == d[j],
        s.last() == '\r',
    ensures
        white_end(d, i) < d.len() ==> white_end(s, i) == white_end(d, i),
        white_end(d, i) >= d.len() ==> white_end(s, i) == s.len(),
    decreases d.len() - i,
{
    if i < d.len() {
        if white(d[i]) {
            lemma_white_end_prefix(d, s, i + 1);
        }
    } else {
        assert(white('\r'));
        assert(white_end(s, i) == white_end(s, i + 1));
    }
}

proof fn lemma_white_start_prefix(d: Seq<char>, s: Seq<char>, lo: int, hi: int)
    requires
        0 <= lo <= hi <= d.len(),
        s.len() >= d.len(),
        forall|j: int| 0 <= j < d.len() ==> s[j] == d[j],
    ensures
        white_start(s, lo, hi) == white_start(d, lo, hi),
    decreases hi - lo,
{
    if lo < hi && white(d[hi - 1]) {
        lemma_white_start_prefix(d, s, lo, hi - 1);
    }
}

/// A text up to the first separator is a piece, and the rest is split in turn; a
/// text without a separator is one piece.
pub proof fn law_pieces(a: Seq<char>, c: char, b: Seq<char>)
    requires
        forall|i: int| 0 <= i < a.len() ==> a[i] != c,
    ensures
        pieces_of(a, c) == seq![a],
        pieces_of(a + seq![c] + b, c) == seq![a] + pieces_of(b, c),
        split_once(a, c) is None,
        split_once(a + seq![c] + b, c) == Some((a, b)),
{
    let s = a + seq![c] + b;
    let n = a.len() as int;
    lemma_char_from(a, c, 0);
    assert(s[n] == c);
    assert forall|j: int| 0 <= j < n implies s[j] != c by {
        assert(s[j] == a[j]);
    }
    lemma_char_at(s, c, n);
    assert(s.take(n) =~= a);
    assert(s.skip(n + 1) =~= b);
}

/// A text up to the first line feed is a line, without a carriage return at its
/// end, and the rest is split in turn. What no line feed ends is a line too,
/// unless there is nothing of it.
pub proof fn law_lines(a: Seq<char>, b: Seq<char>)
    requires
        forall|i: int| 0 <= i < a.len() ==> a[i] != '\n',
    ensures
        lines_of(Seq::empty()) == Seq::<Seq<char>>::empty(),
        a.len() > 0 ==> lines_of(a) == seq![a],
        a.len() > 0 && a.last() == '\r' ==> lines_of(a + seq!['\n'] + b) == seq![a.drop_last()]
            + lines_of(b),
        a.len() == 0 || a.last() != '\r' ==> lines_of(a + seq!['\n'] + b) == seq![a] + lines_of(b),
{
    let s = a + seq!['\n'] + b;
    let n = a.len() as int;
    lemma_char_from(a, '\n', 0);
    assert(s[n] == '\n');
    assert forall|j: int| 0 <= j < n implies s[j] != '\n' by {
        assert(s[j] == a[j]);
    }
    lemma_char_at(s, '\n', n);
    assert(s.take(n) =~= a);
    assert(s.skip(n + 1) =~= b);
}

/// Joining puts each line as it is, with one line feed between each two.
pub proof fn law_joined(lines: Seq<Seq<char>>, line: Seq<char>)
    ensures
        joined(Seq::empty()) == Seq::<char>::empty(),
        joined(seq![line]) == line,
        lines.len() > 0 ==> joined(lines.push(line)) == joined(lines) + seq!['\n'] + line,
{
    assert(lines.push(line).drop_last() =~= lines);
}

} // verus!
