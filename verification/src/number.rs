//! Reading whole numbers from text.
use vstd::prelude::*;

use crate::text::{chars_of, dec, digit_char, int_dec};

verus! {

/// `c` is a decimal digit.
pub open spec fn digit(c: char) -> bool {
    '0' <= c <= '9'
}

/// The number that the decimal digits of `s` stand for; `None` without digits,
/// or where another character stands among them.
pub open spec fn digits_value(s: Seq<char>) -> Option<int>
    decreases s.len(),
{
    if s.len() == 0 || !digit(s.last()) {
        None
    } else {
        let d = s.last() as int - '0' as int;
        if s.len() == 1 {
            Some(d)
        } else {
            match digits_value(s.drop_last()) {
                Some(n) => Some(10 * n + d),
                None => None,
            }
        }
    }
}

/// The whole number that `s` stands for: decimal digits after an optional
/// sign.
pub open spec fn signed_value(s: Seq<char>) -> Option<int> {
    if s.len() > 0 && s[0] == '-' {
        match digits_value(s.skip(1)) {
            Some(n) => Some(-n),
            None => None,
        }
    } else {
        unsigned_value(s)
    }
}

/// The natural number that `s` stands for: decimal digits after an optional
/// plus sign.
pub open spec fn unsigned_value(s: Seq<char>) -> Option<int> {
    if s.len() > 0 && s[0] == '+' {
        digits_value(s.skip(1))
    } else {
        digits_value(s)
    }
}

/// The 64-bit number that `s` stands for.
pub open spec fn i64_value(s: Seq<char>) -> Option<i64> {
    match signed_value(s) {
        Some(n) => if i64::MIN <= n <= i64::MAX {
            Some(n as i64)
        } else {
            None
        },
        None => None,
    }
}

/// The size that `s` stands for.
pub open spec fn usize_value(s: Seq<char>) -> Option<usize> {
    match unsigned_value(s) {
        Some(n) => if n <= usize::MAX {
            Some(n as usize)
        } else {
            None
        },
        None => None,
    }
}

/// A number is at least what its first digits stand for.
proof fn lemma_digits_grow(s: Seq<char>, k: int)
    requires
        0 < k <= s.len(),
        digits_value(s) is Some,
    ensures
        digits_value(s.take(k)) is Some,
        0 <= digits_value(s.take(k))->0 <= digits_value(s)->0,
    decreases s.len(),
{
    if k < s.len() {
        lemma_digits_grow(s.drop_last(), k);
        assert(s.drop_last().take(k) =~= s.take(k));
    } else {
        assert(s.take(k) =~= s);
        if s.len() > 1 {
            lemma_digits_grow(s.drop_last(), s.len() - 1);
        }
    }
}

/// Digits that are no number at the start are none as a whole.
proof fn lemma_digits_bad(s: Seq<char>, k: int)
    requires
        0 < k <= s.len(),
        digits_value(s.take(k)) is None,
    ensures
        digits_value(s) is None,
{
    if digits_value(s) is Some {
        lemma_digits_grow(s, k);
    }
}

/// The number that the digits of `v` from index `from` on stand for, where it
/// fits in 64 bits.
fn read_digits(v: &Vec<char>, from: usize) -> (r: Option<u64>)
    requires
        from <= v@.len(),
    ensures
        match r {
            Some(n) => digits_value(v@.skip(from as int)) == Some(n as int),
            None => match digits_value(v@.skip(from as int)) {
                Some(n) => n > u64::MAX,
                None => true,
            },
        },
{
    let ghost s = v@.skip(from as int);
    if from == v.len() {
        return None;
    }
    let mut acc: u64 = 0;
    let mut i: usize = from;
    while i < v.len()
        invariant
            from <= i <= v@.len(),
            from < v@.len(),
            s == v@.skip(from as int),
            i == from ==> acc == 0,
            i > from ==> digits_value(s.take(i - from)) == Some(acc as int),
        decreases v.len() - i,
    {
        let c: char = v[i];
        let ghost shorter = s.take(i - from);
        let ghost longer = s.take(i - from + 1);
        assert(longer.drop_last() =~= shorter);
        assert(longer.last() == c);
        if c < '0' || c > '9' {
            proof {
                lemma_digits_bad(s, i - from + 1);
            }
            return None;
        }
        let d: u64 = (c as u32 - '0' as u32) as u64;
        assert(digits_value(longer) == Some(10 * acc + d));
        if acc > (u64::MAX - d) / 10 {
            proof {
                assert(10 * acc + d > u64::MAX);
                if digits_value(s) is Some {
                    lemma_digits_grow(s, i - from + 1);
                }
            }
            return None;
        }
        acc = acc * 10 + d;
        i = i + 1;
    }
    assert(s.take(i - from) =~= s);
    Some(acc)
}

/// The 64-bit number that the characters of `v` stand for.
pub fn read_i64(v: &Vec<char>) -> (r: Option<i64>)
    ensures
        r == i64_value(v@),
{
    assert(v@.skip(0) =~= v@);
    if v.len() > 0 && v[0] == '-' {
        match read_digits(v, 1) {
            Some(n) => if n <= 0x7FFF_FFFF_FFFF_FFFF {
                Some(-(n as i64))
            } else if n == 0x8000_0000_0000_0000 {
                Some(i64::MIN)
            } else {
                None
            },
            None => None,
        }
    } else {
        let from: usize = if v.len() > 0 && v[0] == '+' {
            1
        } else {
            0
        };
        match read_digits(v, from) {
            Some(n) => if n <= 0x7FFF_FFFF_FFFF_FFFF {
                Some(n as i64)
            } else {
                None
            },
            None => {
                proof {
                    if let Some(n) = digits_value(v@.skip(from as int)) {
                        assert(n > i64::MAX);
                    }
                }
                None
            },
        }
    }
}

/// The size that `s` stands for.
pub fn read_usize(s: &str) -> (r: Option<usize>)
    ensures
        r == usize_value(s@),
{
    let v = chars_of(s);
    assert(v@.skip(0) =~= v@);
    let from: usize = if v.len() > 0 && v[0] == '+' {
        1
    } else {
        0
    };
    match read_digits(&v, from) {
        Some(n) => if n <= usize::MAX as u64 {
            Some(n as usize)
        } else {
            None
        },
        None => None,
    }
}

// ---------------------------------------------------------------------------
// Laws
// ---------------------------------------------------------------------------
/// A text of digits is a number exactly where it has one and nothing else stands
/// in it.
pub proof fn law_digits_only(s: Seq<char>)
    ensures
        digits_value(s) is Some <==> s.len() > 0 && forall|i: int|
            0 <= i < s.len() ==> '0' <= #[trigger] s[i] <= '9',
    decreases s.len(),
{
    if s.len() > 1 {
        let d = s.drop_last();
        law_digits_only(d);
        if digits_value(s) is Some {
            assert forall|i: int| 0 <= i < s.len() implies '0' <= #[trigger] s[i] <= '9' by {
                if i < d.len() {
                    assert(d[i] == s[i]);
                }
            }
        }
        if forall|i: int| 0 <= i < s.len() ==> '0' <= #[trigger] s[i] <= '9' {
            assert forall|i: int| 0 <= i < d.len() implies '0' <= #[trigger] d[i] <= '9' by {
                assert(d[i] == s[i]);
            }
            assert(digit(s[s.len() - 1]));
        }
    } else if s.len() == 1 {
        assert(s.last() == s[0]);
    }
}

/// What is written in decimal reads as the number itself.
pub proof fn law_decimal_reads_back(n: nat)
    ensures
        digits_value(dec(n)) == Some(n as int),
        n > 0 ==> dec(n)[0] != '0',
        dec(n).len() > 0,
        '0' <= dec(n)[0] <= '9',
    decreases n,
{
    let c = digit_char((n % 10) as int);
    assert('0' <= c <= '9' && c as int - '0' as int == n % 10);
    if n >= 10 {
        law_decimal_reads_back(n / 10);
        assert(dec(n).drop_last() =~= dec(n / 10));
        assert(dec(n)[0] == dec(n / 10)[0]);
        assert(dec(n).last() == c);
    } else {
        assert(dec(n).last() == c);
    }
}

/// Zeros before a number do not change it.
pub proof fn law_leading_zeros(s: Seq<char>)
    requires
        s.len() > 0,
    ensures
        digits_value(seq!['0'] + s) == digits_value(s),
    decreases s.len(),
{
    let z = seq!['0'] + s;
    assert(z.last() == s.last());
    if s.len() > 1 {
        law_leading_zeros(s.drop_last());
        assert(z.drop_last() =~= seq!['0'] + s.drop_last());
    } else {
        assert(z.drop_last() =~= seq!['0']);
        assert(digits_value(seq!['0']) == Some(0int));
    }
}

/// A minus sign before digits negates a number and a plus sign leaves it; a size
/// takes a plus sign only.
pub proof fn law_signs(s: Seq<char>)
    requires
        digits_value(s) is Some,
    ensures
        signed_value(s) == digits_value(s),
        signed_value(seq!['+'] + s) == digits_value(s),
        signed_value(seq!['-'] + s) == Some(-digits_value(s)->0),
        unsigned_value(s) == digits_value(s),
        unsigned_value(seq!['+'] + s) == digits_value(s),
        unsigned_value(seq!['-'] + s) is None,
{
    law_digits_only(s);
    assert('0' <= s[0] <= '9');
    assert((seq!['+'] + s).skip(1) =~= s);
    assert((seq!['-'] + s).skip(1) =~= s);
    law_digits_only(seq!['-'] + s);
    assert((seq!['-'] + s)[0] == '-');
}

/// A 64-bit number reads back from how it is written, and so does a size.
pub proof fn law_number_reads_back(n: i64, k: usize)
    ensures
        i64_value(int_dec(n as int)) == Some(n),
        usize_value(dec(k as nat)) == Some(k),
{
    law_decimal_reads_back(k as nat);
    law_signs(dec(k as nat));
    let m: nat = if n < 0 {
        (-(n as int)) as nat
    } else {
        n as nat
    };
    law_decimal_reads_back(m);
    law_signs(dec(m));
}

/// What does not fit in 64 bits is no 64-bit number, and what fits is the one
/// that it stands for; likewise for sizes.
pub proof fn law_numbers_fit(s: Seq<char>)
    ensures
        match i64_value(s) {
            Some(n) => signed_value(s) == Some(n as int),
            None => signed_value(s) is None || signed_value(s)->0 < -0x8000_0000_0000_0000
                || signed_value(s)->0 > 0x7FFF_FFFF_FFFF_FFFF,
        },
        match usize_value(s) {
            Some(n) => unsigned_value(s) == Some(n as int),
            None => unsigned_value(s) is None || unsigned_value(s)->0 > usize::MAX,
        },
{
    if let Some(n) = unsigned_value(s) {
        let d = if s.len() > 0 && s[0] == '+' {
            s.skip(1)
        } else {
            s
        };
        law_digits_only(d);
        lemma_digits_grow(d, d.len() as int);
    }
}

} // verus!
