//! Doubles by their bit patterns: what can be decided about a double without
//! computing with it.
//!
//! The bit pattern of a double holds a sign (1 bit), an exponent (11 bits) and
//! a fraction (52 bits). The value of a finite double is a whole number of
//! units of 2^-1074.
use vstd::arithmetic::power2::*;
use vstd::prelude::*;

verus! {

/// The pattern of positive infinity.
pub const INFINITY_BITS: u64 = 0x7FF0_0000_0000_0000;

/// The pattern of one million.
pub const MILLION_BITS: u64 = 0x412E_8480_0000_0000;

/// The pattern of one billion (10^9).
pub const BILLION_BITS: u64 = 0x41CD_CD65_0000_0000;

/// The pattern of 10^15.
pub const QUADRILLION_BITS: u64 = 0x430C_6BF5_2634_0000;

/// One more than the greatest pattern without a sign.
pub const SIGN_BIT: u64 = 0x8000_0000_0000_0000;

/// One more than the greatest fraction.
pub const FRACTION_LIMIT: u64 = 0x0010_0000_0000_0000;

/// The pattern without its sign.
pub open spec fn unsigned_bits(bits: u64) -> int {
    bits as int % SIGN_BIT as int
}

/// The double is below zero, or is the negative zero.
pub open spec fn negative(bits: u64) -> bool {
    bits >= SIGN_BIT
}

/// The double is neither infinite nor a NaN.
pub open spec fn finite(bits: u64) -> bool {
    unsigned_bits(bits) < INFINITY_BITS
}

/// The absolute value of a finite double with the pattern `m` (without sign),
/// in units of 2^-1074.
pub open spec fn units_of(m: int) -> int {
    let exponent = m / (FRACTION_LIMIT as int);
    let fraction = m % (FRACTION_LIMIT as int);
    if exponent == 0 {
        fraction
    } else {
        (FRACTION_LIMIT + fraction) * pow2((exponent - 1) as nat)
    }
}

/// The absolute value of a finite double, in units of 2^-1074.
pub open spec fn units(bits: u64) -> int {
    units_of(unsigned_bits(bits))
}

/// One, in units of 2^-1074.
pub open spec fn one_unit() -> int {
    pow2(1074) as int
}

/// The double is not finite, or its absolute value is more than `n`.
pub open spec fn exceeds(bits: u64, n: int) -> bool {
    finite(bits) ==> units(bits) > n * one_unit()
}

/// The double is the whole number `n`.
pub open spec fn is_whole(bits: u64, n: int) -> bool {
    &&& finite(bits)
    &&& units(bits) == (if n < 0 {
        -n
    } else {
        n
    }) * one_unit()
    &&& n > 0 ==> !negative(bits)
    &&& n < 0 ==> negative(bits)
}

proof fn lemma_units_step(m: int)
    requires
        0 <= m,
    ensures
        units_of(m) < units_of(m + 1),
{
    let f = FRACTION_LIMIT as int;
    let e = m / f;
    let r = m % f;
    assert(m == e * f + r) by (nonlinear_arith)
        requires
            e == m / f,
            r == m % f,
            f > 0,
    ;
    assert(e >= 0) by (nonlinear_arith)
        requires
            e == m / f,
            m >= 0,
            f > 0,
    ;
    if r + 1 < f {
        assert((m + 1) / f == e && (m + 1) % f == r + 1) by (nonlinear_arith)
            requires
                m == e * f + r,
                0 <= r,
                r + 1 < f,
        ;
        if e > 0 {
            lemma_pow2_pos((e - 1) as nat);
            let p = pow2((e - 1) as nat) as int;
            assert((f + r) * p < (f + (r + 1)) * p) by (nonlinear_arith)
                requires
                    p > 0,
            ;
        }
    } else {
        assert((m + 1) / f == e + 1 && (m + 1) % f == 0) by (nonlinear_arith)
            requires
                m == e * f + r,
                r + 1 == f,
                f > 0,
        ;
        lemma_pow2_pos(e as nat);
        if e > 0 {
            lemma_pow2_unfold(e as nat);
            let p = pow2((e - 1) as nat) as int;
            assert((f + r) * p < f * (2 * p)) by (nonlinear_arith)
                requires
                    r + 1 == f,
                    p > 0,
            ;
            lemma_pow2_pos((e - 1) as nat);
        } else {
            lemma2_to64();
        }
    }
}

proof fn lemma_units_order(a: int, b: int)
    requires
        0 <= a < b,
    ensures
        units_of(a) < units_of(b),
    decreases b - a,
{
    lemma_units_step(b - 1);
    if a < b - 1 {
        lemma_units_order(a, b - 1);
    }
}

/// Doubles are ordered as their patterns are: of two doubles without sign, the
/// one with the greater pattern has the greater value.
pub proof fn law_bits_order(a: u64, b: u64)
    ensures
        units(a) < units(b) <==> unsigned_bits(a) < unsigned_bits(b),
        units(a) == units(b) <==> unsigned_bits(a) == unsigned_bits(b),
{
    if unsigned_bits(a) < unsigned_bits(b) {
        lemma_units_order(unsigned_bits(a), unsigned_bits(b));
    } else if unsigned_bits(b) < unsigned_bits(a) {
        lemma_units_order(unsigned_bits(b), unsigned_bits(a));
    }
}

/// A double with the exponent field `e` and the significand `s` is
/// `s * 2^(e - 1075)`.
proof fn lemma_units_at(m: int, e: int, s: int, n: int, k: nat)
    requires
        e >= 1,
        m == e * FRACTION_LIMIT + (s - FRACTION_LIMIT),
        FRACTION_LIMIT <= s < 2 * FRACTION_LIMIT,
        e - 1 + k == 1074,
        s == n * pow2(k),
    ensures
        units_of(m) == n * one_unit(),
{
    let f = FRACTION_LIMIT as int;
    assert(m / f == e && m % f == s - f) by (nonlinear_arith)
        requires
            m == e * f + (s - f),
            f <= s,
            s < 2 * f,
            f > 0,
    ;
    lemma_pow2_adds((e - 1) as nat, k);
    let p = pow2((e - 1) as nat) as int;
    let q = pow2(k) as int;
    assert(s * p == n * (p * q)) by (nonlinear_arith)
        requires
            s == n * q,
    ;
}

/// Powers of two that the patterns are made of.
proof fn lemma_powers()
    ensures
        pow2(3) == 8,
        pow2(23) == 0x80_0000,
        pow2(33) == 0x2_0000_0000,
        pow2(52) == FRACTION_LIMIT,
        pow2(53) == 2 * FRACTION_LIMIT,
{
    lemma2_to64();
    lemma_pow2_adds(32, 1);
    lemma_pow2_adds(32, 20);
    lemma_pow2_adds(32, 21);
}

/// The double with the exponent field `e` and the significand `n * 2^k` is
/// `n`, where the exponent fits.
pub proof fn lemma_small_whole(bits: u64, e: int, n: int, k: nat)
    requires
        k <= 52,
        e - 1 + k == 1074,
        bits == e * FRACTION_LIMIT + (n * pow2(k) - FRACTION_LIMIT),
        FRACTION_LIMIT <= n * pow2(k) < 2 * FRACTION_LIMIT,
        bits < SIGN_BIT,
    ensures
        units(bits) == n * one_unit(),
{
    lemma_units_at(bits as int, e, n * pow2(k), n, k);
}

/// The constants are what their names say.
pub proof fn law_constants()
    ensures
        units(MILLION_BITS) == 1_000_000 * one_unit(),
        units(BILLION_BITS) == 1_000_000_000 * one_unit(),
        units(QUADRILLION_BITS) == 1_000_000_000_000_000 * one_unit(),
{
    lemma_powers();
    lemma_units_at(MILLION_BITS as int, 0x412, 1_000_000int * 0x2_0000_0000, 1_000_000, 33);
    lemma_units_at(BILLION_BITS as int, 0x41C, 1_000_000_000int * 0x80_0000, 1_000_000_000, 23);
    lemma_units_at(
        QUADRILLION_BITS as int,
        0x430,
        1_000_000_000_000_000int * 8,
        1_000_000_000_000_000,
        3,
    );
}

/// The pattern of `bits` without its sign.
fn without_sign(bits: u64) -> (r: u64)
    ensures
        r == unsigned_bits(bits),
{
    if bits >= SIGN_BIT {
        bits - SIGN_BIT
    } else {
        bits
    }
}

/// The pattern of the double that is the whole number `n`, without a sign where
/// `n` is 0.
pub open spec fn whole_bits(n: int) -> u64 {
    if n == 0 {
        0
    } else {
        choose|bits: u64| is_whole(bits, n)
    }
}

/// A whole number other than 0 has one pattern only.
pub proof fn law_whole_has_one_pattern(a: u64, b: u64, n: int)
    requires
        n != 0,
        is_whole(a, n),
        is_whole(b, n),
    ensures
        a == b,
{
    law_bits_order(a, b);
}

/// The pattern of the double that is the whole number `n`.
pub fn double_of_whole(n: i64) -> (r: u64)
    requires
        below_quadrillion(n as int),
    ensures
        r == whole_bits(n as int),
        is_whole(r, n as int),
{
    if n == 0 {
        proof {
            assert(units_of(0) == 0);
        }
        return 0;
    }
    let a: u64 = if n < 0 {
        (-n) as u64
    } else {
        n as u64
    };
    let mut s: u64 = a;
    let mut k: u64 = 0;
    proof {
        lemma_powers();
        lemma2_to64();
    }
    while s < FRACTION_LIMIT
        invariant
            0 < a,
            0 < s < 2 * FRACTION_LIMIT,
            s == a * pow2(k as nat),
            pow2(k as nat) <= s,
            k <= 52,
            pow2(52) == FRACTION_LIMIT,
        decreases 52 - k,
    {
        proof {
            lemma_pow2_unfold((k + 1) as nat);
            let p = pow2(k as nat) as int;
            assert(2 * (a * p) == a * (2 * p)) by (nonlinear_arith);
        }
        s = s * 2;
        k = k + 1;
    }
    let e: u64 = 1075 - k;
    let m: u64 = e * FRACTION_LIMIT + (s - FRACTION_LIMIT);
    let bits: u64 = if n < 0 {
        m + SIGN_BIT
    } else {
        m
    };
    proof {
        lemma_units_at(m as int, e as int, s as int, a as int, k as nat);
        assert(unsigned_bits(bits) == m);
        assert(is_whole(bits, n as int));
        law_whole_has_one_pattern(bits, whole_bits(n as int), n as int);
    }
    bits
}

/// Whether the double is neither infinite nor a NaN.
pub fn is_finite(bits: u64) -> (r: bool)
    ensures
        r == finite(bits),
{
    without_sign(bits) < INFINITY_BITS
}

/// Whether a double is infinite, a NaN, or has an absolute value of more than
/// one million.
pub fn over_million(bits: u64) -> (r: bool)
    ensures
        r == exceeds(bits, 1_000_000),
{
    proof {
        law_constants();
        law_bits_order(MILLION_BITS, bits);
    }
    without_sign(bits) > MILLION_BITS
}

/// Whether a freshly computed double is not finite, or has an absolute value
/// of more than 10^9, and so should not be stored.
pub fn float_oversize(bits: u64) -> (r: bool)
    ensures
        r == exceeds(bits, 1_000_000_000),
{
    proof {
        law_constants();
        law_bits_order(BILLION_BITS, bits);
    }
    without_sign(bits) > BILLION_BITS
}

/// `a` is at least `b`, as doubles compare: never so where one is a NaN.
pub open spec fn at_least(a: u64, b: u64) -> bool {
    &&& unsigned_bits(a) <= INFINITY_BITS
    &&& unsigned_bits(b) <= INFINITY_BITS
    &&& if negative(a) {
        if negative(b) {
            unsigned_bits(a) <= unsigned_bits(b)
        } else {
            unsigned_bits(a) == 0 && unsigned_bits(b) == 0
        }
    } else {
        negative(b) || unsigned_bits(a) >= unsigned_bits(b)
    }
}

/// Whether `a` is at least `b`, as doubles compare.
pub fn is_at_least(a: u64, b: u64) -> (r: bool)
    ensures
        r == at_least(a, b),
{
    let ma: u64 = without_sign(a);
    let mb: u64 = without_sign(b);
    if ma > INFINITY_BITS || mb > INFINITY_BITS {
        false
    } else if a >= SIGN_BIT {
        if b >= SIGN_BIT {
            ma <= mb
        } else {
            ma == 0 && mb == 0
        }
    } else {
        b >= SIGN_BIT || ma >= mb
    }
}

/// A whole number below 10^15 in absolute value.
pub open spec fn below_quadrillion(n: int) -> bool {
    -1_000_000_000_000_000 < n < 1_000_000_000_000_000
}

/// The whole number that a double is, where it is one and its absolute value
/// is below 10^15.
pub open spec fn whole_of(bits: u64) -> Option<i64> {
    if exists|n: i64| below_quadrillion(n as int) && is_whole(bits, n as int) {
        Some(choose|n: i64| below_quadrillion(n as int) && is_whole(bits, n as int))
    } else {
        None
    }
}

/// A double is at most one whole number.
pub proof fn law_whole_is_unique(bits: u64, a: int, b: int)
    requires
        is_whole(bits, a),
        is_whole(bits, b),
    ensures
        a == b,
{
    lemma_pow2_pos(1074);
    let one = one_unit();
    let x: int = if a < 0 {
        -a
    } else {
        a
    };
    let y: int = if b < 0 {
        -b
    } else {
        b
    };
    assert(x == y) by (nonlinear_arith)
        requires
            x * one == y * one,
            one > 0,
    ;
}

/// The whole number that a double is, where it is one and its absolute value
/// is below 10^15.
pub fn whole_number(bits: u64) -> (r: Option<i64>)
    ensures
        r == whole_of(bits),
{
    let r = whole_below_quadrillion(bits);
    proof {
        match r {
            Some(n) => {
                let c = whole_of(bits)->0;
                assert(below_quadrillion(n as int) && is_whole(bits, n as int));
                law_whole_is_unique(bits, n as int, c as int);
            },
            None => {},
        }
    }
    r
}

/// The whole number that a double is, where it is one and its absolute value
/// is below 10^15.
fn whole_below_quadrillion(bits: u64) -> (r: Option<i64>)
    ensures
        match r {
            Some(n) => is_whole(bits, n as int) && -1_000_000_000_000_000 < n
                < 1_000_000_000_000_000,
            None => forall|n: int|
                -1_000_000_000_000_000 < n < 1_000_000_000_000_000 ==> !is_whole(bits, n),
        },
{
    let m: u64 = without_sign(bits);
    let ghost one = one_unit();
    proof {
        lemma_pow2_pos(1074);
        law_constants();
        law_bits_order(QUADRILLION_BITS, bits);
    }
    if m >= QUADRILLION_BITS {
        proof {
            assert forall|n: int|
                -1_000_000_000_000_000 < n < 1_000_000_000_000_000 implies !is_whole(bits, n) by {
                let a: int = if n < 0 {
                    -n
                } else {
                    n
                };
                assert(a * one < 1_000_000_000_000_000 * one) by (nonlinear_arith)
                    requires
                        a < 1_000_000_000_000_000,
                        one > 0,
                ;
            }
        }
        return None;
    }
    if m == 0 {
        proof {
            assert(units_of(0) == 0);
            assert(0 * one == 0);
        }
        return Some(0);
    }
    let e: u64 = m / FRACTION_LIMIT;
    let fraction: u64 = m % FRACTION_LIMIT;
    if e < 1023 {
        proof {
            lemma_below_one(m as int);
            assert forall|n: int|
                -1_000_000_000_000_000 < n < 1_000_000_000_000_000 implies !is_whole(bits, n) by {
                let a: int = if n < 0 {
                    -n
                } else {
                    n
                };
                if a == 0 {
                    assert(a * one == 0);
                    lemma_units_order(0, m as int);
                } else {
                    assert(a * one >= one) by (nonlinear_arith)
                        requires
                            a >= 1,
                            one > 0,
                    ;
                }
            }
        }
        return None;
    }
    assert(1023 <= e <= 1072);
    let s: u64 = FRACTION_LIMIT + fraction;
    let k: u64 = 1075 - e;
    proof {
        lemma_pow2_strictly_increases(k as nat, 53);
        lemma_pow2_pos(k as nat);
    }
    let step: u64 = power_of_two(k);
    let ghost p = pow2((e - 1) as nat) as int;
    proof {
        lemma_pow2_adds((e - 1) as nat, k as nat);
        lemma_pow2_pos((e - 1) as nat);
        assert(one == p * step);
        assert(units(bits) == s * p);
    }
    if s % step != 0 {
        proof {
            assert forall|n: int|
                -1_000_000_000_000_000 < n < 1_000_000_000_000_000 implies !is_whole(bits, n) by {
                let a: int = if n < 0 {
                    -n
                } else {
                    n
                };
                let si = s as int;
                let st = step as int;
                if si * p == a * (p * st) {
                    assert(si == a * st) by (nonlinear_arith)
                        requires
                            si * p == a * (p * st),
                            p > 0,
                    ;
                    assert(si % st == 0) by (nonlinear_arith)
                        requires
                            si == a * st,
                            st > 0,
                    ;
                }
            }
        }
        return None;
    }
    let q: u64 = s / step;
    proof {
        let si = s as int;
        let st = step as int;
        let qi = q as int;
        assert(si == qi * st) by (nonlinear_arith)
            requires
                qi == si / st,
                si % st == 0,
                st > 0,
        ;
        assert(si * p == qi * (p * st)) by (nonlinear_arith)
            requires
                si == qi * st,
        ;
        if q >= 1_000_000_000_000_000 {
            assert(qi * one >= 1_000_000_000_000_000 * one) by (nonlinear_arith)
                requires
                    qi >= 1_000_000_000_000_000,
                    one > 0,
            ;
        }
    }
    if bits >= SIGN_BIT {
        Some(-(q as i64))
    } else {
        Some(q as i64)
    }
}

/// A double whose exponent field is below 1023 is below one.
proof fn lemma_below_one(m: int)
    requires
        0 <= m,
        m / (FRACTION_LIMIT as int) < 1023,
    ensures
        units_of(m) < one_unit(),
{
    let top = 1023 * FRACTION_LIMIT as int;
    assert(m < top) by (nonlinear_arith)
        requires
            m / (FRACTION_LIMIT as int) < 1023,
            top == 1023 * FRACTION_LIMIT as int,
            FRACTION_LIMIT > 0,
    ;
    lemma_units_order(m, top);
    lemma_powers();
    lemma_units_at(top, 1023, FRACTION_LIMIT as int, 1, 52);
}

/// `2^k`.
fn power_of_two(k: u64) -> (r: u64)
    requires
        k <= 52,
    ensures
        r == pow2(k as nat),
{
    let mut r: u64 = 1;
    let mut i: u64 = 0;
    proof {
        lemma2_to64();
    }
    while i < k
        invariant
            i <= k <= 52,
            r == pow2(i as nat),
        decreases k - i,
    {
        proof {
            lemma_pow2_unfold((i + 1) as nat);
            lemma_pow2_strictly_increases(i as nat, 53);
            lemma_powers();
        }
        r = r * 2;
        i = i + 1;
    }
    r
}

/// The value of a finite double, in units of 2^-1074.
pub open spec fn value(bits: u64) -> int {
    if negative(bits) {
        -units(bits)
    } else {
        units(bits)
    }
}

/// Finite doubles compare as their values do, a NaN with nothing, and infinity
/// with every finite double as the greater.
pub proof fn law_at_least(a: u64, b: u64)
    ensures
        finite(a) && finite(b) ==> (at_least(a, b) <==> value(a) >= value(b)),
        unsigned_bits(a) > 0x7FF0_0000_0000_0000 ==> !at_least(a, b) && !at_least(b, a),
        finite(b) ==> at_least(0x7FF0_0000_0000_0000, b) && !at_least(b, 0x7FF0_0000_0000_0000),
{
    law_bits_order(a, b);
    assert(units_of(0) == 0);
    if unsigned_bits(a) > 0 {
        lemma_units_order(0, unsigned_bits(a));
    }
    if unsigned_bits(b) > 0 {
        lemma_units_order(0, unsigned_bits(b));
    }
}

/// A double exceeds a whole number where its absolute value is more, and every
/// double that is not finite does.
pub proof fn law_exceeds(bits: u64, n: int)
    ensures
        !finite(bits) ==> exceeds(bits, n),
        finite(bits) ==> (exceeds(bits, n) <==> value(bits) > n * one_unit() || -value(bits) > n
            * one_unit()) || n < 0,
        finite(bits) <==> unsigned_bits(bits) < 0x7FF0_0000_0000_0000,
        unsigned_bits(bits) == (if bits < 0x8000_0000_0000_0000 {
            bits as int
        } else {
            bits - 0x8000_0000_0000_0000
        }),
        negative(bits) <==> bits >= 0x8000_0000_0000_0000,
{
    assert(units_of(0) == 0);
    if unsigned_bits(bits) > 0 {
        lemma_units_order(0, unsigned_bits(bits));
    }
    lemma_pow2_pos(1074);
    if n >= 0 {
        assert(n * one_unit() >= 0) by (nonlinear_arith)
            requires
                n >= 0,
                one_unit() > 0,
        ;
    }
}

/// A double that is a whole number below 10^15 is that number, and no other is
/// one.
pub proof fn law_whole_of(bits: u64, n: i64)
    requires
        -1_000_000_000_000_000 < n < 1_000_000_000_000_000,
    ensures
        finite(bits) ==> (whole_of(bits) == Some(n) <==> value(bits) == n * one_unit()),
        !finite(bits) ==> whole_of(bits) is None,
{
    lemma_pow2_pos(1074);
    let one = one_unit();
    assert(units_of(0) == 0);
    if unsigned_bits(bits) > 0 {
        lemma_units_order(0, unsigned_bits(bits));
    }
    assert(n > 0 ==> n * one > 0) by (nonlinear_arith)
        requires
            one > 0,
    ;
    assert(n < 0 ==> n * one < 0) by (nonlinear_arith)
        requires
            one > 0,
    ;
    assert((-n) * one == -(n * one)) by (nonlinear_arith);
    assert(0 * one == 0);
    if finite(bits) && value(bits) == n * one {
        assert(is_whole(bits, n as int));
        assert(below_quadrillion(n as int));
        law_whole_is_unique(bits, n as int, whole_of(bits)->0 as int);
    }
    if whole_of(bits) == Some(n) {
        let c = choose|c: i64| below_quadrillion(c as int) && is_whole(bits, c as int);
        assert(is_whole(bits, n as int));
    }
}

/// The pattern of a whole number is one that is it; that of 0 has no sign.
pub proof fn law_whole_bits(n: int, bits: u64)
    requires
        is_whole(bits, n),
    ensures
        is_whole(whole_bits(n), n),
        n != 0 ==> whole_bits(n) == bits,
        n == 0 ==> whole_bits(n) == 0,
{
    if n != 0 {
        law_whole_has_one_pattern(bits, whole_bits(n), n);
    } else {
        assert(units_of(0) == 0);
        assert(finite(0));
        assert(n * one_unit() == 0) by (nonlinear_arith)
            requires
                n == 0,
        ;
    }
}

/// Every double that is no NaN is at least itself, and of two of them one is at
/// least the other.
pub proof fn law_doubles_are_in_order(a: u64, b: u64)
    requires
        unsigned_bits(a) <= 0x7FF0_0000_0000_0000,
        unsigned_bits(b) <= 0x7FF0_0000_0000_0000,
    ensures
        at_least(a, a),
        at_least(a, b) || at_least(b, a),
{
}

} // verus!
