//! The numbers that doubles stand for, and what IEEE 754 says of computing with
//! them.
use crate::rounding::{self, LEAST, LIMIT};
use vstd::arithmetic::power2::*;
use vstd::prelude::*;

verus! {

/// What a double stands for: a number `±significand * 2^exponent`, an infinity,
/// or no number at all.
pub enum Number {
    NaN,
    Infinite { negative: bool },
    Finite { negative: bool, significand: nat, exponent: int },
}

/// The lesser of two exponents.
pub open spec fn lesser(a: int, b: int) -> int {
    if a <= b {
        a
    } else {
        b
    }
}

/// The distance of an integer from zero.
pub open spec fn distance(a: int) -> nat {
    if a < 0 {
        (-a) as nat
    } else {
        a as nat
    }
}

/// The integer part of `m * 2^e`.
pub open spec fn whole(m: nat, e: int) -> nat {
    if e >= 0 {
        m * pow2(e as nat)
    } else {
        m / pow2((-e) as nat)
    }
}

/// The exponent of the least positive double.
pub const LEAST_EXPONENT: i32 = -1074;

/// The exponent of the greatest double.
pub const GREATEST_EXPONENT: i32 = 971;

/// `(n / d) * 2^e` in units of the least positive double, rounded to an integer.
pub open spec fn subnormal(n: nat, d: nat, e: int) -> nat {
    let k = LEAST_EXPONENT - e;
    rounding::half_even(rounding::scale_up(n, k), rounding::scale_down(d, k))
}

/// `v`, or `-v` where `negative`.
pub open spec fn signed(negative: bool, v: int) -> int {
    if negative {
        -v
    } else {
        v
    }
}

impl Number {
    pub open spec fn zero(negative: bool) -> Number {
        Number::Finite { negative, significand: 0, exponent: 0 }
    }

    /// `±(n / d) * 2^e`, rounded: to 53 significant bits or, where the exponent would
    /// be too small for that, to a multiple of `2^-1074`; to an infinity where it
    /// would be too large.
    pub open spec fn rounded(negative: bool, n: nat, d: nat, e: int) -> Number {
        if n == 0 {
            Number::zero(negative)
        } else {
            let (m, b) = rounding::nearest(n, d);
            if b + e > GREATEST_EXPONENT {
                Number::Infinite { negative }
            } else if b + e >= LEAST_EXPONENT {
                Number::Finite { negative, significand: m, exponent: b + e }
            } else {
                let m = subnormal(n, d, e);
                if m == 0 {
                    Number::zero(negative)
                } else {
                    Number::Finite { negative, significand: m, exponent: LEAST_EXPONENT as int }
                }
            }
        }
    }

    /// The integer `v`, rounded.
    pub open spec fn integer(v: int) -> Number {
        Number::rounded(v < 0, distance(v), 1, 0)
    }

    pub open spec fn is_zero(self) -> bool {
        self matches Number::Finite { significand, .. } && significand == 0
    }

    pub open spec fn is_negative(self) -> bool {
        match self {
            Number::NaN => false,
            Number::Infinite { negative } => negative,
            Number::Finite { negative, .. } => negative,
        }
    }

    /// `self >= 0`, which NaN is not.
    pub open spec fn is_at_least_zero(self) -> bool {
        !(self is NaN) && (self.is_zero() || !self.is_negative())
    }

    /// A finite number in units of `2^k`, where `k` is at most its exponent.
    pub open spec fn units(self, k: int) -> int {
        match self {
            Number::Finite { negative, significand, exponent } => {
                let size = significand * pow2((exponent - k) as nat);
                if negative {
                    -size
                } else {
                    size as int
                }
            },
            _ => 0,
        }
    }

    /// The exponent of a finite number.
    pub open spec fn scale(self) -> int {
        match self {
            Number::Finite { exponent, .. } => exponent,
            _ => 0,
        }
    }

    /// `self / other`.
    pub open spec fn quotient(self, other: Number) -> Number {
        let negative = self.is_negative() != other.is_negative();
        match (self, other) {
            (Number::NaN, _) => Number::NaN,
            (_, Number::NaN) => Number::NaN,
            (Number::Infinite { .. }, Number::Infinite { .. }) => Number::NaN,
            (Number::Infinite { .. }, Number::Finite { .. }) => Number::Infinite { negative },
            (Number::Finite { .. }, Number::Infinite { .. }) => Number::zero(negative),
            (
                Number::Finite { significand: m1, exponent: e1, .. },
                Number::Finite { significand: m2, exponent: e2, .. },
            ) => if m2 == 0 {
                if m1 == 0 {
                    Number::NaN
                } else {
                    Number::Infinite { negative }
                }
            } else {
                Number::rounded(negative, m1, m2, e1 - e2)
            },
        }
    }

    /// `self * other`.
    pub open spec fn product(self, other: Number) -> Number {
        let negative = self.is_negative() != other.is_negative();
        match (self, other) {
            (Number::NaN, _) => Number::NaN,
            (_, Number::NaN) => Number::NaN,
            (
                Number::Finite { significand: m1, exponent: e1, .. },
                Number::Finite { significand: m2, exponent: e2, .. },
            ) => Number::rounded(negative, m1 * m2, 1, e1 + e2),
            _ => if self.is_zero() || other.is_zero() {
                Number::NaN
            } else {
                Number::Infinite { negative }
            },
        }
    }

    /// `self + other`.
    pub open spec fn sum(self, other: Number) -> Number {
        match (self, other) {
            (Number::NaN, _) => Number::NaN,
            (_, Number::NaN) => Number::NaN,
            (Number::Infinite { negative: s1 }, Number::Infinite { negative: s2 }) => if s1 == s2 {
                self
            } else {
                Number::NaN
            },
            (Number::Infinite { .. }, Number::Finite { .. }) => self,
            (Number::Finite { .. }, Number::Infinite { .. }) => other,
            (Number::Finite { .. }, Number::Finite { .. }) => if self.is_zero() && other.is_zero() {
                Number::zero(self.is_negative() && other.is_negative())
            } else if self.is_zero() {
                other
            } else if other.is_zero() {
                self
            } else {
                let k = lesser(self.scale(), other.scale());
                let total = self.units(k) + other.units(k);
                Number::rounded(total < 0, distance(total), 1, k)
            },
        }
    }

    /// `self > other`, which no comparison with NaN is.
    pub open spec fn exceeds(self, other: Number) -> bool {
        match (self, other) {
            (Number::NaN, _) => false,
            (_, Number::NaN) => false,
            (Number::Infinite { negative: s1 }, Number::Infinite { negative: s2 }) => !s1 && s2,
            (Number::Infinite { negative }, Number::Finite { .. }) => !negative,
            (Number::Finite { .. }, Number::Infinite { negative }) => negative,
            (Number::Finite { .. }, Number::Finite { .. }) => {
                let k = lesser(self.scale(), other.scale());
                self.units(k) > other.units(k)
            },
        }
    }

    /// The integer part, brought between `lo` and `hi`; zero for NaN.
    pub open spec fn truncated(self, lo: int, hi: int) -> int {
        match self {
            Number::NaN => 0,
            Number::Infinite { negative } => if negative {
                lo
            } else {
                hi
            },
            Number::Finite { negative, significand, exponent } => {
                let size = whole(significand, exponent);
                let v = if negative {
                    -size
                } else {
                    size as int
                };
                if v < lo {
                    lo
                } else if v > hi {
                    hi
                } else {
                    v
                }
            },
        }
    }

    /// The bits of the `f64` that is this number.
    pub open spec fn bits(self) -> int {
        let sign: int = if self.is_negative() {
            0x8000_0000_0000_0000
        } else {
            0
        };
        match self {
            Number::NaN => 0x7ff8_0000_0000_0000,
            Number::Infinite { .. } => sign + 0x7ff0_0000_0000_0000,
            Number::Finite { significand, exponent, .. } => if significand == 0 {
                sign
            } else {
                sign + (exponent + 1074) * 0x10_0000_0000_0000 + significand
            },
        }
    }
}

/// Where 53 bits would take an exponent below `k`, the number is below `2^52`
/// units of `2^k`.
pub proof fn lemma_subnormal_bound(n: nat, d: nat, k: int)
    requires
        n > 0,
        d > 0,
        rounding::nearest(n, d).1 < k,
    ensures
        rounding::scale_up(n, k) < LEAST * rounding::scale_down(d, k),
        rounding::half_even(rounding::scale_up(n, k), rounding::scale_down(d, k)) <= LEAST,
{
    rounding::lemma_nearest(n, d);
    let b = rounding::binade(n, d);
    let u = rounding::scale_up(n, b);
    let w = rounding::scale_down(d, b);
    let uk = rounding::scale_up(n, k);
    let wk = rounding::scale_down(d, k);
    rounding::lemma_scale_shift(n, d, b, k);
    rounding::lemma_scale_positive(d, b);
    rounding::lemma_scale_positive(d, k);
    let p = pow2((k - b) as nat);
    lemma_pow2_unfold((k - b) as nat);
    lemma_pow2_pos((k - b - 1) as nat);
    assert(uk < LEAST * wk) by (nonlinear_arith)
        requires
            u * wk == uk * w * p,
            u < LIMIT * w,
            LIMIT == 2 * LEAST,
            p >= 2,
            w > 0,
            wk > 0,
            uk >= 0,
    {
        assert(uk * w * p >= uk * w * 2);
        assert(u * wk < LIMIT * w * wk);
        assert(uk * w * 2 < (LEAST * wk) * w * 2);
    }
    assert(uk * wk <= (LEAST * wk) * wk) by (nonlinear_arith)
        requires
            uk < LEAST * wk,
    ;
    rounding::lemma_half_even_ordered(uk, wk, (LEAST * wk) as nat, wk);
    rounding::lemma_half_even((LEAST * wk) as nat, wk);
    vstd::arithmetic::div_mod::lemma_mod_multiples_basic(LEAST as int, wk as int);
    vstd::arithmetic::div_mod::lemma_div_by_multiple(LEAST as int, wk as int);
}

/// Of two numbers with 53 bits, one shifted up is the greater.
pub proof fn lemma_shifted_exceeds(m1: nat, m2: nat, k: nat)
    requires
        LEAST <= m1 < LIMIT,
        m2 < LIMIT,
        k > 0,
    ensures
        m1 * pow2(k) > m2,
{
    lemma_pow2_unfold(k);
    lemma_pow2_pos((k - 1) as nat);
    assert(m1 * pow2(k) >= 2 * m1) by (nonlinear_arith)
        requires
            pow2(k) >= 2,
    ;
}


impl Number {
    /// Whether this is the number `n / d`, which is not negative.
    pub open spec fn is_ratio(self, n: nat, d: nat) -> bool {
        self matches Number::Finite { negative, significand, exponent } && !negative && (significand
            * rounding::power(exponent)) * d == n * rounding::power(-exponent)
    }

    /// The numerator of a finite number as a fraction.
    pub open spec fn numerator(self) -> int {
        signed(self.is_negative(), (self->significand * rounding::power(self->exponent)) as int)
    }

    /// The denominator of a finite number as a fraction.
    pub open spec fn denominator(self) -> nat {
        rounding::power(-self->exponent)
    }

    /// Whether this is at most another number; no comparison with NaN holds.
    pub open spec fn at_most(self, other: Number) -> bool {
        self !is NaN && other !is NaN && !self.exceeds(other)
    }
}

/// A finite number that is not negative is the ratio that its parts give.
pub proof fn lemma_own_ratio(a: Number)
    requires
        a is Finite,
        !a.is_negative(),
    ensures
        a.is_ratio(
            a->significand * rounding::power(a->exponent),
            rounding::power(-a->exponent),
        ),
        rounding::power(-a->exponent) > 0,
        rounding::power(a->exponent) > 0,
{
    rounding::lemma_scale_is_power(1, a->exponent);
}

/// A power of two may stand beside the fraction or inside it.
pub proof fn lemma_rounded_shift(negative: bool, n: nat, d: nat, e: int)
    requires
        d > 0,
    ensures
        Number::rounded(negative, n, d, e) == Number::rounded(
            negative,
            n * rounding::power(e),
            d * rounding::power(-e),
            0,
        ),
{
    rounding::lemma_scale_is_power(n, e);
    rounding::lemma_scale_is_power(d, e);
    let n1 = n * rounding::power(e);
    let d1 = d * rounding::power(-e);
    if n > 0 {
        rounding::lemma_nearest_shifted(n, d, e);
        assert(n1 > 0) by (nonlinear_arith)
            requires
                n1 == n * rounding::power(e),
                n > 0,
                rounding::power(e) > 0,
        ;
        assert(d1 > 0) by (nonlinear_arith)
            requires
                d1 == d * rounding::power(-e),
                d > 0,
                rounding::power(-e) > 0,
        ;
        let k = LEAST_EXPONENT - e;
        let (u, w) = (rounding::scale_up(n, k), rounding::scale_down(d, k));
        let u1 = rounding::scale_up(n1, LEAST_EXPONENT as int);
        let w1 = rounding::scale_down(d1, LEAST_EXPONENT as int);
        rounding::lemma_scale_is_power(n, k);
        rounding::lemma_scale_is_power(d, k);
        rounding::lemma_scale_is_power(n1, LEAST_EXPONENT as int);
        rounding::lemma_scale_is_power(d1, LEAST_EXPONENT as int);
        rounding::lemma_scale_positive(d, k);
        rounding::lemma_scale_positive(d1, LEAST_EXPONENT as int);
        rounding::lemma_power_shift(k, e);
        let (x, y, z) = (rounding::power(e), rounding::power(-(k + e)), rounding::power(k));
        let (p, q, r) = (rounding::power(-k), rounding::power(-e), rounding::power(k + e));
        assert(u1 * w == u * w1) by (nonlinear_arith)
            requires
                u1 == (n * x) * y,
                w == d * z,
                u == n * p,
                w1 == (d * q) * r,
                (x * y) * z == p * (q * r),
        {
            assert(u1 * w == (n * d) * ((x * y) * z));
            assert(u * w1 == (n * d) * (p * (q * r)));
        }
        rounding::lemma_half_even_ordered(u, w, u1, w1);
        rounding::lemma_half_even_ordered(u1, w1, u, w);
    } else {
        assert(0 * rounding::power(e) == 0) by (nonlinear_arith);
    }
}

/// Rounding keeps the order of fractions.
pub proof fn lemma_rounded_ordered(n1: nat, d1: nat, n2: nat, d2: nat)
    requires
        d1 > 0,
        d2 > 0,
        n1 * d2 <= n2 * d1,
    ensures
        Number::rounded(false, n1, d1, 0).at_most(Number::rounded(false, n2, d2, 0)),
{
    let a = Number::rounded(false, n1, d1, 0);
    let b = Number::rounded(false, n2, d2, 0);
    lemma2_to64();
    if n1 == 0 {
        if b is Finite {
            let k = lesser(0, b->exponent);
            assert(0 * pow2((0 - k) as nat) == 0) by (nonlinear_arith);
        }
    } else {
        assert(n2 > 0) by (nonlinear_arith)
            requires
                n1 > 0,
                d2 > 0,
                n1 * d2 <= n2 * d1,
        ;
        rounding::lemma_nearest(n1, d1);
        rounding::lemma_nearest(n2, d2);
        rounding::lemma_nearest_ordered(n1, d1, n2, d2);
        let (m1, e1) = rounding::nearest(n1, d1);
        let (m2, e2) = rounding::nearest(n2, d2);
        if e1 < LEAST_EXPONENT {
            lemma_subnormal_bound(n1, d1, LEAST_EXPONENT as int);
            let k = LEAST_EXPONENT as int;
            rounding::lemma_scale_order(n1, d1, n2, d2, k);
            rounding::lemma_scale_positive(d1, k);
            rounding::lemma_scale_positive(d2, k);
            rounding::lemma_half_even_ordered(
                rounding::scale_up(n1, k),
                rounding::scale_down(d1, k),
                rounding::scale_up(n2, k),
                rounding::scale_down(d2, k),
            );
        }
        if a is Finite && b is Finite {
            lemma_order_by_parts(a, b);
        }
    }
}

/// The order of two finite numbers that are not negative, told from their parts.
pub proof fn lemma_order_by_parts(a: Number, b: Number)
    requires
        a is Finite,
        b is Finite,
        !a.is_negative(),
        !b.is_negative(),
        ({
            ||| a->significand == 0
            ||| a->exponent == b->exponent && a->significand <= b->significand
            ||| a->exponent < b->exponent && a->significand < LIMIT && LEAST <= b->significand < LIMIT
        }),
    ensures
        !a.exceeds(b),
{
    let (m1, e1) = (a->significand, a->exponent);
    let (m2, e2) = (b->significand, b->exponent);
    let k = lesser(e1, e2);
    lemma2_to64();
    lemma_pow2_pos((e2 - k) as nat);
    lemma_pow2_pos((e1 - k) as nat);
    let p1 = pow2((e1 - k) as nat);
    let p2 = pow2((e2 - k) as nat);
    assert(m1 * 1 == m1) by (nonlinear_arith);
    assert(m2 * 1 == m2) by (nonlinear_arith);
    assert(m1 == 0 ==> m1 * p1 == 0) by (nonlinear_arith);
    if m1 != 0 && e1 < e2 {
        lemma_shifted_exceeds(m2, m1, (e2 - e1) as nat);
    }
}

/// Equal fractions are rounded alike.
pub proof fn lemma_rounded_same(n1: nat, d1: nat, n2: nat, d2: nat)
    requires
        d1 > 0,
        d2 > 0,
        n1 * d2 == n2 * d1,
    ensures
        Number::rounded(false, n1, d1, 0) == Number::rounded(false, n2, d2, 0),
{
    if n1 == 0 {
        assert(n2 == 0) by (nonlinear_arith)
            requires
                d1 > 0,
                0 * d2 == n2 * d1,
        ;
    } else {
        assert(n2 > 0) by (nonlinear_arith)
            requires
                n1 > 0,
                d2 > 0,
                n1 * d2 == n2 * d1,
        ;
        rounding::lemma_nearest_same(n1, d1, n2, d2);
        let k = LEAST_EXPONENT as int;
        rounding::lemma_scale_order(n1, d1, n2, d2, k);
        rounding::lemma_scale_order(n2, d2, n1, d1, k);
        rounding::lemma_scale_positive(d1, k);
        rounding::lemma_scale_positive(d2, k);
        let (u1, w1) = (rounding::scale_up(n1, k), rounding::scale_down(d1, k));
        let (u2, w2) = (rounding::scale_up(n2, k), rounding::scale_down(d2, k));
        rounding::lemma_half_even_ordered(u1, w1, u2, w2);
        rounding::lemma_half_even_ordered(u2, w2, u1, w1);
    }
}

/// A positive factor may be left out on both sides.
proof fn lemma_cancel(a: nat, b: nat, c: nat)
    by (nonlinear_arith)
    requires
        a * c == b * c,
        c > 0,
    ensures
        a == b,
{
}

/// A product of ratios is the product of their parts, rounded.
pub proof fn lemma_product(a: Number, n1: nat, d1: nat, b: Number, n2: nat, d2: nat)
    requires
        a.is_ratio(n1, d1),
        b.is_ratio(n2, d2),
        d1 > 0,
        d2 > 0,
    ensures
        a.product(b) == Number::rounded(false, n1 * n2, d1 * d2, 0),
{
    let (m1, e1) = (a->significand, a->exponent);
    let (m2, e2) = (b->significand, b->exponent);
    let e = e1 + e2;
    lemma_rounded_shift(false, m1 * m2, 1, e);
    rounding::lemma_power_shift(e2, e1);
    lemma_own_ratio(a);
    lemma_own_ratio(b);
    rounding::lemma_scale_is_power(1, e);
    let (x1, y1) = (rounding::power(e1), rounding::power(-e1));
    let (x2, y2) = (rounding::power(e2), rounding::power(-e2));
    let (x, y) = (rounding::power(e), rounding::power(-e));
    let n = (m1 * m2) * x;
    let d = 1 * y;
    assert(d1 * d2 > 0) by (nonlinear_arith)
        requires
            d1 > 0,
            d2 > 0,
    ;
    assert(-(e2 + e1) == -e);
    assert(n * (d1 * d2) == (n1 * n2) * d) by {
        // Times y1 * y2, both sides are the same product.
        let c = (m1 * m2) * (d1 * d2);
        assert((((m1 * m2) * x) * (d1 * d2)) * (y1 * y2) == c * (y2 * (y1 * x))) by (nonlinear_arith)
            requires
                c == (m1 * m2) * (d1 * d2),
        ;
        assert(((n1 * n2) * (1 * y)) * (y1 * y2) == ((n1 * y1) * (n2 * y2)) * y) by (nonlinear_arith);
        let (p, q) = (m1 * d1, m2 * d2);
        assert((m1 * x1) * d1 == p * x1 && (m2 * x2) * d2 == q * x2 && p * q == c) by (nonlinear_arith)
            requires
                c == (m1 * m2) * (d1 * d2),
                p == m1 * d1,
                q == m2 * d2,
        ;
        assert(((p * x1) * (q * x2)) * y == (p * q) * ((x1 * y) * x2)) by (nonlinear_arith);
        assert(y1 * y2 > 0) by (nonlinear_arith)
            requires
                y1 > 0,
                y2 > 0,
        ;
        lemma_cancel(n * (d1 * d2), (n1 * n2) * d, y1 * y2);
    }
    lemma_rounded_same(n, d, n1 * n2, d1 * d2);
}

/// A quotient of ratios is the quotient of their parts, rounded.
pub proof fn lemma_quotient(a: Number, n1: nat, d1: nat, b: Number, n2: nat, d2: nat)
    requires
        a.is_ratio(n1, d1),
        b.is_ratio(n2, d2),
        d1 > 0,
        d2 > 0,
        n2 > 0,
    ensures
        a.quotient(b) == Number::rounded(false, n1 * d2, d1 * n2, 0),
{
    let (m1, e1) = (a->significand, a->exponent);
    let (m2, e2) = (b->significand, b->exponent);
    let e = e1 - e2;
    lemma_own_ratio(a);
    lemma_own_ratio(b);
    let (x1, y1) = (rounding::power(e1), rounding::power(-e1));
    let (x2, y2) = (rounding::power(e2), rounding::power(-e2));
    assert(m2 > 0) by (nonlinear_arith)
        requires
            (m2 * x2) * d2 == n2 * y2,
            n2 > 0,
            y2 > 0,
            m2 >= 0,
    {
        if m2 == 0 {
            assert((m2 * x2) * d2 == 0);
            assert(n2 * y2 > 0);
        }
    }
    lemma_rounded_shift(false, m1, m2, e);
    rounding::lemma_power_shift(-e2, e1);
    rounding::lemma_scale_is_power(1, e);
    let (x, y) = (rounding::power(e), rounding::power(-e));
    let n = m1 * x;
    let d = m2 * y;
    assert(d1 * n2 > 0 && d > 0) by (nonlinear_arith)
        requires
            d1 > 0,
            n2 > 0,
            d == m2 * y,
            m2 > 0,
            y > 0,
    ;
    assert(-(-e2 + e1) == -e && -(-e2) == e2 && -e2 + e1 == e);
    assert(n * (d1 * n2) == (n1 * d2) * d) by {
        // Times y1 * y2, both sides are the same product.
        let c = (m1 * d1) * (m2 * d2);
        assert(((m1 * x) * (d1 * n2)) * (y1 * y2) == ((m1 * d1) * (n2 * y2)) * (y1 * x)) by (nonlinear_arith);
        assert(((m1 * d1) * ((m2 * x2) * d2)) * (y1 * x) == c * (x2 * (y1 * x))) by (nonlinear_arith)
            requires
                c == (m1 * d1) * (m2 * d2),
        ;
        assert(((n1 * d2) * (m2 * y)) * (y1 * y2) == ((n1 * y1) * (m2 * d2)) * (y * y2)) by (nonlinear_arith);
        assert((((m1 * x1) * d1) * (m2 * d2)) * (y * y2) == c * ((x1 * y) * y2)) by (nonlinear_arith)
            requires
                c == (m1 * d1) * (m2 * d2),
        ;
        assert(y1 * y2 > 0) by (nonlinear_arith)
            requires
                y1 > 0,
                y2 > 0,
        ;
        lemma_cancel(n * (d1 * n2), (n1 * d2) * d, y1 * y2);
    }
    lemma_rounded_same(n, d, n1 * d2, d1 * n2);
}

/// Two ratios compare as fractions do.
pub proof fn lemma_ratio_order(a: Number, n1: nat, d1: nat, b: Number, n2: nat, d2: nat)
    requires
        a.is_ratio(n1, d1),
        b.is_ratio(n2, d2),
        d1 > 0,
        d2 > 0,
    ensures
        a.exceeds(b) <==> n1 * d2 > n2 * d1,
{
    let (m1, e1) = (a->significand, a->exponent);
    let (m2, e2) = (b->significand, b->exponent);
    let k = lesser(e1, e2);
    lemma_units_ratio(a, n1, d1, k);
    lemma_units_ratio(b, n2, d2, k);
    let (u1, u2) = (a.units(k), b.units(k));
    rounding::lemma_scale_is_power(1, k);
    let (x, y) = (rounding::power(k), rounding::power(-k));
    assert(u1 > u2 <==> n1 * d2 > n2 * d1) by (nonlinear_arith)
        requires
            (u1 * x) * d1 == n1 * y,
            (u2 * x) * d2 == n2 * y,
            x > 0,
            y > 0,
            d1 > 0,
            d2 > 0,
    {
        let c = x * (d1 * d2);
        assert(c > 0) by {
            assert(d1 * d2 > 0);
        }
        assert(u1 * c == (n1 * d2) * y);
        assert(u2 * c == (n2 * d1) * y);
        if u1 > u2 {
            assert(u1 * c > u2 * c);
            if n1 * d2 <= n2 * d1 {
                assert((n1 * d2) * y <= (n2 * d1) * y);
            }
        } else {
            assert(u1 * c <= u2 * c);
            if n1 * d2 > n2 * d1 {
                assert((n1 * d2) * y > (n2 * d1) * y);
            }
        }
    }
}

/// A ratio in units of a power of two.
proof fn lemma_units_ratio(a: Number, n: nat, d: nat, k: int)
    requires
        a.is_ratio(n, d),
        k <= a->exponent,
    ensures
        (a.units(k) * rounding::power(k)) * d == n * rounding::power(-k),
{
    let (m, e) = (a->significand, a->exponent);
    let p = pow2((e - k) as nat);
    lemma_own_ratio(a);
    rounding::lemma_scale_is_power(1, k);
    lemma2_to64();
    assert(rounding::power(e - k) == p);
    rounding::lemma_power_shift(k, e - k);
    let (x, y) = (rounding::power(e), rounding::power(-e));
    let (xk, yk) = (rounding::power(k), rounding::power(-k));
    let z = rounding::power(-(e - k));
    assert(z == 1);
    assert(k + (e - k) == e && -(k + (e - k)) == -e);
    assert((p * y) * xk == yk * (z * x));
    assert(((m * p) * xk) * d == n * yk) by (nonlinear_arith)
        requires
            (m * x) * d == n * y,
            (p * y) * xk == yk * (1 * x),
            y > 0,
    {
        assert((((m * p) * xk) * d) * y == (m * d) * ((p * y) * xk));
        assert((m * d) * (yk * x) == ((m * x) * d) * yk);
        assert((n * yk) * y == (n * y) * yk);
    }
}

/// A fraction with few enough bits, over a power of two, is not changed by rounding.
pub proof fn lemma_exact(n: nat, j: nat)
    requires
        0 < n < LIMIT,
        j <= 1000,
    ensures
        Number::rounded(false, n, pow2(j), 0).is_ratio(n, pow2(j)),
        Number::rounded(false, n, pow2(j), 0)->significand >= LEAST,
{
    rounding::lemma_binade(n, 1);
    let b = rounding::binade(n, 1);
    lemma2_to64();
    lemma2_to64_rest();
    if b > 0 {
        lemma_pow2_unfold(b as nat);
        lemma_pow2_pos((b - 1) as nat);
        assert(1 * pow2(b as nat) >= 2) by (nonlinear_arith)
            requires
                pow2(b as nat) >= 2,
        ;
    }
    let t = (-b) as nat;
    let m = n * pow2(t);
    assert(n * 1 == n) by (nonlinear_arith);
    assert(LEAST <= m < LIMIT);
    if t > 53 {
        lemma_pow2_strictly_increases(53, t);
    }
    assert(t <= 53) by {
        assert(n * pow2(t) >= pow2(t)) by (nonlinear_arith)
            requires
                n > 0,
                pow2(t) >= 0,
        ;
    }
    let e = -(t + j);
    lemma_pow2_adds(t, j);
    assert(n * (pow2(t) * pow2(j)) == m * pow2(j)) by (nonlinear_arith)
        requires
            m == n * pow2(t),
    ;
    lemma_pow2_pos(j);
    rounding::lemma_nearest_exact(n, pow2(j), m, e);
    assert((m * 1) * pow2(j) == m * pow2(j)) by (nonlinear_arith);
}

/// An integer below `2^53` is a double.
pub proof fn lemma_integer(v: nat)
    requires
        v < LIMIT,
    ensures
        Number::integer(v as int).is_ratio(v, 1),
{
    lemma2_to64();
    if v > 0 {
        lemma_exact(v, 0);
    }
}

/// The integer part of a ratio is that of the fraction.
pub proof fn lemma_truncated(a: Number, n: nat, d: nat, lo: int, hi: int)
    requires
        a.is_ratio(n, d),
        d > 0,
        lo <= 0 <= hi,
    ensures
        a.truncated(lo, hi) == if n / d > hi {
            hi
        } else {
            (n / d) as int
        },
{
    let (m, e) = (a->significand, a->exponent);
    lemma2_to64();
    if e >= 0 {
        let w = m * pow2(e as nat);
        assert(w == m * rounding::power(e));
        assert(w * d == n) by (nonlinear_arith)
            requires
                w * d == n * 1,
        ;
        vstd::arithmetic::div_mod::lemma_div_by_multiple(w as int, d as int);
    } else {
        let p = pow2((-e) as nat);
        lemma_pow2_pos((-e) as nat);
        let q = m / p;
        let r = m % p;
        vstd::arithmetic::div_mod::lemma_fundamental_div_mod(m as int, p as int);
        assert(q * d <= n < q * d + d) by (nonlinear_arith)
            requires
                (m * 1) * d == n * p,
                m == p * q + r,
                0 <= r < p,
                d > 0,
        {
            assert(n * p == (q * d) * p + r * d);
            assert(0 <= r * d < p * d);
            assert((q * d) * p <= n * p);
            assert(n * p < (q * d + d) * p);
        }
        vstd::arithmetic::div_mod::lemma_fundamental_div_mod_converse(
            n as int,
            d as int,
            q as int,
            n - q * d,
        );
    }
}

/// A greater number does not have a smaller integer part.
pub proof fn lemma_truncated_ordered(a: Number, b: Number, lo: int, hi: int)
    requires
        a.at_most(b),
        lo <= 0 <= hi,
    ensures
        a.truncated(lo, hi) <= b.truncated(lo, hi),
{
    if a is Finite && b is Finite {
        let k = lesser(a->exponent, b->exponent);
        let (m1, m2) = (a->significand, b->significand);
        let (p1, p2) = (pow2((a->exponent - k) as nat), pow2((b->exponent - k) as nat));
        lemma_pow2_pos((a->exponent - k) as nat);
        lemma_pow2_pos((b->exponent - k) as nat);
        assert(m1 * p1 >= 0 && m2 * p2 >= 0) by (nonlinear_arith);
        if !a.is_negative() && !b.is_negative() {
            lemma_whole_ordered(a, b);
        } else if a.is_negative() && b.is_negative() {
            lemma_negated_order(a, b);
            lemma_whole_ordered(b.negated(), a.negated());
        } else if b.is_negative() {
            assert(m1 == 0 && m2 == 0) by (nonlinear_arith)
                requires
                    m1 * p1 <= -(m2 * p2),
                    p1 > 0,
                    p2 > 0,
                    m1 >= 0,
                    m2 >= 0,
            {
                if m1 > 0 {
                    assert(m1 * p1 > 0);
                }
                if m2 > 0 {
                    assert(m2 * p2 > 0);
                }
            }
            lemma_whole_of_zero(a->exponent);
            lemma_whole_of_zero(b->exponent);
        }
    }
}

proof fn lemma_whole_of_zero(e: int)
    ensures
        whole(0, e) == 0,
{
    if e >= 0 {
        assert(0 * pow2(e as nat) == 0) by (nonlinear_arith);
    } else {
        lemma_pow2_pos((-e) as nat);
        vstd::arithmetic::div_mod::lemma_div_basics(pow2((-e) as nat) as int);
    }
}

proof fn lemma_whole_ordered(a: Number, b: Number)
    requires
        a is Finite,
        b is Finite,
        !a.is_negative(),
        !b.is_negative(),
        !a.exceeds(b),
    ensures
        whole(a->significand, a->exponent) <= whole(b->significand, b->exponent),
{
    lemma_own_ratio(a);
    lemma_own_ratio(b);
    let (n1, d1) = (a->significand * rounding::power(a->exponent), rounding::power(-a->exponent));
    let (n2, d2) = (b->significand * rounding::power(b->exponent), rounding::power(-b->exponent));
    lemma_ratio_order(a, n1, d1, b, n2, d2);
    let hi = (n1 / d1 + n2 / d2 + whole(a->significand, a->exponent) + whole(
        b->significand,
        b->exponent,
    )) as int;
    lemma_truncated(a, n1, d1, 0, hi);
    lemma_truncated(b, n2, d2, 0, hi);
    lemma_floor_ordered(n1, d1, n2, d2);
}

proof fn lemma_floor_ordered(n1: nat, d1: nat, n2: nat, d2: nat)
    requires
        d1 > 0,
        d2 > 0,
        n1 * d2 <= n2 * d1,
    ensures
        n1 / d1 <= n2 / d2,
{
    let (q1, r1) = (n1 / d1, n1 % d1);
    let (q2, r2) = (n2 / d2, n2 % d2);
    vstd::arithmetic::div_mod::lemma_fundamental_div_mod(n1 as int, d1 as int);
    vstd::arithmetic::div_mod::lemma_fundamental_div_mod(n2 as int, d2 as int);
    assert(q1 <= q2) by (nonlinear_arith)
        requires
            n1 * d2 <= n2 * d1,
            n1 == d1 * q1 + r1,
            n2 == d2 * q2 + r2,
            r1 >= 0,
            r2 < d2,
            d1 > 0,
            d2 > 0,
    {
        if q1 > q2 {
            assert(d1 * q1 >= d1 * (q2 + 1));
            assert(n1 * d2 >= (d1 * (q2 + 1)) * d2);
            assert(n2 < d2 * (q2 + 1));
            assert(n2 * d1 < (d2 * (q2 + 1)) * d1);
        }
    }
}

impl Number {
    /// Whether this is what some double stands for.
    pub open spec fn representable(self) -> bool {
        self matches Number::Finite { significand, exponent, .. } ==> {
            ||| significand == 0 && exponent == 0
            ||| LEAST <= significand < LIMIT && LEAST_EXPONENT <= exponent <= GREATEST_EXPONENT
            ||| 0 < significand < LEAST && exponent == LEAST_EXPONENT
        }
    }

    /// `t / d`, rounded, where `t` may be negative.
    pub open spec fn signed_rounded(t: int, d: nat) -> Number {
        Number::rounded(t < 0, distance(t), d, 0)
    }

    /// The number with the other sign.
    pub open spec fn negated(self) -> Number {
        match self {
            Number::NaN => Number::NaN,
            Number::Infinite { negative } => Number::Infinite { negative: !negative },
            Number::Finite { negative, significand, exponent } => Number::Finite {
                negative: !negative,
                significand,
                exponent,
            },
        }
    }
}

/// Rounding gives a double.
pub proof fn lemma_rounded_representable(negative: bool, n: nat, d: nat, e: int)
    requires
        d > 0,
    ensures
        Number::rounded(negative, n, d, e).representable(),
        Number::rounded(negative, n, d, e) !is NaN,
        Number::rounded(negative, n, d, e).is_negative() == negative,
{
    if n > 0 {
        rounding::lemma_nearest(n, d);
        let k = LEAST_EXPONENT - e;
        if rounding::nearest(n, d).1 < k {
            lemma_subnormal_bound(n, d, k);
        }
    }
}

/// A double is not changed by rounding.
pub proof fn lemma_rounded_self(a: Number)
    requires
        a is Finite,
        !a.is_negative(),
        a.representable(),
    ensures
        Number::rounded(
            false,
            a->significand * rounding::power(a->exponent),
            rounding::power(-a->exponent),
            0,
        ) == a,
{
    let (m, e) = (a->significand, a->exponent);
    let (x, y) = (rounding::power(e), rounding::power(-e));
    lemma_own_ratio(a);
    let n = m * x;
    rounding::lemma_scale_is_power(n, e);
    rounding::lemma_scale_is_power(y, e);
    if m == 0 {
        assert(0 * x == 0) by (nonlinear_arith);
    } else {
        assert(n > 0) by (nonlinear_arith)
            requires
                n == m * x,
                m > 0,
                x > 0,
        ;
        assert((m * x) * y == m * (y * x)) by (nonlinear_arith);
        if m >= LEAST {
            rounding::lemma_nearest_exact(n, y, m, e);
        } else {
            // The last place is that of the least double.
            assert(x == 1 && n == m) by (nonlinear_arith)
                requires
                    x == 1,
                    n == m * x,
            ;
            rounding::lemma_nearest(n, y);
            let b = rounding::nearest(n, y).1;
            if b >= e {
                let c = rounding::binade(n, y);
                let (u, w) = (rounding::scale_up(n, c), rounding::scale_down(y, c));
                rounding::lemma_scale_positive(y, c);
                rounding::lemma_scale_is_power(n, c);
                rounding::lemma_scale_is_power(y, c);
                if c >= e {
                    rounding::lemma_scale_shift(n, y, e, c);
                    let (u0, w0) = (rounding::scale_up(n, e), rounding::scale_down(y, e));
                    let q = pow2((c - e) as nat);
                    lemma_pow2_pos((c - e) as nat);
                    assert(false) by (nonlinear_arith)
                        requires
                            u0 * w == u * w0 * q,
                            u >= LEAST * w,
                            u0 == m * w0,
                            m < LEAST,
                            w > 0,
                            w0 > 0,
                            q >= 1,
                    {
                        assert(u0 * w == (m * w) * w0);
                        assert(u * w0 * q >= u * w0);
                        assert(u * w0 >= (LEAST * w) * w0);
                        assert((m * w) * w0 < (LEAST * w) * w0) by {
                            assert(m * w < LEAST * w);
                        }
                    }
                } else {
                    // A carry would take a number next below a power of two.
                    rounding::lemma_nearest_error(n, y);
                    let (u0, w0) = (rounding::scale_up(n, e), rounding::scale_down(y, e));
                    assert(2 * (LEAST * w0) <= 2 * u0 + w0);
                    assert(false) by (nonlinear_arith)
                        requires
                            2 * (LEAST * w0) <= 2 * u0 + w0,
                            u0 == m * w0,
                            m < LEAST,
                            w0 > 0,
                    {
                        assert(m * w0 <= (LEAST - 1) * w0);
                    }
                }
            }
            let w0 = rounding::scale_down(y, e);
            rounding::lemma_half_even(m * w0, w0);
            vstd::arithmetic::div_mod::lemma_mod_multiples_basic(m as int, w0 as int);
            vstd::arithmetic::div_mod::lemma_div_by_multiple(m as int, w0 as int);
        }
    }
}

/// Changing both signs turns the order around.
proof fn lemma_negated_order(a: Number, b: Number)
    ensures
        a.exceeds(b) == b.negated().exceeds(a.negated()),
{
}

/// Rounding keeps the order, whatever the signs.
pub proof fn lemma_signed_rounded_ordered(t1: int, d1: nat, t2: int, d2: nat)
    requires
        d1 > 0,
        d2 > 0,
        t1 * d2 <= t2 * d1,
    ensures
        Number::signed_rounded(t1, d1).at_most(Number::signed_rounded(t2, d2)),
{
    let a = Number::signed_rounded(t1, d1);
    let b = Number::signed_rounded(t2, d2);
    lemma_rounded_representable(t1 < 0, distance(t1), d1, 0);
    lemma_rounded_representable(t2 < 0, distance(t2), d2, 0);
    if t1 >= 0 {
        assert(t2 >= 0) by (nonlinear_arith)
            requires
                t1 >= 0,
                d1 > 0,
                d2 > 0,
                t1 * d2 <= t2 * d1,
        ;
        lemma_rounded_ordered(t1 as nat, d1, t2 as nat, d2);
    } else if t2 >= 0 {
        if a is Finite && b is Finite {
            let k = lesser(a->exponent, b->exponent);
            let (p1, p2) = (pow2((a->exponent - k) as nat), pow2((b->exponent - k) as nat));
            let (m1, m2) = (a->significand, b->significand);
            assert(m1 * p1 >= 0 && m2 * p2 >= 0) by (nonlinear_arith);
        }
    } else {
        let (n1, n2) = ((-t1) as nat, (-t2) as nat);
        assert(n2 * d1 <= n1 * d2) by (nonlinear_arith)
            requires
                n1 == -t1,
                n2 == -t2,
                t1 * d2 <= t2 * d1,
        ;
        lemma_rounded_ordered(n2, d2, n1, d1);
        let a1 = Number::rounded(false, n1, d1, 0);
        let b1 = Number::rounded(false, n2, d2, 0);
        assert(a == a1.negated());
        assert(b == b1.negated());
        lemma_negated_order(b1, a1);
    }
}

/// A ratio plus an integer is the sum, rounded.
pub proof fn lemma_sum(a: Number, n: nat, d: nat, v: int)
    requires
        a.is_ratio(n, d),
        a.representable(),
        d > 0,
        -LIMIT < v < LIMIT,
    ensures
        a.sum(Number::integer(v)) == Number::signed_rounded(n + v * d, d),
        !a.is_zero() && v != 0 ==> {
            let k = lesser(a.scale(), Number::integer(v).scale());
            (a.units(k) + Number::integer(v).units(k) == 0) == (n + v * d == 0)
        },
{
    let b = Number::integer(v);
    let size = distance(v);
    lemma_own_ratio(a);
    let t = n + v * d;
    lemma2_to64();
    if a.is_zero() {
        assert(n == 0) by (nonlinear_arith)
            requires
                (0 * rounding::power(a->exponent)) * d == n * rounding::power(-a->exponent),
                rounding::power(-a->exponent) > 0,
        ;
        // The rounding of an integer over one or over `d`.
        assert(t == v * d);
        assert(distance(t) == size * d) by (nonlinear_arith)
            requires
                t == v * d,
                d > 0,
                size == distance(v),
        {
            if v < 0 {
                assert(v * d < 0);
                assert((-v) * d == -(v * d));
            } else {
                assert(v * d >= 0);
            }
        }
        assert((v < 0) == (t < 0)) by (nonlinear_arith)
            requires
                t == v * d,
                d > 0,
        ;
        assert(size * d == (size * d) * 1) by (nonlinear_arith);
        lemma_rounded_same(size, 1, size * d, d);
        lemma_sign_only(size, 1, size * d, d);
        lemma_rounded_representable(v < 0, size, 1, 0);
        if size > 0 {
            lemma_exact(size, 0);
        }
    } else if b.is_zero() {
        if size > 0 {
            lemma_exact(size, 0);
        }
        assert(v == 0);
        assert(t == n) by (nonlinear_arith)
            requires
                t == n + 0 * d,
        ;
        lemma_rounded_self(a);
        let (n0, d0) = (a->significand * rounding::power(a->exponent), rounding::power(
            -a->exponent,
        ));
        lemma_rounded_same(n0, d0, n, d);
    } else {
        assert(v != 0);
        lemma_exact(size, 0);
        let plus = Number::rounded(false, size, 1, 0);
        assert(b == if v < 0 {
            plus.negated()
        } else {
            plus
        });
        let k = lesser(a.scale(), b.scale());
        lemma_units_ratio(a, n, d, k);
        lemma_units_ratio(plus, size, 1, k);
        let (ua, ub) = (a.units(k), plus.units(k));
        let total = ua + b.units(k);
        assert(b.units(k) == if v < 0 {
            -ub
        } else {
            ub
        });
        rounding::lemma_scale_is_power(1, k);
        let (x, y) = (rounding::power(k), rounding::power(-k));
        assert((total * x) * d == t * y) by (nonlinear_arith)
            requires
                (ua * x) * d == n * y,
                (ub * x) * 1 == size * y,
                v == size && total == ua + ub || v == -size && total == ua - ub,
                t == n + v * d,
        {
            assert((ub * x) * d == (size * d) * y);
            assert((total * x) * d == (ua * x) * d + ((total - ua) * x) * d);
            if v == size && total == ua + ub {
                assert((v * d) * y == (size * d) * y);
            } else {
                assert(((total - ua) * x) * d == -((ub * x) * d));
                assert((v * d) * y == -((size * d) * y));
            }
            assert(t * y == n * y + (v * d) * y);
        }
        let (st, tt) = (distance(total), distance(t));
        assert((total == 0) == (t == 0)) by (nonlinear_arith)
            requires
                (total * x) * d == t * y,
                x > 0,
                y > 0,
                d > 0,
        {
            if total != 0 {
                assert(total * x != 0);
                assert((total * x) * d != 0);
            }
            if t != 0 {
                assert(t * y != 0);
            }
        }
        assert((total < 0) == (t < 0) && (st * x) * d == tt * y) by (nonlinear_arith)
            requires
                (total * x) * d == t * y,
                x > 0,
                y > 0,
                d > 0,
                st == distance(total),
                tt == distance(t),
        {
            if total < 0 {
                assert(total * x < 0);
                assert((total * x) * d < 0);
                assert(t < 0) by {
                    if t >= 0 {
                        assert(t * y >= 0);
                    }
                }
                assert((st * x) * d == -((total * x) * d));
                assert(tt * y == -(t * y));
            } else {
                assert(total * x >= 0);
                assert((total * x) * d >= 0);
                assert(t >= 0) by {
                    if t < 0 {
                        assert(t * y < 0);
                    }
                }
            }
        }
        lemma_rounded_shift(total < 0, st, 1, k);
        assert(1 * y == y) by (nonlinear_arith);
        assert((st * x) * d == tt * y);
        lemma_rounded_same(st * x, y, tt, d);
        lemma_sign_only(st * x, y, tt, d);
    }
}

/// The sign has no part in rounding.
proof fn lemma_sign_only(n1: nat, d1: nat, n2: nat, d2: nat)
    requires
        Number::rounded(false, n1, d1, 0) == Number::rounded(false, n2, d2, 0),
    ensures
        Number::rounded(true, n1, d1, 0) == Number::rounded(true, n2, d2, 0),
{
    assert(Number::rounded(true, n1, d1, 0) == Number::rounded(false, n1, d1, 0).negated());
    assert(Number::rounded(true, n2, d2, 0) == Number::rounded(false, n2, d2, 0).negated());
}

/// An integer that fits is its own integer part.
pub proof fn lemma_truncated_integer(v: int, lo: int, hi: int)
    requires
        -LIMIT < v < LIMIT,
        lo <= 0 <= hi,
        lo <= v <= hi,
    ensures
        Number::integer(v).truncated(lo, hi) == v,
{
    let size = distance(v);
    lemma_integer(size);
    let a = Number::integer(size as int);
    lemma_truncated(a, size, 1, lo, (size + whole(a->significand, a->exponent)) as int);
    let b = Number::integer(v);
    if v < 0 {
        assert(b == a.negated());
    }
    assert(whole(a->significand, a->exponent) == size);
}

/// The error of rounding what is at most `2^j` is at most `2^(j - 53)`.
pub proof fn lemma_rounded_error(n: nat, d: nat, j: nat)
    requires
        d > 0,
        j < 52,
        n <= d * pow2(j),
    ensures
        ({
            let r = Number::rounded(false, n, d, 0);
            let (u, w) = (r->significand * rounding::power(r->exponent), rounding::power(
                -r->exponent,
            ));
            let p = pow2((53 - j) as nat);
            r is Finite && (u * d) * p <= (n * w) * p + w * d && (n * w) * p <= (u * d) * p + w * d
        }),
{
    let r = Number::rounded(false, n, d, 0);
    let p = pow2((53 - j) as nat);
    let h = pow2((52 - j) as nat);
    lemma_pow2_unfold((53 - j) as nat);
    lemma_pow2_pos((52 - j) as nat);
    lemma_pow2_adds(j, (52 - j) as nat);
    lemma2_to64();
    lemma2_to64_rest();
    if n == 0 {
        assert((0 * 1) * d == 0 && 0 * 1 == 0) by (nonlinear_arith);
        assert(0 * p == 0 && 1 * d >= 0) by (nonlinear_arith);
    } else {
        rounding::lemma_nearest(n, d);
        let (m, e) = rounding::nearest(n, d);
        // The exponent is at most that of `2^j`.
        lemma_pow2_pos(j);
        let top = pow2(j);
        assert(n * 1 <= top * d) by (nonlinear_arith)
            requires
                n <= d * top,
        ;
        rounding::lemma_nearest_ordered(n, d, top, 1);
        assert(top * h == LEAST * 1);
        rounding::lemma_nearest_exact(top, 1, LEAST as nat, j - 52);
        assert(e <= j - 52);
        if e >= LEAST_EXPONENT {
            rounding::lemma_nearest_error(n, d);
            rounding::lemma_scale_is_power(n, e);
            rounding::lemma_scale_is_power(d, e);
            let y = rounding::power(-e);
            if e < j - 52 {
                lemma_pow2_strictly_increases((52 - j) as nat, (-e) as nat);
            }
            assert(y >= h);
            assert(d * 1 == d && m * 1 == m) by (nonlinear_arith);
            lemma_error_scaled(n, d, m, y, h, p);
        } else {
            let k = LEAST_EXPONENT as int;
            let y = pow2(1074);
            lemma_pow2_strictly_increases((52 - j) as nat, 1074);
            rounding::lemma_half_even(n * y, d);
            let mm = subnormal(n, d, 0);
            assert(mm == rounding::half_even(n * y, d));
            lemma_error_scaled(n, d, mm, y, h, p);
            if mm == 0 {
                assert((0 * 1) * d == 0 && 0 * p == 0 && n * 1 == n && 1 * d == d) by (nonlinear_arith);
                assert(n * p <= d) by (nonlinear_arith)
                    requires
                        2 * (n * y) <= 2 * (0 * d) + d,
                        y >= h,
                        p == 2 * h,
                {
                    assert(n * y >= n * h);
                }
            } else {
                assert(mm * 1 == mm) by (nonlinear_arith);
            }
        }
    }
}

proof fn lemma_error_scaled(n: nat, d: nat, m: nat, y: nat, h: nat, p: nat)
    requires
        2 * (n * y) <= 2 * (m * d) + d,
        2 * (m * d) <= 2 * (n * y) + d,
        y >= h,
        p == 2 * h,
    ensures
        (m * d) * p <= (n * y) * p + y * d,
        (n * y) * p <= (m * d) * p + y * d,
{
    let (a, b) = (m * d, n * y);
    assert(a * p <= b * p + y * d && b * p <= a * p + y * d) by (nonlinear_arith)
        requires
            2 * b <= 2 * a + d,
            2 * a <= 2 * b + d,
            y >= h,
            p == 2 * h,
    {
        assert((2 * b) * h <= (2 * a + d) * h);
        assert((2 * a) * h <= (2 * b + d) * h);
        assert(d * h <= y * d);
    }
}

/// A negative number plus an integer is the sum, rounded.
proof fn lemma_sum_negative(a: Number, n: nat, d: nat, v: int)
    requires
        a is Finite,
        a.is_negative(),
        !a.is_zero(),
        a.representable(),
        a.negated().is_ratio(n, d),
        n > 0,
        d > 0,
        -LIMIT < v < LIMIT,
    ensures
        a.sum(Number::integer(v)) == Number::signed_rounded(v * d - n, d),
{
    let b = a.negated();
    lemma_sum(b, n, d, -v);
    assert((-v) * d == -(v * d)) by (nonlinear_arith);
    let t = n - v * d;
    let r = b.sum(Number::integer(-v));
    assert(r == Number::signed_rounded(t, d));
    assert(Number::signed_rounded(-t, d) == if t == 0 {
        r
    } else {
        r.negated()
    });
    if v == 0 {
        assert(0 * d == 0) by (nonlinear_arith);
    } else {
        lemma2_to64();
        lemma_exact(distance(v), 0);
        let (i, j) = (Number::integer(v), Number::integer(-v));
        assert(j == i.negated());
        let k = lesser(a.scale(), i.scale());
        assert(a.units(k) == -b.units(k));
        assert(i.units(k) == -j.units(k));
        let total = b.units(k) + j.units(k);
        assert(distance(-total) == distance(total));
        assert(r == Number::rounded(total < 0, distance(total), 1, k));
        assert(a.sum(i) == Number::rounded(-total < 0, distance(total), 1, k));
    }
}

/// The zero that has a sign is no less than any number that the other zero is no less
/// than, and no greater than any that the other is no greater than.
pub proof fn lemma_zeros_order(b: Number)
    ensures
        Number::zero(true).at_most(b) == Number::zero(false).at_most(b),
        b.at_most(Number::zero(true)) == b.at_most(Number::zero(false)),
{
    assert(forall|k: nat| #[trigger] (0 * pow2(k)) == 0) by (nonlinear_arith);
}

/// A negative number is not at least an integer that is not negative.
proof fn lemma_negative_is_less(a: Number, b: Number)
    requires
        a is Finite,
        b is Finite,
        a.is_negative(),
        !a.is_zero(),
        !b.is_negative(),
    ensures
        b.exceeds(a),
{
    let k = lesser(b.scale(), a.scale());
    let (x, y) = (pow2((a->exponent - k) as nat), pow2((b->exponent - k) as nat));
    lemma_pow2_pos((a->exponent - k) as nat);
    let (m, n) = (a->significand, b->significand);
    assert(m * x > 0 && n * y >= 0) by (nonlinear_arith)
        requires
            m > 0,
            x > 0,
            n >= 0,
            y >= 0,
    ;
}

/// The distance of a number from the integer that a range begins with, rounded: if the number
/// is in the range, it is from zero to the length of the range.
pub proof fn lemma_difference(v: Number, origin: int, extent: nat)
    requires
        v is Finite,
        v.representable(),
        -0x1_0000_0000 <= origin <= 0x1_0000_0000,
        extent <= 0x1_0000_0000,
        Number::integer(origin).at_most(v),
        v.at_most(Number::integer(origin + extent)),
    ensures
        ({
            let s = v.sum(Number::integer(-origin));
            s is Finite && s.representable() && !s.is_negative() && s.at_most(
                Number::integer(extent as int),
            )
        }),
        ({
            let d = v.denominator();
            let t = v.numerator() - origin * d;
            0 <= t <= extent * d && v.sum(Number::integer(-origin)) == Number::rounded(
                false,
                t as nat,
                d,
                0,
            )
        }),
{
    lemma2_to64();
    let top = origin + extent;
    let (lo, hi) = (Number::integer(origin), Number::integer(top));
    lemma_integer(distance(origin));
    lemma_integer(distance(top));
    lemma_integer(extent);
    if origin != 0 {
        lemma_exact(distance(origin), 0);
    }
    if top != 0 {
        lemma_exact(distance(top), 0);
    }
    let s = v.sum(Number::integer(-origin));
    if v.is_negative() && !v.is_zero() {
        let b = v.negated();
        lemma_own_ratio(b);
        let (x, d) = (rounding::power(b->exponent), rounding::power(-b->exponent));
        let n = b->significand * x;
        assert(n > 0) by (nonlinear_arith)
            requires
                n == b->significand * x,
                b->significand > 0,
                x > 0,
        ;
        if origin >= 0 {
            lemma_negative_is_less(v, lo);
        }
        let o = distance(origin);
        assert(lo.negated() == Number::integer(o as int));
        lemma_negated_order(lo, v);
        lemma_ratio_order(b, n, d, Number::integer(o as int), o, 1);
        if top < 0 {
            let u = distance(top);
            assert(hi.negated() == Number::integer(u as int));
            lemma_negated_order(v, hi);
            lemma_ratio_order(Number::integer(u as int), u, 1, b, n, d);
        }
        lemma_sum_negative(v, n, d, -origin);
        let t = (-origin) * d - n;
        assert(t == v.numerator() - origin * v.denominator()) by (nonlinear_arith)
            requires
                t == (-origin) * d - n,
                v.numerator() == -n,
                v.denominator() == d,
        ;
        assert(0 <= t && t * 1 <= extent * d) by (nonlinear_arith)
            requires
                t == (-origin) * d - n,
                n * 1 <= o * d,
                o == -origin,
                top == origin + extent,
                top >= 0 || (-top) * d <= n * 1,
                n > 0,
                d > 0,
        {
            assert(extent * d == top * d + (-origin) * d);
            if top >= 0 {
                assert(top * d >= 0);
            } else {
                assert(top * d == -((-top) * d));
            }
        }
        lemma_rounded_ordered(t as nat, d, extent, 1);
        lemma_rounded_representable(false, t as nat, d, 0);
        assert(s == Number::rounded(false, t as nat, d, 0));
    } else {
        let b = if v.is_negative() {
            Number::zero(false)
        } else {
            v
        };
        lemma_zeros_order(lo);
        lemma_zeros_order(hi);
        assert(lo.at_most(b) && b.at_most(hi));
        assert(b.sum(Number::integer(-origin)) == s) by {
            if origin != 0 {
                assert(!Number::integer(-origin).is_zero());
            }
        }
        lemma_own_ratio(b);
        let (x, d) = (rounding::power(b->exponent), rounding::power(-b->exponent));
        let n = b->significand * x;
        if top < 0 {
            lemma_negative_is_less(hi, b);
        }
        lemma_ratio_order(b, n, d, hi, top as nat, 1);
        if origin >= 0 {
            lemma_ratio_order(lo, origin as nat, 1, b, n, d);
        }
        lemma_sum(b, n, d, -origin);
        let t = n + (-origin) * d;
        assert(t == v.numerator() - origin * v.denominator()) by (nonlinear_arith)
            requires
                t == n + (-origin) * d,
                v.numerator() == n,
                v.denominator() == d,
        ;
        assert(0 <= t && t * 1 <= extent * d) by (nonlinear_arith)
            requires
                t == n + (-origin) * d,
                n * 1 <= top * d,
                top == origin + extent,
                origin < 0 || origin * d <= n * 1,
                n >= 0,
                d > 0,
        {
            assert(extent * d == top * d + (-origin) * d);
            if origin < 0 {
                assert((-origin) * d >= 0);
            } else {
                assert((-origin) * d == -(origin * d));
            }
        }
        lemma_rounded_ordered(t as nat, d, extent, 1);
        lemma_rounded_representable(false, t as nat, d, 0);
        assert(s == Number::rounded(false, t as nat, d, 0));
    }
}

/// The order of two numbers is that of their fractions, whatever the signs.
pub proof fn lemma_order_is_that_of_fractions(a: Number, b: Number)
    requires
        a is Finite,
        b is Finite,
        a.at_most(b),
    ensures
        a.numerator() * b.denominator() <= b.numerator() * a.denominator(),
        a.denominator() > 0,
        b.denominator() > 0,
{
    rounding::lemma_scale_is_power(1, a->exponent);
    rounding::lemma_scale_is_power(1, b->exponent);
    let (na, da) = (a->significand * rounding::power(a->exponent), a.denominator());
    let (nb, db) = (b->significand * rounding::power(b->exponent), b.denominator());
    if a.is_negative() && b.is_negative() {
        let (x, y) = (a.negated(), b.negated());
        lemma_own_ratio(x);
        lemma_own_ratio(y);
        lemma_negated_order(a, b);
        lemma_ratio_order(y, nb, db, x, na, da);
        assert((-na) * db == -(na * db) && (-nb) * da == -(nb * da)) by (nonlinear_arith);
    } else if !a.is_negative() && !b.is_negative() {
        lemma_own_ratio(a);
        lemma_own_ratio(b);
        lemma_ratio_order(a, na, da, b, nb, db);
    } else if a.is_negative() {
        assert((-na) * db <= 0 && nb * da >= 0) by (nonlinear_arith)
            requires
                na >= 0,
                nb >= 0,
                da > 0,
                db > 0,
        ;
    } else {
        if !b.is_zero() {
            lemma_negative_is_less(b, a);
        }
        assert(nb == 0) by (nonlinear_arith)
            requires
                nb == b->significand * rounding::power(b->exponent),
                b->significand == 0,
        ;
        if !a.is_zero() {
            lemma_own_ratio(a);
            lemma_zeros_order(a);
            let z = Number::zero(false);
            let k = lesser(a.scale(), b.scale());
            let p = pow2((a->exponent - k) as nat);
            lemma_pow2_pos((a->exponent - k) as nat);
            assert(a->significand * p > 0) by (nonlinear_arith)
                requires
                    a->significand > 0,
                    p > 0,
            ;
            assert(0 * pow2((b->exponent - k) as nat) == 0) by (nonlinear_arith);
            assert(false);
        }
        assert(na == 0) by (nonlinear_arith)
            requires
                na == a->significand * rounding::power(a->exponent),
                a->significand == 0,
        ;
        assert(0 * db == 0 && 0 * da == 0) by (nonlinear_arith);
    }
}

/// Two errors taken together: where `u / w` is off from `k` times `n / m` by at most one part
/// in `a`, and `n / m` from `x / y` by at most one in `b`, then `u / w` is off from `k` times
/// `x / y` by at most one in `c`.
pub proof fn lemma_errors_compose(
    u: int,
    w: int,
    k: int,
    n: int,
    m: int,
    x: int,
    y: int,
    a: int,
    b: int,
    c: int,
)
    requires
        w > 0,
        m > 0,
        y > 0,
        k >= 0,
        a > 0,
        b > 0,
        c > 0,
        c * (b + k * a) <= a * b,
        -(w * m) <= (u * m - k * n * w) * a <= w * m,
        -(m * y) <= (n * y - x * m) * b <= m * y,
    ensures
        -(w * y) <= (u * y - k * x * w) * c <= w * y,
{
    let e = u * m - k * n * w;
    let f = n * y - x * m;
    let g = u * y - k * x * w;
    assert(g * m == y * e + (k * w) * f) by {
        assert(y * e == (u * y) * m - (k * n * w) * y) by (nonlinear_arith)
            requires
                e == u * m - k * n * w,
        ;
        let kw = k * w;
        assert(k * n * w == kw * n && k * x * w == kw * x) by (nonlinear_arith)
            requires
                kw == k * w,
        ;
        assert(kw * (n * y - x * m) == kw * (n * y) - kw * (x * m)) by (nonlinear_arith);
        assert(kw * (n * y) == (kw * n) * y && kw * (x * m) == (kw * x) * m) by (nonlinear_arith);
        assert(g * m == (u * y) * m - (k * x * w) * m) by (nonlinear_arith)
            requires
                g == u * y - k * x * w,
        ;
    }
    let v = (w * m) * y;
    assert(v > 0) by (nonlinear_arith)
        requires
            v == (w * m) * y,
            w > 0,
            m > 0,
            y > 0,
    ;
    // The two parts, on a common denominator.
    let (p, q) = (y * e, (k * w) * f);
    assert(-v <= p * a <= v) by (nonlinear_arith)
        requires
            p == y * e,
            v == (w * m) * y,
            -(w * m) <= e * a <= w * m,
            y > 0,
    {
        assert(y * (e * a) <= y * (w * m));
        assert(y * (e * a) >= y * (-(w * m)));
    }
    let kw = k * w;
    assert(-(k * v) <= q * b <= k * v) by (nonlinear_arith)
        requires
            q == kw * f,
            kw == k * w,
            v == (w * m) * y,
            -(m * y) <= f * b <= m * y,
            k >= 0,
            w > 0,
    {
        assert(kw >= 0);
        assert(kw * (f * b) <= kw * (m * y));
        assert(kw * (f * b) >= kw * (-(m * y)));
        assert(kw * (m * y) == k * v);
    }
    let t = g * m;
    assert(-((b + k * a) * v) <= t * (a * b) <= (b + k * a) * v) by (nonlinear_arith)
        requires
            t == p + q,
            -v <= p * a <= v,
            -(k * v) <= q * b <= k * v,
            a > 0,
            b > 0,
    {
        assert((p * a) * b <= v * b);
        assert((p * a) * b >= (-v) * b);
        assert((q * b) * a <= (k * v) * a);
        assert((q * b) * a >= (-(k * v)) * a);
        assert(t * (a * b) == (p * a) * b + (q * b) * a);
    }
    let h = a * b;
    assert(h > 0) by (nonlinear_arith)
        requires
            h == a * b,
            a > 0,
            b > 0,
    ;
    let r = b + k * a;
    assert(-(v * h) <= (t * c) * h <= v * h) by (nonlinear_arith)
        requires
            -(r * v) <= t * h <= r * v,
            c * r <= h,
            c > 0,
            v > 0,
    {
        assert(c * (t * h) <= c * (r * v));
        assert(c * (t * h) >= c * (-(r * v)));
        assert((c * r) * v <= h * v);
    }
    assert(-v <= t * c <= v) by (nonlinear_arith)
        requires
            -(v * h) <= (t * c) * h <= v * h,
            h > 0,
    ;
    assert(-(w * y) <= g * c <= w * y) by (nonlinear_arith)
        requires
            -v <= t * c <= v,
            t == g * m,
            v == (w * m) * y,
            m > 0,
    {
        assert((g * c) * m <= (w * y) * m);
        assert((g * c) * m >= (-(w * y)) * m);
    }
}

/// Changing the sign of an operand changes the sign of a product or a quotient, and nothing
/// else; changing the signs of both terms changes that of a sum, unless it is zero.
pub proof fn law_signs(a: Number, b: Number)
    ensures
        a.negated().product(b) == a.product(b).negated(),
        a.product(b.negated()) == a.product(b).negated(),
        a.negated().quotient(b) == a.quotient(b).negated(),
        a.quotient(b.negated()) == a.quotient(b).negated(),
        !a.sum(b).is_zero() ==> a.negated().sum(b.negated()) == a.sum(b).negated(),
        a.sum(b) == b.sum(a),
        a.product(b) == b.product(a),
        a.negated().negated() == a,
        b.negated().exceeds(a.negated()) == a.exceeds(b),
{
    assert(forall|x: nat, y: nat| #[trigger] (x * y) == y * x) by (nonlinear_arith);
    if a is Finite && b is Finite && !a.is_zero() && !b.is_zero() {
        let k = lesser(a.scale(), b.scale());
        let total = a.units(k) + b.units(k);
        assert(a.negated().units(k) == -a.units(k) && b.negated().units(k) == -b.units(k));
        assert(distance(-total) == distance(total));
        assert(a.sum(b) == Number::rounded(total < 0, distance(total), 1, k));
        assert(b.sum(a) == Number::rounded(total < 0, distance(total), 1, k));
        assert(a.negated().sum(b.negated()) == Number::rounded(
            -total < 0,
            distance(total),
            1,
            k,
        ));
    }
}

/// Taking the integer part takes the fraction away from both sides of zero alike, and what is
/// out of range goes to the end of the range.
pub proof fn law_truncated(a: Number, lo: int, hi: int)
    requires
        lo <= 0 <= hi,
    ensures
        lo <= a.truncated(lo, hi) <= hi,
        Number::NaN.truncated(lo, hi) == 0,
        (Number::Infinite { negative: false }).truncated(lo, hi) == hi,
        (Number::Infinite { negative: true }).truncated(lo, hi) == lo,
        a is Finite ==> a.negated().truncated(-hi, -lo) == -a.truncated(lo, hi),
        a is Finite && !a.is_negative() ==> {
            let (n, d) = (a.numerator(), a.denominator() as int);
            let t = a.truncated(lo, hi);
            d > 0 && (t == hi && hi * d <= n || t * d <= n < (t + 1) * d)
        },
{
    if a is Finite && !a.is_negative() {
        lemma_own_ratio(a);
        let (n, d) = (a.numerator() as nat, a.denominator());
        lemma_truncated(a, n, d, lo, hi);
        let (q, r) = (n / d, n % d);
        vstd::arithmetic::div_mod::lemma_fundamental_div_mod(n as int, d as int);
        vstd::arithmetic::div_mod::lemma_mod_bound(n as int, d as int);
        assert(q * d <= n < (q + 1) * d) by (nonlinear_arith)
            requires
                n == d * q + r,
                0 <= r < d,
        ;
        if q > hi {
            assert(hi * d <= n) by (nonlinear_arith)
                requires
                    q * d <= n,
                    hi < q,
                    d > 0,
            ;
        }
    }
}

/// The bits of a double: the sign, eleven bits of the exponent, and 52 of the significand.
pub proof fn law_bits(a: Number)
    requires
        a.representable(),
    ensures
        ({
            let b = a.bits();
            let (sign, exponent, fraction) = (
                b / 0x8000_0000_0000_0000,
                (b / 0x10_0000_0000_0000) % 2048,
                b % 0x10_0000_0000_0000,
            );
            &&& 0 <= b <= u64::MAX
            &&& a !is NaN ==> sign == if a.is_negative() {
                1int
            } else {
                0int
            }
            &&& a is NaN ==> exponent == 2047 && fraction > 0
            &&& a is Infinite ==> exponent == 2047 && fraction == 0
            &&& a is Finite ==> {
                let m = a->significand;
                if m >= 0x10_0000_0000_0000 {
                    exponent == a->exponent + 1075 && fraction == m - 0x10_0000_0000_0000
                } else {
                    exponent == 0 && fraction == m && (m > 0 ==> a->exponent == -1074)
                }
            }
        }),
{
}

/// The integers of up to 53 bits are doubles, and zero is the one without a sign.
pub proof fn law_integer(v: int)
    requires
        -LIMIT < v < LIMIT,
    ensures
        Number::integer(v) is Finite,
        Number::integer(v).is_negative() == (v < 0),
        Number::integer(v).numerator() == v * Number::integer(v).denominator(),
{
    let size = distance(v);
    let a = Number::integer(size as int);
    lemma_integer(size);
    lemma_own_ratio(a);
    let b = Number::integer(v);
    if v < 0 {
        assert(b == a.negated());
    }
    let (n, d) = (a->significand * rounding::power(a->exponent), a.denominator());
    assert(n * 1 == size * d);
    assert(v < 0 ==> -n == v * d) by (nonlinear_arith)
        requires
            n == size * d,
            v < 0 ==> v == -size,
    ;
}

/// What there is no number for is not a number: what NaN is part of, infinities that cancel
/// out, zeros or infinities of which one is divided by the other, and a zero of infinities.
/// Otherwise an infinity wins over a number, a number is nothing beside one, and dividing by
/// zero gives one. The sign is as for other numbers.
pub proof fn law_not_a_number(a: Number, b: Number)
    ensures
        a.sum(b) is NaN <==> a is NaN || b is NaN || (a is Infinite && b is Infinite
            && a.is_negative() != b.is_negative()),
        a.product(b) is NaN <==> a is NaN || b is NaN || (a.is_zero() && b is Infinite) || (
        a is Infinite && b.is_zero()),
        a.quotient(b) is NaN <==> a is NaN || b is NaN || (a.is_zero() && b.is_zero()) || (
        a is Infinite && b is Infinite),
        a is Infinite && b is Finite ==> a.sum(b) == a && a.quotient(b) is Infinite,
        a is Infinite && !(b is NaN) && !b.is_zero() ==> a.product(b) is Infinite,
        a is Finite && b is Infinite ==> a.quotient(b).is_zero(),
        a is Finite && !a.is_zero() && b.is_zero() ==> a.quotient(b) is Infinite,
        !(a.product(b) is NaN) ==> a.product(b).is_negative() == (a.is_negative()
            != b.is_negative()),
        !(a.quotient(b) is NaN) ==> a.quotient(b).is_negative() == (a.is_negative()
            != b.is_negative()),
        a.exceeds(b) ==> !(a is NaN) && !(b is NaN) && !b.exceeds(a),
        a is Infinite && b is Finite ==> a.exceeds(b) == !a.is_negative() && b.exceeds(a)
            == a.is_negative(),
{
    if a is Finite && b is Finite {
        lemma_rounded_representable(
            a.is_negative() != b.is_negative(),
            a->significand * b->significand,
            1,
            a->exponent + b->exponent,
        );
        if b->significand > 0 {
            lemma_rounded_representable(
                a.is_negative() != b.is_negative(),
                a->significand,
                b->significand,
                a->exponent - b->exponent,
            );
        }
        let k = lesser(a.scale(), b.scale());
        let total = a.units(k) + b.units(k);
        lemma_rounded_representable(total < 0, distance(total), 1, k);
    }
}

/// A zero changes nothing in a sum; two of them make one without a sign, unless both have it.
pub proof fn law_sum_with_zero(a: Number, b: Number)
    requires
        a.is_zero(),
        b is Finite,
    ensures
        !b.is_zero() ==> a.sum(b) == b && b.sum(a) == b,
        b.is_zero() ==> a.sum(b).is_zero() && a.sum(b).is_negative() == (a.is_negative()
            && b.is_negative()),
{
}

/// A sum of numbers is that of their fractions, rounded once.
pub proof fn law_sum(a: Number, b: Number)
    requires
        a is Finite,
        b is Finite,
        !a.is_zero(),
        !b.is_zero(),
    ensures
        a.sum(b) == Number::signed_rounded(
            a.numerator() * b.denominator() + b.numerator() * a.denominator(),
            a.denominator() * b.denominator(),
        ),
        a.denominator() * b.denominator() > 0,
{
    let x1 = if a.is_negative() {
        a.negated()
    } else {
        a
    };
    let y1 = if b.is_negative() {
        b.negated()
    } else {
        b
    };
    lemma_own_ratio(x1);
    lemma_own_ratio(y1);
    let (na, da) = (a.numerator(), a.denominator());
    let (nb, db) = (b.numerator(), b.denominator());
    let k = lesser(a.scale(), b.scale());
    lemma_units_ratio(x1, distance(na), da, k);
    lemma_units_ratio(y1, distance(nb), db, k);
    let (ua, ub) = (a.units(k), b.units(k));
    rounding::lemma_scale_is_power(1, k);
    let (x, y) = (rounding::power(k), rounding::power(-k));
    lemma_signed_product(x1.units(k), x, da, distance(na), y);
    lemma_signed_product(y1.units(k), x, db, distance(nb), y);
    assert((ua * x) * da == na * y && (ub * x) * db == nb * y);
    let (total, t, d) = (ua + ub, na * db + nb * da, da * db);
    assert(d > 0) by (nonlinear_arith)
        requires
            d == da * db,
            da > 0,
            db > 0,
    ;
    assert((total * x) * d == t * y) by (nonlinear_arith)
        requires
            (ua * x) * da == na * y,
            (ub * x) * db == nb * y,
            total == ua + ub,
            t == na * db + nb * da,
            d == da * db,
    {
        assert((total * x) * d == ((ua * x) * da) * db + ((ub * x) * db) * da);
        assert(t * y == (na * y) * db + (nb * y) * da);
    }
    lemma_distances(total, x, d, t, y);
    let (st, tt) = (distance(total), distance(t));
    lemma_rounded_shift(total < 0, st, 1, k);
    assert(1 * y == y) by (nonlinear_arith);
    lemma_rounded_same(st * x, y, tt, d);
    lemma_sign_only(st * x, y, tt, d);
}

proof fn lemma_signed_product(u: int, x: nat, d: nat, n: nat, y: nat)
    by (nonlinear_arith)
    requires
        (u * x) * d == n * y,
    ensures
        ((-u) * x) * d == (-n) * y,
{
    assert((-u) * x == -(u * x));
    assert((-(u * x)) * d == -((u * x) * d));
    assert((-n) * y == -(n * y));
}

proof fn lemma_distances(total: int, x: nat, d: nat, t: int, y: nat)
    by (nonlinear_arith)
    requires
        (total * x) * d == t * y,
        x > 0,
        y > 0,
        d > 0,
    ensures
        (total < 0) == (t < 0),
        (distance(total) * x) * d == distance(t) * y,
{
    if total < 0 {
        assert(total * x < 0);
        assert((total * x) * d < 0);
        assert(t < 0) by {
            if t >= 0 {
                assert(t * y >= 0);
            }
        }
        assert((distance(total) * x) * d == -((total * x) * d));
        assert(distance(t) * y == -(t * y));
    } else {
        assert(total * x >= 0);
        assert((total * x) * d >= 0);
        assert(t >= 0) by {
            if t < 0 {
                assert(t * y < 0);
            }
        }
    }
}

} // verus!
