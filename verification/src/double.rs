//! Double precision arithmetic on integers.
//!
//! [`Double`] computes what the hardware computes on `f64`, result for result, and
//! [`Number`] says in numbers what that is: the exact result of each operation,
//! rounded once.
use crate::number::{self, Number, GREATEST_EXPONENT, LEAST_EXPONENT};
use crate::rounding::{self, round, LEAST, LIMIT};
use vstd::arithmetic::power2::*;
use vstd::prelude::*;

verus! {

/// A double: an `f64` taken apart.
#[derive(Clone, Copy, Debug, PartialEq, Eq, Structural)]
pub enum Double {
    NaN,
    Infinite { negative: bool },
    Finite { negative: bool, significand: u64, exponent: i32 },
}

impl View for Double {
    type V = Number;

    open spec fn view(&self) -> Number {
        match self {
            Double::NaN => Number::NaN,
            Double::Infinite { negative } => Number::Infinite { negative: *negative },
            Double::Finite { negative, significand, exponent } => Number::Finite {
                negative: *negative,
                significand: *significand as nat,
                exponent: *exponent as int,
            },
        }
    }
}

impl Double {
    /// Whether the parts are those of an `f64`: each number has one such form.
    pub open spec fn wf(self) -> bool {
        self@.representable()
    }

    /// `±(n / d) * 2^e`, rounded.
    fn rounded(negative: bool, n: u128, d: u128, e: i32) -> (r: Double)
        requires
            n < 0x4000_0000_0000_0000_0000_0000_0000_0000,
            0 < d < 0x4000_0000_0000_0000,
            -2500 <= e <= 2500,
        ensures
            r@ == Number::rounded(negative, n as nat, d as nat, e as int),
            r.wf(),
    {
        if n == 0 {
            return Double::Finite { negative, significand: 0, exponent: 0 };
        }
        let p = round(n, d);
        let exponent: i32 = p.1 + e;
        if exponent > GREATEST_EXPONENT {
            Double::Infinite { negative }
        } else if exponent >= LEAST_EXPONENT {
            Double::Finite { negative, significand: p.0, exponent }
        } else {
            let m: u64 = round_subnormal(n, d, LEAST_EXPONENT - e);
            if m == 0 {
                Double::Finite { negative, significand: 0, exponent: 0 }
            } else {
                Double::Finite { negative, significand: m, exponent: LEAST_EXPONENT }
            }
        }
    }

    /// The number `v * 2^e`.
    pub fn scaled(v: i64, e: i32) -> (r: Double)
        requires
            -2500 <= e <= 2500,
        ensures
            r@ == Number::rounded(v < 0, number::distance(v as int), 1, e as int),
            r.wf(),
    {
        let n: u128 = if v < 0 {
            (-(v as i128)) as u128
        } else {
            v as u128
        };
        Double::rounded(v < 0, n, 1, e)
    }

    /// The number `v`.
    pub fn integer(v: i64) -> (r: Double)
        ensures
            r@ == Number::integer(v as int),
            r.wf(),
    {
        Double::scaled(v, 0)
    }

    fn is_negative(self) -> (b: bool)
        ensures
            b == self@.is_negative(),
    {
        match self {
            Double::NaN => false,
            Double::Infinite { negative } => negative,
            Double::Finite { negative, .. } => negative,
        }
    }

    /// `self == 0`, as `f64` compares.
    pub fn is_zero(self) -> (b: bool)
        ensures
            b == self@.is_zero(),
    {
        match self {
            Double::Finite { significand, .. } => significand == 0,
            _ => false,
        }
    }

    /// `self / other`, as `f64` divides.
    pub fn quotient(self, other: Double) -> (r: Double)
        requires
            self.wf(),
            other.wf(),
        ensures
            r@ == self@.quotient(other@),
            r.wf(),
    {
        let negative: bool = self.is_negative() != other.is_negative();
        match (self, other) {
            (Double::NaN, _) => Double::NaN,
            (_, Double::NaN) => Double::NaN,
            (Double::Infinite { .. }, Double::Infinite { .. }) => Double::NaN,
            (Double::Infinite { .. }, Double::Finite { .. }) => Double::Infinite { negative },
            (Double::Finite { .. }, Double::Infinite { .. }) => Double::Finite {
                negative,
                significand: 0,
                exponent: 0,
            },
            (
                Double::Finite { significand: m1, exponent: e1, .. },
                Double::Finite { significand: m2, exponent: e2, .. },
            ) => if m2 == 0 {
                if m1 == 0 {
                    Double::NaN
                } else {
                    Double::Infinite { negative }
                }
            } else {
                Double::rounded(negative, m1 as u128, m2 as u128, e1 - e2)
            },
        }
    }

    /// `self * other`, as `f64` multiplies.
    pub fn product(self, other: Double) -> (r: Double)
        requires
            self.wf(),
            other.wf(),
        ensures
            r@ == self@.product(other@),
            r.wf(),
    {
        let negative: bool = self.is_negative() != other.is_negative();
        match (self, other) {
            (Double::NaN, _) => Double::NaN,
            (_, Double::NaN) => Double::NaN,
            (
                Double::Finite { significand: m1, exponent: e1, .. },
                Double::Finite { significand: m2, exponent: e2, .. },
            ) => {
                assert(0 <= m1 * m2 < LIMIT * LIMIT) by (nonlinear_arith)
                    requires
                        0 <= m1 < LIMIT,
                        0 <= m2 < LIMIT,
                ;
                Double::rounded(negative, (m1 as u128) * (m2 as u128), 1, e1 + e2)
            },
            _ => if self.is_zero() || other.is_zero() {
                Double::NaN
            } else {
                Double::Infinite { negative }
            },
        }
    }

    /// `self > other`, as `f64` compares.
    pub fn exceeds(self, other: Double) -> (b: bool)
        requires
            self.wf(),
            other.wf(),
        ensures
            b == self@.exceeds(other@),
    {
        match (self, other) {
            (Double::NaN, _) => false,
            (_, Double::NaN) => false,
            (Double::Infinite { negative: s1 }, Double::Infinite { negative: s2 }) => !s1 && s2,
            (Double::Infinite { negative }, Double::Finite { .. }) => !negative,
            (Double::Finite { .. }, Double::Infinite { negative }) => negative,
            (
                Double::Finite { negative: s1, significand: m1, exponent: e1 },
                Double::Finite { negative: s2, significand: m2, exponent: e2 },
            ) => {
                proof {
                    lemma_exceeds(self, other);
                }
                if m1 == 0 || m2 == 0 || s1 != s2 {
                    (m1 != 0 && !s1) || (m2 != 0 && s2)
                } else if e1 != e2 {
                    (e1 > e2) != s1
                } else if s1 {
                    m1 < m2
                } else {
                    m1 > m2
                }
            },
        }
    }
}

impl Double {
    /// `self + other`, as `f64` adds.
    pub fn sum(self, other: Double) -> (r: Double)
        requires
            self.wf(),
            other.wf(),
        ensures
            r@ == self@.sum(other@),
            r.wf(),
    {
        proof {
            lemma2_to64();
            assert(forall|m: nat| #[trigger] (m * 1) == m) by (nonlinear_arith);
        }
        match (self, other) {
            (Double::NaN, _) => Double::NaN,
            (_, Double::NaN) => Double::NaN,
            (Double::Infinite { negative: s1 }, Double::Infinite { negative: s2 }) => if s1 == s2 {
                self
            } else {
                Double::NaN
            },
            (Double::Infinite { .. }, Double::Finite { .. }) => self,
            (Double::Finite { .. }, Double::Infinite { .. }) => other,
            (
                Double::Finite { negative: s1, significand: m1, exponent: e1 },
                Double::Finite { negative: s2, significand: m2, exponent: e2 },
            ) => if m1 == 0 && m2 == 0 {
                Double::Finite { negative: s1 && s2, significand: 0, exponent: 0 }
            } else if m1 == 0 {
                other
            } else if m2 == 0 {
                self
            } else if e1 >= e2 {
                sum_ordered(s1, m1, e1, s2, m2, e2)
            } else {
                sum_ordered(s2, m2, e2, s1, m1, e1)
            },
        }
    }

    /// `self >= 0`, as `f64` compares.
    pub fn is_at_least_zero(self) -> (b: bool)
        ensures
            b == self@.is_at_least_zero(),
    {
        match self {
            Double::NaN => false,
            Double::Infinite { negative } => !negative,
            Double::Finite { negative, significand, .. } => significand == 0 || !negative,
        }
    }

    /// The `u32` that `as u32` gives.
    pub fn to_u32(self) -> (v: u32)
        requires
            self.wf(),
        ensures
            v == self@.truncated(0, u32::MAX as int),
    {
        match self {
            Double::NaN => 0,
            Double::Infinite { negative } => if negative {
                0
            } else {
                u32::MAX
            },
            Double::Finite { negative, significand, exponent } => if negative {
                0
            } else {
                let size: u64 = capped(significand, exponent);
                if size > 0xffff_ffff {
                    u32::MAX
                } else {
                    size as u32
                }
            },
        }
    }

    /// The `i32` that `as i32` gives.
    pub fn to_i32(self) -> (v: i32)
        requires
            self.wf(),
        ensures
            v == self@.truncated(i32::MIN as int, i32::MAX as int),
    {
        match self {
            Double::NaN => 0,
            Double::Infinite { negative } => if negative {
                i32::MIN
            } else {
                i32::MAX
            },
            Double::Finite { negative, significand, exponent } => {
                let size: u64 = capped(significand, exponent);
                if negative {
                    if size > 0x7fff_ffff {
                        i32::MIN
                    } else {
                        -(size as i32)
                    }
                } else if size > 0x7fff_ffff {
                    i32::MAX
                } else {
                    size as i32
                }
            },
        }
    }

    /// The double with the given bits.
    pub fn from_bits(b: u64) -> (r: Double)
        ensures
            r.wf(),
            r is NaN <==> b % 0x8000_0000_0000_0000 > 0x7ff0_0000_0000_0000,
            r !is NaN ==> r@.bits() == b,
    {
        let negative: bool = b >= 0x8000_0000_0000_0000;
        let rest: u64 = b % 0x8000_0000_0000_0000;
        let exponent: u64 = rest / 0x10_0000_0000_0000;
        let fraction: u64 = rest % 0x10_0000_0000_0000;
        if exponent == 0x7ff {
            if fraction == 0 {
                Double::Infinite { negative }
            } else {
                Double::NaN
            }
        } else if exponent == 0 {
            if fraction == 0 {
                Double::Finite { negative, significand: 0, exponent: 0 }
            } else {
                Double::Finite { negative, significand: fraction, exponent: LEAST_EXPONENT }
            }
        } else {
            Double::Finite {
                negative,
                significand: fraction + LEAST,
                exponent: exponent as i32 - 1075,
            }
        }
    }

    /// The bits of this number as an `f64`.
    pub fn to_bits(self) -> (b: u64)
        requires
            self.wf(),
        ensures
            b == self@.bits(),
    {
        let sign: u64 = if self.is_negative() {
            0x8000_0000_0000_0000
        } else {
            0
        };
        match self {
            Double::NaN => 0x7ff8_0000_0000_0000,
            Double::Infinite { .. } => sign + 0x7ff0_0000_0000_0000,
            Double::Finite { significand, exponent, .. } => if significand == 0 {
                sign
            } else {
                sign + ((exponent + 1074) as u64) * 0x10_0000_0000_0000 + significand
            },
        }
    }
}

/// `n / d / 2^k`, which is known to be below `2^53`, rounded to an integer.
fn round_subnormal(n: u128, d: u128, k: i32) -> (m: u64)
    requires
        0 < n < 0x4000_0000_0000_0000_0000_0000_0000_0000,
        0 < d < 0x4000_0000_0000_0000,
        rounding::nearest(n as nat, d as nat).1 < k,
    ensures
        m == rounding::half_even(
            rounding::scale_up(n as nat, k as int),
            rounding::scale_down(d as nat, k as int),
        ),
        m < LIMIT,
        m <= LEAST,
{
    proof {
        lemma2_to64();
        assert(n * 1 == n && d * 1 == d) by (nonlinear_arith);
        number::lemma_subnormal_bound(n as nat, d as nat, k as int);
    }
    let mut num: u128 = n;
    let mut den: u128 = d;
    let mut i: i32 = 0;
    while i > k
        invariant
            i >= k || i == 0,
            i <= 0,
            d < 0x4000_0000_0000_0000,
            num == n * pow2((-i) as nat),
            0 < num < 0x4000_0000_0000_0000_0000_0000_0000_0000,
            k < 0 ==> n * pow2((-k) as nat) < LEAST * d,
        decreases i - k,
    {
        proof {
            lemma_pow2_unfold((1 - i) as nat);
            let p = pow2((-i) as nat);
            assert(n * (2 * p) == 2 * (n * p)) by (nonlinear_arith);
            let q = pow2((-k) as nat);
            if -i + 1 < -k {
                lemma_pow2_strictly_increases((1 - i) as nat, (-k) as nat);
            }
            assert(n * (2 * p) <= n * q) by (nonlinear_arith)
                requires
                    2 * p <= q,
            ;
        }
        num = num * 2;
        i = i - 1;
    }
    while i < k && den <= 2 * num
        invariant
            i <= k || k <= 0,
            k > 0 ==> num == n && i >= 0 && den == d * pow2(i as nat),
            k <= 0 ==> i == k && den == d,
            den > 0,
            0 < num < 0x4000_0000_0000_0000_0000_0000_0000_0000,
        decreases k - i,
    {
        proof {
            lemma_pow2_unfold((i + 1) as nat);
            let p = pow2(i as nat);
            assert(d * (2 * p) == 2 * (d * p)) by (nonlinear_arith);
        }
        den = den * 2;
        i = i + 1;
    }
    proof {
        rounding::lemma_half_even(num as nat, den as nat);
    }
    if i < k {
        proof {
            lemma_pow2_strictly_increases(i as nat, k as nat);
            let p = pow2(i as nat);
            let q = pow2(k as nat);
            assert(d * p <= d * q) by (nonlinear_arith)
                requires
                    p <= q,
            ;
            vstd::arithmetic::div_mod::lemma_basic_div(n as int, (d * q) as int);
            vstd::arithmetic::div_mod::lemma_small_mod(n as nat, (d * q) as nat);
        }
        return 0;
    }
    let q: u128 = num / den;
    let r: u128 = num % den;
    proof {
        vstd::arithmetic::div_mod::lemma_mod_decreases(num as nat, den as nat);
    }
    if 2 * r < den || (2 * r == den && q % 2 == 0) {
        q as u64
    } else {
        (q + 1) as u64
    }
}

/// The integer part of `m * 2^e`, or something above every `u32` where that is.
fn capped(m: u64, e: i32) -> (size: u64)
    requires
        m == 0 && e == 0 || LEAST <= m < LIMIT || m < LEAST && e == LEAST_EXPONENT,
    ensures
        size <= 0xffff_ffff ==> size == number::whole(m as nat, e as int),
        size > 0xffff_ffff ==> number::whole(m as nat, e as int) > 0xffff_ffff,
{
    proof {
        lemma2_to64();
        lemma2_to64_rest();
    }
    if e >= 0 {
        proof {
            lemma_pow2_pos(e as nat);
            let p = pow2(e as nat);
            assert(m * p >= m) by (nonlinear_arith)
                requires
                    p > 0,
            ;
            assert(m * 1 == m) by (nonlinear_arith);
        }
        m
    } else if e <= -53 {
        proof {
            let p = pow2((-e) as nat);
            if -e > 53 {
                lemma_pow2_strictly_increases(53, (-e) as nat);
            }
            vstd::arithmetic::div_mod::lemma_basic_div(m as int, p as int);
        }
        0
    } else {
        let shift: u64 = (-e) as u64;
        proof {
            vstd::bits::lemma_u64_shr_is_div(m, shift);
        }
        m >> shift
    }
}

/// `m * 2^k`.
fn shifted(m: u64, k: i32) -> (r: u128)
    requires
        0 <= k <= 72,
        m < LIMIT,
    ensures
        r == m * pow2(k as nat),
        r <= 0x2000_0000_0000_0000_0000_0000_0000_0000,
{
    let mut r: u128 = m as u128;
    let mut i: i32 = 0;
    proof {
        lemma2_to64();
        assert(m * 1 == m) by (nonlinear_arith);
    }
    while i < k
        invariant
            0 <= i <= k <= 72,
            m < LIMIT,
            r == m * pow2(i as nat),
            pow2(i as nat) <= 0x100_0000_0000_0000_0000,
        decreases k - i,
    {
        proof {
            lemma_pow2_adds(64, 8);
            lemma2_to64();
            lemma2_to64_rest();
            if i + 1 < 72 {
                lemma_pow2_strictly_increases((i + 1) as nat, 72);
            }
            lemma_pow2_unfold((i + 1) as nat);
            let p = pow2(i as nat);
            let p1 = pow2((i + 1) as nat);
            assert(m * (2 * p) == 2 * (m * p)) by (nonlinear_arith);
            assert(m * p1 <= LIMIT * p1) by (nonlinear_arith)
                requires
                    m < LIMIT,
                    p1 >= 0,
            ;
        }
        r = r * 2;
        i = i + 1;
    }
    proof {
        let p = pow2(k as nat);
        assert(m * p <= LIMIT * p) by (nonlinear_arith)
            requires
                m < LIMIT,
                p >= 0,
        ;
    }
    r
}

/// The sum of two numbers, of which the first has the greater exponent.
fn sum_ordered(s1: bool, m1: u64, e1: i32, s2: bool, m2: u64, e2: i32) -> (r: Double)
    requires
        0 < m1 < LIMIT,
        0 < m2 < LIMIT,
        LEAST_EXPONENT <= e2 <= e1 <= GREATEST_EXPONENT,
        e1 > LEAST_EXPONENT ==> LEAST <= m1,
    ensures
        ({
            let total = number::signed(s1, m1 * pow2((e1 - e2) as nat)) + number::signed(s2, m2 as int);
            r@ == Number::rounded(total < 0, number::distance(total), 1, e2 as int)
        }),
        r.wf(),
{
    if e1 - e2 > 72 {
        proof {
            lemma_absorbed(m1 as nat, m2 as nat, (e1 - e2) as nat);
        }
        Double::Finite { negative: s1, significand: m1, exponent: e1 }
    } else {
        let big: i128 = shifted(m1, e1 - e2) as i128;
        let small: i128 = m2 as i128;
        let total: i128 = if s1 {
            if s2 {
                -big - small
            } else {
                small - big
            }
        } else {
            if s2 {
                big - small
            } else {
                big + small
            }
        };
        let n: u128 = if total < 0 {
            (-total) as u128
        } else {
            total as u128
        };
        Double::rounded(total < 0, n, 1, e2)
    }
}

/// A number that is small enough does not change the one it is added to.
proof fn lemma_absorbed(m1: nat, m2: nat, g: nat)
    requires
        LEAST <= m1 < LIMIT,
        0 < m2 < LIMIT,
        g > 60,
    ensures
        m1 * pow2(g) > m2,
        rounding::nearest((m1 * pow2(g) + m2) as nat, 1) == (m1, g as int),
        rounding::nearest((m1 * pow2(g) - m2) as nat, 1) == (m1, g as int),
{
    let p = pow2(g);
    let h = pow2((g - 1) as nat);
    let q = pow2((g - 2) as nat);
    lemma_pow2_unfold(g);
    lemma_pow2_unfold((g - 1) as nat);
    lemma2_to64();
    lemma2_to64_rest();
    if g > 61 {
        lemma_pow2_strictly_increases(59, (g - 2) as nat);
    }
    assert(q >= 0x400_0000_0000_0000);
    number::lemma_shifted_exceeds(m1, m2, g);
    let up = (m1 * p + m2) as nat;
    let down = (m1 * p - m2) as nat;
    assert(1 * p == p && 1 * h == h) by (nonlinear_arith);
    assert(LEAST * p <= m1 * p) by (nonlinear_arith)
        requires
            LEAST <= m1,
    ;
    assert(m1 * p <= LIMIT * p - p) by (nonlinear_arith)
        requires
            m1 <= LIMIT - 1,
    ;
    // Upwards the exponent stays.
    rounding::lemma_binade_is(up, 1, g as int);
    vstd::arithmetic::div_mod::lemma_fundamental_div_mod_converse(
        up as int,
        p as int,
        m1 as int,
        m2 as int,
    );
    if m1 > LEAST {
        assert(LEAST * p + p <= m1 * p) by (nonlinear_arith)
            requires
                LEAST + 1 <= m1,
        ;
        rounding::lemma_binade_is(down, 1, g as int);
        assert((m1 - 1) * p + (p - m2) == m1 * p - m2) by (nonlinear_arith);
        vstd::arithmetic::div_mod::lemma_fundamental_div_mod_converse(
            down as int,
            p as int,
            m1 - 1,
            p - m2,
        );
    } else {
        // Downwards from a power of two it is one less, and rounding carries.
        assert(m1 * p == LIMIT * h) by (nonlinear_arith)
            requires
                m1 == LEAST,
                p == 2 * h,
                LIMIT == 2 * LEAST,
        ;
        assert(LIMIT * h == 2 * (LEAST * h)) by (nonlinear_arith)
            requires
                LIMIT == 2 * LEAST,
        ;
        assert(LEAST * h >= h) by (nonlinear_arith);
        rounding::lemma_binade_is(down, 1, g - 1);
        assert((LIMIT - 1) * h + (h - m2) == LIMIT * h - m2) by (nonlinear_arith);
        vstd::arithmetic::div_mod::lemma_fundamental_div_mod_converse(
            down as int,
            h as int,
            LIMIT - 1,
            h - m2,
        );
    }
}

/// The order of two numbers, told from their signs, exponents and significands.
proof fn lemma_exceeds(a: Double, b: Double)
    requires
        a.wf(),
        b.wf(),
        a is Finite,
        b is Finite,
    ensures
        ({
            let (s1, m1, e1) = (a->Finite_negative, a->significand, a->exponent);
            let (s2, m2, e2) = (b->Finite_negative, b->significand, b->exponent);
            a@.exceeds(b@) == if m1 == 0 || m2 == 0 || s1 != s2 {
                (m1 != 0 && !s1) || (m2 != 0 && s2)
            } else if e1 != e2 {
                (e1 > e2) != s1
            } else if s1 {
                m1 < m2
            } else {
                m1 > m2
            }
        }),
{
    let (m1, e1) = (a->significand as nat, a->exponent as int);
    let (m2, e2) = (b->significand as nat, b->exponent as int);
    let k = number::lesser(e1, e2);
    lemma2_to64();
    let p1 = pow2((e1 - k) as nat);
    let p2 = pow2((e2 - k) as nat);
    lemma_pow2_pos((e1 - k) as nat);
    lemma_pow2_pos((e2 - k) as nat);
    assert(m1 > 0 ==> m1 * p1 > 0) by (nonlinear_arith)
        requires
            p1 > 0,
    ;
    assert(m2 > 0 ==> m2 * p2 > 0) by (nonlinear_arith)
        requires
            p2 > 0,
    ;
    assert(m1 == 0 ==> m1 * p1 == 0) by (nonlinear_arith);
    assert(m2 == 0 ==> m2 * p2 == 0) by (nonlinear_arith);
    assert(m1 * 1 == m1 && m2 * 1 == m2) by (nonlinear_arith);
    if m1 > 0 && m2 > 0 {
        if e1 > e2 {
            number::lemma_shifted_exceeds(m1, m2, (e1 - e2) as nat);
        } else if e2 > e1 {
            number::lemma_shifted_exceeds(m2, m1, (e2 - e1) as nat);
        }
    }
}

} // verus!
