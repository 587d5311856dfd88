//! Rounding of positive fractions to 53 significant bits: to the nearest, and
//! half-way cases to the even one. This is how IEEE 754 rounds the result of an
//! operation on doubles.
//!
//! A rounded value is a pair `(m, e)` that stands for `m * 2^e`, with
//! `2^52 <= m < 2^53`. The exponent is not bounded here.
use vstd::arithmetic::power2::*;
use vstd::prelude::*;

verus! {

/// `2^52`, the least significand of a rounded value.
pub const LEAST: u64 = 0x10_0000_0000_0000;

/// `2^53`, which no significand reaches.
pub const LIMIT: u64 = 0x20_0000_0000_0000;

/// The numerator of `n / d / 2^e`, where the denominator is [`scale_down`].
pub open spec fn scale_up(n: nat, e: int) -> nat {
    if e < 0 {
        n * pow2((-e) as nat)
    } else {
        n
    }
}

/// The denominator of `n / d / 2^e`, where the numerator is [`scale_up`].
pub open spec fn scale_down(d: nat, e: int) -> nat {
    if e > 0 {
        d * pow2(e as nat)
    } else {
        d
    }
}

/// Whether `n / d` lies between `2^(52 + e)` and `2^(53 + e)`, the first included.
pub open spec fn in_binade(n: nat, d: nat, e: int) -> bool {
    LEAST * scale_down(d, e) <= scale_up(n, e) < LIMIT * scale_down(d, e)
}

/// The exponent with which `n / d` has 53 bits before the binary point.
pub open spec fn binade(n: nat, d: nat) -> int {
    choose|e: int| in_binade(n, d, e)
}

/// The integer nearest to `n / d`, the even one where two are.
pub open spec fn half_even(n: nat, d: nat) -> nat {
    let q = n / d;
    let r = n % d;
    if 2 * r < d || (2 * r == d && q % 2 == 0) {
        q
    } else {
        q + 1
    }
}

/// The pair that stands for `m * 2^e`, where `m` may have reached `2^53`.
pub open spec fn carried(m: nat, e: int) -> (nat, int) {
    if m == LIMIT {
        (LEAST as nat, e + 1)
    } else {
        (m, e)
    }
}

/// `n / d` rounded to 53 significant bits.
pub open spec fn nearest(n: nat, d: nat) -> (nat, int) {
    let e = binade(n, d);
    carried(half_even(scale_up(n, e), scale_down(d, e)), e)
}

/// Whether the pair is one that [`nearest`] can give.
pub open spec fn canonical(p: (nat, int)) -> bool {
    LEAST <= p.0 < LIMIT
}

/// Whether the value of one canonical pair is at most that of another.
pub open spec fn pair_le(p: (nat, int), q: (nat, int)) -> bool {
    p.1 < q.1 || (p.1 == q.1 && p.0 <= q.0)
}

/// Scaling to two exponents differs by the power of two between them.
pub proof fn lemma_scale_shift(n: nat, d: nat, e1: int, e2: int)
    requires
        e1 <= e2,
    ensures
        scale_up(n, e1) * scale_down(d, e2) == scale_up(n, e2) * scale_down(d, e1) * pow2(
            (e2 - e1) as nat,
        ),
{
    if e1 < 0 && e2 <= 0 {
        lemma_pow2_adds((-e2) as nat, (e2 - e1) as nat);
        lemma2_to64();
        let a = pow2((-e2) as nat);
        let b = pow2((e2 - e1) as nat);
        assert((n * (a * b)) * d == ((n * a) * d) * b) by (nonlinear_arith);
        assert(n * 1 == n) by (nonlinear_arith);
    } else if e1 >= 0 && e2 > 0 {
        lemma_pow2_adds(e1 as nat, (e2 - e1) as nat);
        lemma2_to64();
        let a = pow2(e1 as nat);
        let b = pow2((e2 - e1) as nat);
        assert(n * (d * (a * b)) == (n * (d * a)) * b) by (nonlinear_arith);
        assert(d * 1 == d) by (nonlinear_arith);
    } else if e1 < 0 && e2 > 0 {
        lemma_pow2_adds((-e1) as nat, e2 as nat);
        let a = pow2((-e1) as nat);
        let b = pow2(e2 as nat);
        assert((n * a) * (d * b) == (n * d) * (a * b)) by (nonlinear_arith);
    } else {
        lemma2_to64();
        assert(n * d * 1 == n * d) by (nonlinear_arith);
    }
}

pub proof fn lemma_scale_positive(n: nat, e: int)
    requires
        n > 0,
    ensures
        scale_up(n, e) > 0,
        scale_down(n, e) > 0,
{
    if e < 0 {
        lemma_pow2_pos((-e) as nat);
        assert(n * pow2((-e) as nat) > 0) by (nonlinear_arith)
            requires
                n > 0,
                pow2((-e) as nat) > 0,
        ;
    }
    if e > 0 {
        lemma_pow2_pos(e as nat);
        assert(n * pow2(e as nat) > 0) by (nonlinear_arith)
            requires
                n > 0,
                pow2(e as nat) > 0,
        ;
    }
}

/// A larger fraction does not have a smaller exponent.
pub proof fn lemma_binade_ordered(n1: nat, d1: nat, e1: int, n2: nat, d2: nat, e2: int)
    requires
        d1 > 0,
        d2 > 0,
        in_binade(n1, d1, e1),
        in_binade(n2, d2, e2),
        n1 * d2 <= n2 * d1,
    ensures
        e1 <= e2,
{
    if e2 < e1 {
        // Both at the exponent of the second fraction.
        lemma_scale_order(n1, d1, n2, d2, e2);
        lemma_scale_shift(n1, d1, e2, e1);
        lemma_scale_positive(d1, e1);
        lemma_scale_positive(d1, e2);
        lemma_scale_positive(d2, e2);
        let k = (e1 - e2) as nat;
        lemma_pow2_unfold(k);
        lemma_pow2_pos((k - 1) as nat);
        let u1 = scale_up(n1, e2);
        let u1h = scale_up(n1, e1);
        let u2 = scale_up(n2, e2);
        let w1 = scale_down(d1, e2);
        let w1h = scale_down(d1, e1);
        let w2 = scale_down(d2, e2);
        let p = pow2(k);
        assert(false) by (nonlinear_arith)
            requires
                u1 * w2 <= u2 * w1,
                u1 * w1h == u1h * w1 * p,
                p >= 2,
                LEAST * w1h <= u1h,
                u2 < LIMIT * w2,
                w1 > 0,
                w1h > 0,
                w2 > 0,
                LIMIT == 2 * LEAST,
        {
            // u1 * w1h >= LEAST * w1h * w1 * 2, hence u1 >= LIMIT * w1.
            assert(u1h * w1 >= LEAST * w1h * w1);
            assert(u1h * w1 * p >= LEAST * w1h * w1 * 2);
            assert(u1 * w1h >= (LIMIT * w1) * w1h);
            assert(u1 >= LIMIT * w1);
            assert(u1 * w2 >= LIMIT * w1 * w2);
            assert(u2 * w1 < LIMIT * w2 * w1);
        }
    }
}

/// Scaling two fractions to one exponent keeps their order.
pub proof fn lemma_scale_order(n1: nat, d1: nat, n2: nat, d2: nat, e: int)
    requires
        n1 * d2 <= n2 * d1,
    ensures
        scale_up(n1, e) * scale_down(d2, e) <= scale_up(n2, e) * scale_down(d1, e),
{
    if e < 0 {
        let p = pow2((-e) as nat);
        assert((n1 * p) * d2 <= (n2 * p) * d1) by (nonlinear_arith)
            requires
                n1 * d2 <= n2 * d1,
        ;
    } else if e > 0 {
        let p = pow2(e as nat);
        assert(n1 * (d2 * p) <= n2 * (d1 * p)) by (nonlinear_arith)
            requires
                n1 * d2 <= n2 * d1,
        ;
    }
}

/// No fraction lies between two different pairs of neighbouring powers of two.
pub proof fn lemma_binade_is(n: nat, d: nat, e: int)
    requires
        d > 0,
        in_binade(n, d, e),
    ensures
        binade(n, d) == e,
{
    let b = binade(n, d);
    lemma_binade_ordered(n, d, e, n, d, b);
    lemma_binade_ordered(n, d, b, n, d, e);
}

proof fn lemma_pow2_exceeds(k: nat)
    ensures
        pow2(k) > k,
    decreases k,
{
    lemma2_to64();
    if k > 0 {
        lemma_pow2_exceeds((k - 1) as nat);
        lemma_pow2_unfold(k);
    }
}

proof fn lemma_binade_search(n: nat, d: nat, e: int)
    requires
        n > 0,
        d > 0,
        LEAST * scale_down(d, e) <= scale_up(n, e),
    ensures
        exists|b: int| in_binade(n, d, b),
    decreases (if e < 0 { -e } else { 0 }), n - LEAST * scale_down(d, e),
{
    let u = scale_up(n, e);
    let w = scale_down(d, e);
    if u < LIMIT * w {
        assert(in_binade(n, d, e));
    } else {
        lemma_scale_shift(n, d, e, e + 1);
        lemma2_to64();
        lemma_scale_positive(d, e);
        lemma_scale_positive(d, e + 1);
        let u1 = scale_up(n, e + 1);
        let w1 = scale_down(d, e + 1);
        assert(LEAST * w1 <= u1) by (nonlinear_arith)
            requires
                u * w1 == u1 * w * 2,
                u >= LIMIT * w,
                LIMIT == 2 * LEAST,
                w > 0,
                w1 > 0,
        {
            assert(u1 * w * 2 >= LIMIT * w * w1);
            assert(u1 * w >= (LEAST * w1) * w);
        }
        if e >= 0 {
            lemma_pow2_unfold((e + 1) as nat);
            lemma_pow2_pos(e as nat);
            let p = pow2(e as nat);
            assert(d * (2 * p) == 2 * (d * p)) by (nonlinear_arith);
            assert(d * 1 == d) by (nonlinear_arith);
            assert(w1 == 2 * w);
        }
        lemma_binade_search(n, d, e + 1);
    }
}

/// Every positive fraction has an exponent.
pub proof fn lemma_binade(n: nat, d: nat)
    requires
        n > 0,
        d > 0,
    ensures
        in_binade(n, d, binade(n, d)),
{
    let k = (LEAST * d) as nat;
    assert(k > 0) by (nonlinear_arith)
        requires
            k == LEAST * d,
            d > 0,
    ;
    lemma_pow2_exceeds(k);
    assert(n * pow2(k) >= pow2(k)) by (nonlinear_arith)
        requires
            n > 0,
            pow2(k) > k,
    ;
    lemma_binade_search(n, d, -k);
}

/// Rounding to an integer is off by at most one half, and keeps integers.
pub proof fn lemma_half_even(n: nat, d: nat)
    requires
        d > 0,
    ensures
        2 * n <= 2 * (half_even(n, d) * d) + d,
        2 * (half_even(n, d) * d) <= 2 * n + d,
        n / d <= half_even(n, d) <= n / d + 1,
        n % d == 0 ==> half_even(n, d) == n / d,
{
    let q = n / d;
    let r = n % d;
    vstd::arithmetic::div_mod::lemma_fundamental_div_mod(n as int, d as int);
    assert(d * q == q * d) by (nonlinear_arith);
    assert((q + 1) * d == q * d + d) by (nonlinear_arith);
}

/// Rounding to an integer keeps the order.
pub proof fn lemma_half_even_ordered(n1: nat, d1: nat, n2: nat, d2: nat)
    requires
        d1 > 0,
        d2 > 0,
        n1 * d2 <= n2 * d1,
    ensures
        half_even(n1, d1) <= half_even(n2, d2),
{
    let (q1, r1) = (n1 / d1, n1 % d1);
    let (q2, r2) = (n2 / d2, n2 % d2);
    vstd::arithmetic::div_mod::lemma_fundamental_div_mod(n1 as int, d1 as int);
    vstd::arithmetic::div_mod::lemma_fundamental_div_mod(n2 as int, d2 as int);
    lemma_half_even(n1, d1);
    lemma_half_even(n2, d2);
    let h1 = half_even(n1, d1);
    let h2 = half_even(n2, d2);
    assert(q1 <= q2) by (nonlinear_arith)
        requires
            n1 * d2 <= n2 * d1,
            n1 == d1 * q1 + r1,
            n2 == d2 * q2 + r2,
            r1 >= 0,
            r2 < d2,
            d1 > 0,
            d2 > 0,
    {
        if q1 > q2 {
            assert(d1 * q1 >= d1 * (q2 + 1));
            assert(n1 * d2 >= (d1 * (q2 + 1)) * d2);
            assert(n2 < d2 * (q2 + 1));
            assert(n2 * d1 < (d2 * (q2 + 1)) * d1);
        }
    }
    if q1 == q2 && h1 > h2 {
        // r1 / d1 <= r2 / d2, yet the first goes up and the second down.
        assert(r1 * d2 <= r2 * d1) by (nonlinear_arith)
            requires
                n1 * d2 <= n2 * d1,
                n1 == d1 * q1 + r1,
                n2 == d2 * q1 + r2,
        ;
        assert(2 * r1 >= d1);
        assert(2 * r2 <= d2);
        if 2 * r1 == d1 && 2 * r2 == d2 {
        } else {
            assert(false) by (nonlinear_arith)
                requires
                    r1 * d2 <= r2 * d1,
                    2 * r1 >= d1,
                    2 * r2 <= d2,
                    2 * r1 > d1 || 2 * r2 < d2,
                    d1 > 0,
                    d2 > 0,
            {
                assert((2 * r1) * d2 <= (2 * r2) * d1);
                assert((2 * r1) * d2 >= d1 * d2);
                assert((2 * r2) * d1 <= d2 * d1);
                if 2 * r1 > d1 {
                    assert((2 * r1) * d2 > d1 * d2);
                } else {
                    assert((2 * r2) * d1 < d2 * d1);
                }
            }
        }
    }
}

/// A rounded value has a significand of 53 bits, and is `half_even` of the
/// scaled fraction.
pub proof fn lemma_nearest(n: nat, d: nat)
    requires
        n > 0,
        d > 0,
    ensures
        canonical(nearest(n, d)),
        ({
            let e = binade(n, d);
            let m = half_even(scale_up(n, e), scale_down(d, e));
            &&& in_binade(n, d, e)
            &&& LEAST <= m <= LIMIT
            &&& nearest(n, d) == carried(m, e)
        }),
{
    lemma_binade(n, d);
    let e = binade(n, d);
    let u = scale_up(n, e);
    let w = scale_down(d, e);
    lemma_scale_positive(d, e);
    lemma_half_even(u, w);
    vstd::arithmetic::div_mod::lemma_fundamental_div_mod(u as int, w as int);
    let q = u / w;
    let r = u % w;
    assert(LEAST <= q < LIMIT) by (nonlinear_arith)
        requires
            u == w * q + r,
            0 <= r < w,
            LEAST * w <= u < LIMIT * w,
            w > 0,
    {
        if q < LEAST {
            assert(w * q <= w * (LEAST - 1));
        }
        if q >= LIMIT {
            assert(w * q >= w * LIMIT);
        }
    }
}

/// Rounding keeps the order of fractions.
pub proof fn lemma_nearest_ordered(n1: nat, d1: nat, n2: nat, d2: nat)
    requires
        n1 > 0,
        d1 > 0,
        n2 > 0,
        d2 > 0,
        n1 * d2 <= n2 * d1,
    ensures
        pair_le(nearest(n1, d1), nearest(n2, d2)),
{
    lemma_nearest(n1, d1);
    lemma_nearest(n2, d2);
    let e1 = binade(n1, d1);
    let e2 = binade(n2, d2);
    lemma_binade_ordered(n1, d1, e1, n2, d2, e2);
    if e1 == e2 {
        lemma_scale_order(n1, d1, n2, d2, e1);
        lemma_scale_positive(d1, e1);
        lemma_scale_positive(d2, e1);
        lemma_half_even_ordered(
            scale_up(n1, e1),
            scale_down(d1, e1),
            scale_up(n2, e1),
            scale_down(d2, e1),
        );
    }
}

/// What has 53 significant bits is rounded to itself.
pub proof fn lemma_nearest_exact(n: nat, d: nat, m: nat, e: int)
    requires
        d > 0,
        LEAST <= m < LIMIT,
        scale_up(n, e) == m * scale_down(d, e),
    ensures
        nearest(n, d) == (m, e),
{
    lemma_scale_positive(d, e);
    let w = scale_down(d, e);
    assert(LEAST * w <= m * w < LIMIT * w) by (nonlinear_arith)
        requires
            LEAST <= m < LIMIT,
            w > 0,
    ;
    lemma_binade_is(n, d, e);
    lemma_half_even(m * w, w);
    vstd::arithmetic::div_mod::lemma_mod_multiples_basic(m as int, w as int);
    vstd::arithmetic::div_mod::lemma_div_by_multiple(m as int, w as int);
}

/// `2^x` where that is an integer, and one elsewhere.
pub open spec fn power(x: int) -> nat {
    if x > 0 {
        pow2(x as nat)
    } else {
        1
    }
}

pub proof fn lemma_scale_is_power(n: nat, e: int)
    ensures
        scale_up(n, e) == n * power(-e),
        scale_down(n, e) == n * power(e),
        power(e) > 0,
        power(-e) > 0,
{
    assert(n * 1 == n) by (nonlinear_arith);
    if e > 0 {
        lemma_pow2_pos(e as nat);
    }
    if e < 0 {
        lemma_pow2_pos((-e) as nat);
    }
}

/// Equal fractions are rounded alike.
pub proof fn lemma_nearest_same(n1: nat, d1: nat, n2: nat, d2: nat)
    requires
        n1 > 0,
        d1 > 0,
        n2 > 0,
        d2 > 0,
        n1 * d2 == n2 * d1,
    ensures
        nearest(n1, d1) == nearest(n2, d2),
{
    lemma_nearest_ordered(n1, d1, n2, d2);
    lemma_nearest_ordered(n2, d2, n1, d1);
}

/// Powers of two multiply by adding their exponents, also where those are negative.
pub proof fn lemma_power_shift(b: int, e: int)
    ensures
        (power(e) * power(-(b + e))) * power(b) == power(-b) * (power(-e) * power(b + e)),
{
    if e > 0 && b > 0 {
        lemma_pow2_adds(e as nat, b as nat);
    } else if e < 0 && b < 0 {
        lemma_pow2_adds((-e) as nat, (-b) as nat);
    } else if e > 0 && b < 0 && b + e > 0 {
        lemma_pow2_adds((b + e) as nat, (-b) as nat);
    } else if e > 0 && b < 0 && b + e < 0 {
        lemma_pow2_adds(e as nat, (-(b + e)) as nat);
    } else if e < 0 && b > 0 && b + e > 0 {
        lemma_pow2_adds((-e) as nat, (b + e) as nat);
    } else if e < 0 && b > 0 && b + e < 0 {
        lemma_pow2_adds((-(b + e)) as nat, b as nat);
    }
    let (x, y, z) = (power(e), power(-(b + e)), power(b));
    let (p, q, r) = (power(-b), power(-e), power(b + e));
    assert((x * y) * z == p * (q * r)) by (nonlinear_arith)
        requires
            (y == 1 && p == 1 && q == 1 && r == x * z)
                || (x == 1 && z == 1 && r == 1 && y == q * p)
                || (y == 1 && z == 1 && q == 1 && x == r * p)
                || (z == 1 && q == 1 && r == 1 && p == x * y)
                || (x == 1 && y == 1 && p == 1 && z == q * r)
                || (x == 1 && p == 1 && r == 1 && q == y * z)
                || (x == 1 && q == 1 && y == p && z == r)
                || (z == 1 && p == 1 && y == q && x == r),
    ;
}

/// A power of two goes through rounding into the exponent.
pub proof fn lemma_nearest_shifted(n: nat, d: nat, e: int)
    requires
        n > 0,
        d > 0,
    ensures
        nearest(scale_down(n, e), scale_up(d, e)) == (nearest(n, d).0, nearest(n, d).1 + e),
{
    let n1 = scale_down(n, e);
    let d1 = scale_up(d, e);
    lemma_nearest(n, d);
    let b = binade(n, d);
    let u = scale_up(n, b);
    let w = scale_down(d, b);
    let u1 = scale_up(n1, b + e);
    let w1 = scale_down(d1, b + e);
    lemma_scale_is_power(n, e);
    lemma_scale_is_power(d, e);
    lemma_scale_is_power(n, b);
    lemma_scale_is_power(d, b);
    lemma_scale_is_power(n1, b + e);
    lemma_scale_is_power(d1, b + e);
    lemma_scale_positive(d, b);
    lemma_scale_positive(d, e);
    lemma_scale_positive(d1, b + e);
    lemma_power_shift(b, e);
    assert(u1 * w == u * w1) by (nonlinear_arith)
        requires
            u1 == (n * power(e)) * power(-(b + e)),
            w == d * power(b),
            u == n * power(-b),
            w1 == (d * power(-e)) * power(b + e),
            (power(e) * power(-(b + e))) * power(b) == power(-b) * (power(-e) * power(b + e)),
    {
        assert(u1 * w == (n * d) * ((power(e) * power(-(b + e))) * power(b)));
        assert(u * w1 == (n * d) * (power(-b) * (power(-e) * power(b + e))));
    }
    assert(LEAST * w1 <= u1 < LIMIT * w1) by (nonlinear_arith)
        requires
            u1 * w == u * w1,
            LEAST * w <= u < LIMIT * w,
            w > 0,
            w1 > 0,
    {
        assert((LEAST * w1) * w <= u1 * w);
        assert(u1 * w < (LIMIT * w1) * w);
    }
    lemma_binade_is(n1, d1, b + e);
    lemma_half_even_ordered(u, w, u1, w1);
    lemma_half_even_ordered(u1, w1, u, w);
}

/// The error of rounding is at most half a unit of the last place.
pub proof fn lemma_nearest_error(n: nat, d: nat)
    requires
        n > 0,
        d > 0,
    ensures
        ({
            let (m, e) = nearest(n, d);
            let (u, w) = (scale_up(n, e), scale_down(d, e));
            2 * u <= 2 * (m * w) + w && 2 * (m * w) <= 2 * u + w
        }),
{
    lemma_nearest(n, d);
    let b = binade(n, d);
    let u = scale_up(n, b);
    let w = scale_down(d, b);
    let h = half_even(u, w);
    lemma_scale_positive(d, b);
    lemma_half_even(u, w);
    if h == LIMIT {
        let u1 = scale_up(n, b + 1);
        let w1 = scale_down(d, b + 1);
        lemma_scale_positive(d, b + 1);
        lemma_scale_shift(n, d, b, b + 1);
        lemma2_to64();
        assert(2 * u1 <= 2 * (LEAST * w1) + w1 && 2 * (LEAST * w1) <= 2 * u1 + w1) by (nonlinear_arith)
            requires
                u * w1 == u1 * w * 2,
                2 * u <= 2 * (LIMIT * w) + w,
                2 * (LIMIT * w) <= 2 * u + w,
                LIMIT == 2 * LEAST,
                w > 0,
                w1 > 0,
        {
            assert((2 * u) * w1 <= (2 * (LIMIT * w) + w) * w1);
            assert((2 * (LIMIT * w)) * w1 <= (2 * u + w) * w1);
            assert(4 * u1 * w <= (8 * LEAST * w1 + 2 * w1) * w);
            assert((8 * LEAST * w1) * w <= (8 * u1 + 2 * w1) * w);
        }
    }
}

/// `n / d` rounded to 53 significant bits.
pub fn round(n: u128, d: u128) -> (r: (u64, i32))
    requires
        0 < n < 0x4000_0000_0000_0000_0000_0000_0000_0000,
        0 < d < 0x4000_0000_0000_0000,
    ensures
        (r.0 as nat, r.1 as int) == nearest(n as nat, d as nat),
        canonical((r.0 as nat, r.1 as int)),
        -116 <= r.1 <= 128,
{
    let mut num: u128 = n;
    let mut den: u128 = d;
    let mut e: i32 = 0;
    proof {
        lemma2_to64();
        assert(n * 1 == n) by (nonlinear_arith);
    }
    while num < den * 0x10_0000_0000_0000u128
        invariant
            den == d,
            0 < d < 0x4000_0000_0000_0000,
            0 < n < 0x4000_0000_0000_0000_0000_0000_0000_0000,
            -115 <= e <= 0,
            num == n * pow2((-e) as nat),
            num >= pow2((-e) as nat),
            num > 0,
            e < 0 ==> num < den * 0x20_0000_0000_0000,
            e == 0 ==> num == n,
        decreases den * 0x20_0000_0000_0000 - num,
    {
        proof {
            lemma_pow2_unfold((-e + 1) as nat);
            let p = pow2((-e) as nat);
            assert(n * (2 * p) == 2 * (n * p)) by (nonlinear_arith);
            if e == -115 {
                lemma2_to64();
                lemma_pow2_adds(57, 58);
                lemma2_to64_rest();
                assert(false);
            }
        }
        num = num * 2;
        e = e - 1;
    }
    while num >= den * 0x20_0000_0000_0000u128
        invariant
            0 < d < 0x4000_0000_0000_0000,
            0 < n < 0x4000_0000_0000_0000_0000_0000_0000_0000,
            den > 0,
            den * 0x10_0000_0000_0000 <= num < 0x4000_0000_0000_0000_0000_0000_0000_0000,
            e > 0 ==> num == n && den == d * pow2(e as nat),
            e == 0 ==> num == n && den == d,
            e < 0 ==> den == d && num == n * pow2((-e) as nat) && num < den * 0x20_0000_0000_0000,
            -115 <= e <= 127,
            e > 0 ==> den >= pow2(e as nat),
        decreases num - den * 0x10_0000_0000_0000,
    {
        proof {
            lemma2_to64();
            assert(d * 1 == d) by (nonlinear_arith);
            lemma_pow2_unfold((e + 1) as nat);
            let p = pow2(e as nat);
            assert(d * (2 * p) == 2 * (d * p)) by (nonlinear_arith);
            if e == 127 {
                lemma_pow2_adds(64, 63);
                lemma2_to64_rest();
                assert(false);
            }
        }
        den = den * 2;
        e = e + 1;
    }
    proof {
        assert(in_binade(n as nat, d as nat, e as int));
        lemma_binade_is(n as nat, d as nat, e as int);
        lemma_nearest(n as nat, d as nat);
        lemma_half_even(num as nat, den as nat);
    }
    let q: u128 = num / den;
    let r: u128 = num % den;
    let m: u128 = if 2 * r < den || (2 * r == den && q % 2 == 0) {
        q
    } else {
        q + 1
    };
    if m == 0x20_0000_0000_0000u128 {
        (LEAST, e + 1)
    } else {
        (m as u64, e)
    }
}

/// Rounding to an integer goes to the nearest one and, from halfway between two, to the even
/// one.
pub proof fn law_half_even(n: nat, d: nat)
    requires
        d > 0,
    ensures
        ({
            let h = half_even(n, d);
            let error = n - h * d;
            &&& -d <= 2 * error <= d
            &&& 2 * error == d || 2 * error == -d ==> h % 2 == 0
        }),
{
    lemma_half_even(n, d);
    let (q, r) = (n / d, n % d);
    vstd::arithmetic::div_mod::lemma_fundamental_div_mod(n as int, d as int);
    vstd::arithmetic::div_mod::lemma_mod_bound(n as int, d as int);
    assert(d * q == q * d) by (nonlinear_arith);
    assert((q + 1) * d == q * d + d) by (nonlinear_arith);
}

/// A fraction rounded to 53 bits is off by at most half of the last bit.
pub proof fn law_nearest(n: nat, d: nat)
    requires
        n > 0,
        d > 0,
    ensures
        ({
            let (m, e) = nearest(n, d);
            let (x, y) = (power(e), power(-e));
            let error = n * y - m * (d * x);
            &&& 0x10_0000_0000_0000 <= m < 0x20_0000_0000_0000
            &&& x == 1 || y == 1
            &&& -(d * x) <= 2 * error <= d * x
        }),
{
    lemma_nearest(n, d);
    lemma_nearest_error(n, d);
    let (m, e) = nearest(n, d);
    lemma_scale_is_power(n, e);
    lemma_scale_is_power(d, e);
    lemma2_to64();
}

} // verus!
