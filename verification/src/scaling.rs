//! Scaling a picture to fit a box, aspect ratio kept.
use crate::double::Double;
use crate::number::{self, Number};
use crate::rounding::{self, LEAST, LIMIT};
use vstd::arithmetic::power2::*;
use vstd::prelude::*;

verus! {

/// `v`, or one where `v` is less.
pub open spec fn at_least_one(v: int) -> int {
    if v < 1 {
        1
    } else {
        v
    }
}

/// The aspect ratio of a width and a height, as a double.
pub open spec fn aspect(w: u32, h: u32) -> Number {
    Number::integer(w as int).quotient(Number::integer(h as int))
}

/// Whether a box is wider, in proportion, than a picture, so that the height of the
/// box is what limits the picture.
pub open spec fn height_limits(w: u32, h: u32, max_w: u32, max_h: u32) -> bool {
    aspect(max_w, max_h).exceeds(aspect(w, h))
}

/// The size of a picture of `w` by `h`, scaled to fit `max_w` by `max_h`: the limiting
/// side is that of the box, and the other one follows from the aspect ratio, computed
/// in double precision and truncated. Neither is less than one.
pub open spec fn fitted(w: u32, h: u32, max_w: u32, max_h: u32) -> (int, int) {
    if height_limits(w, h, max_w, max_h) {
        let fw = Number::integer(max_h as int).product(aspect(w, h));
        (at_least_one(fw.truncated(0, u32::MAX as int)), at_least_one(max_h as int))
    } else {
        let fh = Number::integer(max_w as int).quotient(aspect(w, h));
        (at_least_one(max_w as int), at_least_one(fh.truncated(0, u32::MAX as int)))
    }
}

fn max_one(v: u32) -> (r: u32)
    ensures
        r == at_least_one(v as int),
{
    if v < 1 {
        1
    } else {
        v
    }
}

/// Scales a picture of `w` by `h` to fit `max_w` by `max_h`.
pub fn fit_within(w: u32, h: u32, max_w: u32, max_h: u32) -> (r: (u32, u32))
    ensures
        (r.0 as int, r.1 as int) == fitted(w, h, max_w, max_h),
{
    let aspect = Double::integer(w as i64).quotient(Double::integer(h as i64));
    let limit = Double::integer(max_w as i64).quotient(Double::integer(max_h as i64));
    if limit.exceeds(aspect) {
        let fw: u32 = Double::integer(max_h as i64).product(aspect).to_u32();
        (max_one(fw), max_one(max_h))
    } else {
        let fh: u32 = Double::integer(max_w as i64).quotient(aspect).to_u32();
        (max_one(max_w), max_one(fh))
    }
}

/// The aspect ratio of positive sides is a number with 53 significant bits, the one
/// nearest to the fraction.
proof fn lemma_aspect(w: u32, h: u32)
    requires
        w > 0,
        h > 0,
    ensures
        aspect(w, h) == Number::rounded(false, w as nat, h as nat, 0),
        aspect(w, h) == (Number::Finite {
            negative: false,
            significand: rounding::nearest(w as nat, h as nat).0,
            exponent: rounding::nearest(w as nat, h as nat).1,
        }),
        rounding::canonical(rounding::nearest(w as nat, h as nat)),
{
    number::lemma_integer(w as nat);
    number::lemma_integer(h as nat);
    number::lemma_quotient(
        Number::integer(w as int),
        w as nat,
        1,
        Number::integer(h as int),
        h as nat,
        1,
    );
    let (n, d) = (w as nat, h as nat);
    assert(n * 1 == n && 1 * d == d) by (nonlinear_arith);
    rounding::lemma_nearest(n, d);
    lemma_nearest_range(n, d);
}

/// The exponents that fractions of 32-bit sides can have.
proof fn lemma_nearest_range(n: nat, d: nat)
    requires
        0 < n <= u32::MAX,
        0 < d <= u32::MAX,
    ensures
        -85 <= rounding::nearest(n, d).1 <= 0,
{
    rounding::lemma_nearest(n, d);
    let e = rounding::binade(n, d);
    lemma2_to64();
    lemma2_to64_rest();
    if e >= 0 {
        rounding::lemma_scale_positive(d, e);
        let w = rounding::scale_down(d, e);
        assert(LEAST * w >= LEAST) by (nonlinear_arith)
            requires
                w > 0,
        ;
        assert(false);
    }
    if e < -85 {
        lemma_pow2_adds(64, 21);
        let p = pow2((-e) as nat);
        lemma_pow2_strictly_increases(85, (-e) as nat);
        assert(n * p >= p) by (nonlinear_arith)
            requires
                n > 0,
        ;
        assert(LIMIT * d <= LIMIT * 0xffff_ffff) by (nonlinear_arith)
            requires
                d <= 0xffff_ffff,
        ;
        assert(false);
    }
}

/// Where the height limits, the ratio of the picture is at most that of the box.
proof fn lemma_height_limited(w: u32, h: u32, max_w: u32, max_h: u32)
    requires
        w > 0,
        h > 0,
        max_w > 0,
        max_h > 0,
        height_limits(w, h, max_w, max_h),
    ensures
        ({
            let (m, e) = rounding::nearest(w as nat, h as nat);
            max_h * (m * rounding::power(e)) <= max_w * rounding::power(-e)
        }),
{
    lemma_aspect(w, h);
    lemma_aspect(max_w, max_h);
    let a = aspect(w, h);
    let (m, e) = rounding::nearest(w as nat, h as nat);
    number::lemma_own_ratio(a);
    let (n, d) = (m * rounding::power(e), rounding::power(-e));
    let (bw, bh) = (max_w as nat, max_h as nat);
    if bh * n > bw * d {
        assert(bw * d <= n * bh) by (nonlinear_arith)
            requires
                bh * n > bw * d,
        ;
        number::lemma_rounded_ordered(bw, bh, n, d);
        // The ratio is its own rounding.
        lemma_nearest_range(w as nat, h as nat);
        number::lemma_rounded_self(a);
        assert(false);
    }
}

/// What becomes of a picture, or a box, that has no area.
pub proof fn law_fitted_degenerate(w: u32, h: u32, max_w: u32, max_h: u32)
    ensures
        h == 0 ==> fitted(w, h, max_w, max_h) == (at_least_one(max_w as int), 1int),
        h > 0 && w == 0 && max_w > 0 ==> fitted(w, h, max_w, max_h) == (
            1int,
            at_least_one(max_h as int),
        ),
        h > 0 && (max_w == 0 || w > 0 && max_h == 0) ==> fitted(w, h, max_w, max_h) == (1int, 1int),
{
    lemma2_to64();
    if w > 0 {
        number::lemma_exact(w as nat, 0);
    }
    if h > 0 {
        number::lemma_exact(h as nat, 0);
    }
    if max_w > 0 {
        number::lemma_exact(max_w as nat, 0);
    }
    if max_h > 0 {
        number::lemma_exact(max_h as nat, 0);
    }
    assert(forall|k: nat| #[trigger] (0 * pow2(k)) == 0) by (nonlinear_arith);
    assert(forall|m: nat| #[trigger] (0 * m) == 0) by (nonlinear_arith);
    assert(forall|m: nat| #[trigger] (m * 0) == 0) by (nonlinear_arith);
    assert(forall|m: nat| #[trigger] (m * 1) == m) by (nonlinear_arith);
    if h > 0 && w > 0 {
        lemma_aspect(w, h);
        let a = aspect(w, h);
        lemma_pow2_pos((a->exponent - number::lesser(0, a->exponent)) as nat);
        let p = pow2((a->exponent - number::lesser(0, a->exponent)) as nat);
        let m = a->significand;
        assert(m * p > 0) by (nonlinear_arith)
            requires
                m > 0,
                p > 0,
        ;
    }
    if max_h > 0 && max_w > 0 {
        lemma_aspect(max_w, max_h);
        let a = aspect(max_w, max_h);
        lemma_pow2_pos((a->exponent - number::lesser(0, a->exponent)) as nat);
        let p = pow2((a->exponent - number::lesser(0, a->exponent)) as nat);
        let m = a->significand;
        assert(m * p > 0) by (nonlinear_arith)
            requires
                m > 0,
                p > 0,
        ;
    }
}

/// Where the width limits, the height that follows exceeds that of the box by less
/// than half a pixel.
proof fn lemma_width_bound(w: u32, h: u32, max_w: u32, max_h: u32)
    requires
        w > 0,
        h > 0,
        max_w > 0,
        max_h > 0,
        !height_limits(w, h, max_w, max_h),
    ensures
        ({
            let (m, e) = rounding::nearest(w as nat, h as nat);
            (max_w * rounding::power(-e)) * 2 <= (2 * max_h + 1) * (m * rounding::power(e))
        }),
{
    lemma_aspect(w, h);
    lemma_aspect(max_w, max_h);
    let a = aspect(w, h);
    let q = aspect(max_w, max_h);
    number::lemma_own_ratio(a);
    number::lemma_own_ratio(q);
    let (na, da) = (a->significand * rounding::power(a->exponent), rounding::power(-a->exponent));
    let (nq, dq) = (q->significand * rounding::power(q->exponent), rounding::power(-q->exponent));
    let (bw, bh) = (max_w as nat, max_h as nat);
    assert(na > 0) by (nonlinear_arith)
        requires
            na == a->significand * rounding::power(a->exponent),
            a->significand > 0,
            rounding::power(a->exponent) > 0,
    ;
    number::lemma_ratio_order(q, nq, dq, a, na, da);
    assert(nq * da <= na * dq);
    // The ratio of the box is off by less than half a row.
    assert(2 * (bw * dq) <= (2 * bh + 1) * nq) by {
        rounding::lemma_nearest_error(bw, bh);
        let (m, e) = rounding::nearest(bw, bh);
        rounding::lemma_scale_is_power(bw, e);
        rounding::lemma_scale_is_power(bh, e);
        let x = rounding::power(e);
        assert(2 * (bw * dq) <= (2 * bh + 1) * (m * x)) by (nonlinear_arith)
            requires
                2 * (bw * dq) <= 2 * (m * (bh * x)) + bh * x,
                bh <= m,
                x > 0,
        {
            assert(bh * x <= m * x);
            assert((2 * bh + 1) * (m * x) == 2 * (m * (bh * x)) + m * x);
        }
    }
    assert((bw * da) * 2 <= (2 * bh + 1) * na) by (nonlinear_arith)
        requires
            2 * (bw * dq) <= (2 * bh + 1) * nq,
            nq * da <= na * dq,
            dq > 0,
            da > 0,
    {
        assert((2 * (bw * dq)) * da <= ((2 * bh + 1) * nq) * da);
        assert((2 * bh + 1) * (nq * da) <= (2 * bh + 1) * (na * dq));
        assert(((bw * da) * 2) * dq <= ((2 * bh + 1) * na) * dq);
    }
}

/// Where the width limits, the height that follows does not exceed that of the box.
proof fn lemma_width_limited(w: u32, h: u32, max_w: u32, max_h: u32)
    requires
        w > 0,
        h > 0,
        max_w > 0,
        max_h > 0,
        !height_limits(w, h, max_w, max_h),
    ensures
        Number::integer(max_w as int).quotient(aspect(w, h)).truncated(0, u32::MAX as int) <= max_h,
{
    lemma_aspect(w, h);
    lemma_width_bound(w, h, max_w, max_h);
    let a = aspect(w, h);
    number::lemma_own_ratio(a);
    let (n, d) = (a->significand * rounding::power(a->exponent), rounding::power(-a->exponent));
    assert(n > 0) by (nonlinear_arith)
        requires
            n == a->significand * rounding::power(a->exponent),
            a->significand > 0,
            rounding::power(a->exponent) > 0,
    ;
    number::lemma_integer(max_w as nat);
    number::lemma_quotient(Number::integer(max_w as int), max_w as nat, 1, a, n, d);
    assert(1 * n == n) by (nonlinear_arith);
    lemma_integer_part_at_most(max_w as nat * d, n, max_h as nat);
}

/// A picture scaled to a box fits it: neither side is greater than that of the box,
/// unless the box has none; one of the two is the side of the box.
pub proof fn law_fitted_fits(w: u32, h: u32, max_w: u32, max_h: u32)
    ensures
        1 <= fitted(w, h, max_w, max_h).0 <= at_least_one(max_w as int),
        1 <= fitted(w, h, max_w, max_h).1 <= at_least_one(max_h as int),
        fitted(w, h, max_w, max_h).0 == at_least_one(max_w as int) || fitted(
            w,
            h,
            max_w,
            max_h,
        ).1 == at_least_one(max_h as int),
{
    law_fitted_degenerate(w, h, max_w, max_h);
    if w > 0 && h > 0 && max_w > 0 && max_h > 0 {
        lemma_aspect(w, h);
        lemma_aspect(max_w, max_h);
        let a = aspect(w, h);
        let (m, e) = rounding::nearest(w as nat, h as nat);
        let (x, y) = (rounding::power(e), rounding::power(-e));
        number::lemma_own_ratio(a);
        number::lemma_integer(max_w as nat);
        number::lemma_integer(max_h as nat);
        if height_limits(w, h, max_w, max_h) {
            lemma_height_limited(w, h, max_w, max_h);
            let p = Number::integer(max_h as int).product(a);
            number::lemma_product(Number::integer(max_h as int), max_h as nat, 1, a, m * x, y);
            assert(1 * y == y && (max_h * (m * x)) * 1 == max_h * (m * x)) by (nonlinear_arith);
            number::lemma_rounded_ordered(max_h as nat * (m * x), y, max_w as nat, 1);
            number::lemma_truncated_ordered(p, Number::integer(max_w as int), 0, u32::MAX as int);
            number::lemma_truncated(
                Number::integer(max_w as int),
                max_w as nat,
                1,
                0,
                u32::MAX as int,
            );
        } else {
            lemma_width_limited(w, h, max_w, max_h);
        }
    }
}

/// Rounding keeps a fraction between the halves around it: the integer part of a
/// rounded `n / d` is at most `k` where `n / d` is at most `k` and a half.
proof fn lemma_integer_part_at_most(n: nat, d: nat, k: nat)
    requires
        d > 0,
        2 * k + 1 < LIMIT,
        2 * n <= (2 * k + 1) * d,
    ensures
        Number::rounded(false, n, d, 0).truncated(0, u32::MAX as int) <= k,
{
    assert(n * 2 <= (2 * k + 1) * d) by (nonlinear_arith)
        requires
            2 * n <= (2 * k + 1) * d,
    ;
    number::lemma_rounded_ordered(n, d, 2 * k + 1, 2);
    lemma2_to64();
    number::lemma_exact(2 * k + 1, 1);
    let top = Number::rounded(false, 2 * k + 1, 2, 0);
    number::lemma_truncated_ordered(Number::rounded(false, n, d, 0), top, 0, u32::MAX as int);
    number::lemma_truncated(top, 2 * k + 1, 2, 0, u32::MAX as int);
}

/// The same from below.
proof fn lemma_integer_part_at_least(n: nat, d: nat, k: nat)
    requires
        d > 0,
        1 <= k <= u32::MAX + 1,
        2 * n >= (2 * k - 1) * d,
    ensures
        Number::rounded(false, n, d, 0).truncated(0, u32::MAX as int) >= k - 1,
{
    let j = (2 * k - 1) as nat;
    assert(j * d <= n * 2) by (nonlinear_arith)
        requires
            2 * n >= j * d,
    ;
    number::lemma_rounded_ordered(j, 2, n, d);
    lemma2_to64();
    number::lemma_exact(j, 1);
    let low = Number::rounded(false, j, 2, 0);
    number::lemma_truncated_ordered(low, Number::rounded(false, n, d, 0), 0, u32::MAX as int);
    number::lemma_truncated(low, j, 2, 0, u32::MAX as int);
}

/// Scaling keeps the aspect ratio: where the height limits, the width is within two
/// pixels of its proportional size, and where the width limits, the height is.
pub proof fn law_fitted_keeps_aspect(w: u32, h: u32, max_w: u32, max_h: u32)
    requires
        w > 0,
        h > 0,
        max_w > 0,
        max_h > 0,
    ensures
        ({
            let (fw, fh) = fitted(w, h, max_w, max_h);
            if height_limits(w, h, max_w, max_h) {
                fh == max_h && max_h * w - 2 * h < fw * h <= max_h * w + h
            } else {
                fw == max_w && max_w * h - 2 * w < fh * w <= max_w * h + w
            }
        }),
{
    lemma_aspect(w, h);
    let a = aspect(w, h);
    let (m, e) = rounding::nearest(w as nat, h as nat);
    let (x, y) = (rounding::power(e), rounding::power(-e));
    number::lemma_own_ratio(a);
    number::lemma_integer(max_w as nat);
    number::lemma_integer(max_h as nat);
    let n = m * x;
    assert(n > 0) by (nonlinear_arith)
        requires
            n == m * x,
            m > 0,
            x > 0,
    ;
    let (pw, ph, bw, bh) = (w as nat, h as nat, max_w as nat, max_h as nat);
    rounding::lemma_nearest_error(pw, ph);
    rounding::lemma_scale_is_power(pw, e);
    rounding::lemma_scale_is_power(ph, e);
    assert(m * (ph * x) == n * ph) by (nonlinear_arith)
        requires
            n == m * x,
    ;
    // How far the ratio is from the fraction.
    assert(2 * (pw * y) <= 2 * (n * ph) + ph * x);
    assert(2 * (n * ph) <= 2 * (pw * y) + ph * x);
    if height_limits(w, h, max_w, max_h) {
        lemma_height_limited(w, h, max_w, max_h);
        number::lemma_product(Number::integer(max_h as int), bh, 1, a, n, y);
        assert(1 * y == y) by (nonlinear_arith);
        assert(bh * x <= y) by (nonlinear_arith)
            requires
                bh * n <= bw * y,
                n == m * x,
                m >= LEAST,
                bw <= u32::MAX,
                y > 0,
        {
            assert(bh * (m * x) == m * (bh * x));
            assert(m * (bh * x) >= LEAST * (bh * x));
            assert(bw * y <= LEAST * y);
        }
        let f = (bh * pw) / ph;
        let r = (bh * pw) % ph;
        vstd::arithmetic::div_mod::lemma_fundamental_div_mod((bh * pw) as int, ph as int);
        assert(f <= bw + 1) by (nonlinear_arith)
            requires
                bh * pw == ph * f + r,
                0 <= r,
                2 * (pw * y) <= 2 * (n * ph) + ph * x,
                bh * n <= bw * y,
                bh * x <= y,
                y > 0,
                ph > 0,
        {
            assert(bh * (2 * (pw * y)) <= bh * (2 * (n * ph) + ph * x));
            assert(bh * (n * ph) == (bh * n) * ph);
            assert(bh * (ph * x) == (bh * x) * ph);
            assert((bh * n) * ph <= (bw * y) * ph);
            assert((bh * x) * ph <= y * ph);
            assert(2 * ((bh * pw) * y) <= (2 * bw + 1) * (y * ph));
            assert((ph * f) * y <= (bh * pw) * y);
            assert((2 * f) * (y * ph) <= (2 * bw + 1) * (y * ph));
            assert(2 * f <= 2 * bw + 1) by {
                assert(y * ph > 0);
            }
        }
        assert(2 * (bh * n) <= (2 * (f + 1) + 1) * y) by (nonlinear_arith)
            requires
                2 * (n * ph) <= 2 * (pw * y) + ph * x,
                bh * pw == ph * f + r,
                r < ph,
                bh * x <= y,
                y > 0,
                ph > 0,
        {
            assert(bh * (2 * (n * ph)) <= bh * (2 * (pw * y) + ph * x));
            assert(bh * (pw * y) == (bh * pw) * y);
            assert((bh * pw) * y <= (ph * (f + 1)) * y);
            assert(bh * (ph * x) == (bh * x) * ph);
            assert((bh * x) * ph <= y * ph);
            assert((2 * (bh * n)) * ph <= ((2 * (f + 1) + 1) * y) * ph);
        }
        lemma_integer_part_at_most(bh * n, y, f + 1);
        if f >= 1 {
            assert(2 * (bh * n) >= (2 * f - 1) * y) by (nonlinear_arith)
                requires
                    2 * (pw * y) <= 2 * (n * ph) + ph * x,
                    bh * pw == ph * f + r,
                    0 <= r,
                    bh * x <= y,
                    y > 0,
                    ph > 0,
            {
                assert(bh * (2 * (pw * y)) <= bh * (2 * (n * ph) + ph * x));
                assert(bh * (pw * y) == (bh * pw) * y);
                assert((bh * pw) * y >= (ph * f) * y);
                assert(bh * (ph * x) == (bh * x) * ph);
                assert((bh * x) * ph <= y * ph);
                assert((2 * (bh * n)) * ph >= ((2 * f - 1) * y) * ph);
            }
            lemma_integer_part_at_least(bh * n, y, f);
        }
        let (fw, fh) = fitted(w, h, max_w, max_h);
        assert(bh * pw - 2 * ph < fw * ph <= bh * pw + ph) by (nonlinear_arith)
            requires
                f - 1 <= fw <= f + 1,
                bh * pw == ph * f + r,
                0 <= r < ph,
        ;
    } else {
        lemma_width_limited(w, h, max_w, max_h);
        lemma_width_bound(w, h, max_w, max_h);
        number::lemma_quotient(Number::integer(max_w as int), bw, 1, a, n, y);
        assert(1 * n == n) by (nonlinear_arith);
        let f = (bw * ph) / pw;
        let r = (bw * ph) % pw;
        vstd::arithmetic::div_mod::lemma_fundamental_div_mod((bw * ph) as int, pw as int);
        assert(ph * x <= pw * y) by (nonlinear_arith)
            requires
                2 * (n * ph) <= 2 * (pw * y) + ph * x,
                n == m * x,
                m >= 2,
                ph * x >= 0,
        {
            assert(n * ph == m * (ph * x));
            assert(m * (ph * x) >= 2 * (ph * x));
        }
        let z = pw * y;
        assert(z > 0) by (nonlinear_arith)
            requires
                z == pw * y,
                pw > 0,
                y > 0,
        ;
        assert((2 * bh + 1) * (ph * x) <= z) by (nonlinear_arith)
            requires
                2 * (n * ph) <= 2 * z + ph * x,
                ph * x <= z,
                n == m * x,
                m >= LEAST,
                2 * (2 * bh + 1) <= LEAST,
        {
            let t = ph * x;
            assert(n * ph == m * t);
            assert(m * t >= LEAST * t);
            assert((2 * (2 * bh + 1)) * t <= LEAST * t);
        }
        assert(f <= bh) by (nonlinear_arith)
            requires
                bw * ph == pw * f + r,
                0 <= r,
                2 * (n * ph) <= 2 * z + ph * x,
                (2 * bh + 1) * (ph * x) <= z,
                (bw * y) * 2 <= (2 * bh + 1) * n,
                z == pw * y,
                z > 0,
                y > 0,
        {
            assert(((bw * y) * 2) * ph <= ((2 * bh + 1) * n) * ph);
            assert((2 * bh + 1) * (2 * (n * ph)) <= (2 * bh + 1) * (2 * z + ph * x));
            assert((pw * f) * y <= (bw * ph) * y);
            assert((4 * f) * z <= (2 * (2 * bh + 1) + 1) * z);
            assert(4 * f <= 2 * (2 * bh + 1) + 1);
        }
        let k = f + 1;
        assert(2 * (bw * y) <= (2 * k + 1) * n) by {
            let c = bw * ph;
            assert(c <= pw * k) by (nonlinear_arith)
                requires
                    c == pw * f + r,
                    r < pw,
                    k == f + 1,
            ;
            assert(bw * (2 * (pw * y)) <= 2 * (c * n) + c * x) by (nonlinear_arith)
                requires
                    2 * (pw * y) <= 2 * (n * ph) + ph * x,
                    c == bw * ph,
            {
                assert(bw * (2 * (pw * y)) <= bw * (2 * (n * ph) + ph * x));
                assert(bw * (2 * (n * ph) + ph * x) == 2 * ((bw * ph) * n) + (bw * ph) * x);
            }
            assert(c * n <= (pw * k) * n) by (nonlinear_arith)
                requires
                    c <= pw * k,
            ;
            assert(c * x <= pw * n) by (nonlinear_arith)
                requires
                    c <= pw * k,
                    n == m * x,
                    k <= m,
            {
                assert(c * x <= (pw * k) * x);
                assert((pw * k) * x == pw * (k * x));
                assert(k * x <= m * x);
            }
            assert(2 * (bw * y) <= (2 * k + 1) * n) by (nonlinear_arith)
                requires
                    bw * (2 * (pw * y)) <= 2 * ((pw * k) * n) + pw * n,
                    pw > 0,
            {
                assert((2 * (bw * y)) * pw <= ((2 * k + 1) * n) * pw);
            }
        }
        lemma_integer_part_at_most(bw * y, n, k);
        if f >= 1 {
            assert(2 * (bw * y) >= (2 * f - 1) * n) by {
                let c = bw * ph;
                let g = 2 * n - x;
                assert(f * x <= n && x <= n) by (nonlinear_arith)
                    requires
                        n == m * x,
                        f <= m,
                        1 <= m,
                        x > 0,
                ;
                assert(c * g <= 2 * ((bw * y) * pw)) by (nonlinear_arith)
                    requires
                        2 * (n * ph) <= 2 * (pw * y) + ph * x,
                        c == bw * ph,
                        g == 2 * n - x,
                {
                    assert(ph * g <= 2 * (pw * y));
                    assert(bw * (ph * g) <= bw * (2 * (pw * y)));
                }
                assert(c * g >= (pw * f) * g) by (nonlinear_arith)
                    requires
                        c == pw * f + r,
                        0 <= r,
                        g >= 0,
                ;
                assert((pw * f) * g >= pw * ((2 * f - 1) * n)) by (nonlinear_arith)
                    requires
                        g == 2 * n - x,
                        f * x <= n,
                {
                    assert(f * g == 2 * (f * n) - f * x);
                    assert(f * g >= (2 * f - 1) * n);
                    assert((pw * f) * g == pw * (f * g));
                }
                assert(2 * (bw * y) >= (2 * f - 1) * n) by (nonlinear_arith)
                    requires
                        pw * ((2 * f - 1) * n) <= 2 * ((bw * y) * pw),
                        pw > 0,
                {
                    assert(((2 * f - 1) * n) * pw <= (2 * (bw * y)) * pw);
                }
            }
            lemma_integer_part_at_least(bw * y, n, f);
        }
        let (fw, fh) = fitted(w, h, max_w, max_h);
        assert(bw * ph - 2 * pw < fh * pw <= bw * ph + pw) by (nonlinear_arith)
            requires
                f - 1 <= fh <= f + 1,
                bw * ph == pw * f + r,
                0 <= r < pw,
        ;
    }
}

/// The greatest side of which the proportional size is known to a pixel.
pub const PROPORTIONAL_SIDE: u32 = 0x10_0000;

/// Whether a size is the proportional size `c / p`: what it is rounded down, but not less
/// than one; or, where it is a whole number of pixels, one less.
pub open spec fn is_proportional(size: int, c: int, p: int) -> bool {
    size == at_least_one(c / p) || c % p == 0 && size == c / p - 1
}

/// The integer part of a rounded fraction that is very close to `f` and `r / p`: it is `f`
/// or, where `r` is zero, possibly one less.
proof fn lemma_integer_part_near(n: nat, d: nat, f: nat, r: nat, p: nat)
    requires
        d > 0,
        r < p <= PROPORTIONAL_SIDE,
        f <= PROPORTIONAL_SIDE,
        (n * p) * 0x40_0000 <= ((p * f + r) * d) * 0x40_0000 + p * d,
        ((p * f + r) * d) * 0x40_0000 <= (n * p) * 0x40_0000 + p * d,
    ensures
        ({
            let t = Number::rounded(false, n, d, 0).truncated(0, u32::MAX as int);
            t == f || r == 0 && t == f - 1
        }),
{
    lemma2_to64();
    let a = Number::rounded(false, n, d, 0);
    let hi = u32::MAX as int;
    let g = p * d;
    assert(g > 0) by (nonlinear_arith)
        requires
            g == p * d,
            p > 0,
            d > 0,
    ;
    let k = ((f + 1) * 0x20_0000 - 1) as nat;
    assert(n * 0x20_0000 <= k * d) by {
        assert((p * f + r) * d <= f * g + g - d) by (nonlinear_arith)
            requires
                r <= p - 1,
                g == p * d,
                d > 0,
        {
            assert((p * f + r) * d == f * (p * d) + r * d);
            assert(r * d <= (p - 1) * d);
            assert((p - 1) * d == p * d - d);
        }
        assert(4 * g <= 0x40_0000 * d) by (nonlinear_arith)
            requires
                g == p * d,
                p <= 0x10_0000,
                d > 0,
        ;
        assert((n * p) * 0x40_0000 <= ((f + 1) * 0x40_0000 - 2) * g) by (nonlinear_arith)
            requires
                (n * p) * 0x40_0000 <= (f * g + g - d) * 0x40_0000 + g,
                4 * g <= 0x40_0000 * d,
                g > 0,
        ;
        assert(n * 0x20_0000 <= k * d) by (nonlinear_arith)
            requires
                (n * p) * 0x40_0000 <= ((f + 1) * 0x40_0000 - 2) * g,
                g == p * d,
                k == (f + 1) * 0x20_0000 - 1,
                p > 0,
        {
            assert((n * 0x20_0000) * p * 2 <= ((k * d) * p) * 2);
        }
    }
    number::lemma_exact(k, 21);
    number::lemma_rounded_ordered(n, d, k, 0x20_0000);
    let top = Number::rounded(false, k, 0x20_0000, 0);
    number::lemma_truncated_ordered(a, top, 0, hi);
    number::lemma_truncated(top, k, 0x20_0000, 0, hi);
    assert(k / 0x20_0000 == f);
    if f > 0 {
        if r > 0 {
            assert(f * d <= n) by (nonlinear_arith)
                requires
                    ((p * f + r) * d) * 0x40_0000 <= (n * p) * 0x40_0000 + p * d,
                    1 <= r,
                    0 < p <= 0x10_0000,
                    d > 0,
            {
                assert((p * f + r) * d == (f * d) * p + r * d);
                assert(r * d >= d);
                assert(p * d <= 0x10_0000 * d);
                assert((f * d) * p <= n * p);
            }
            assert(f * d <= n * 1);
            number::lemma_exact(f, 0);
            number::lemma_rounded_ordered(f, 1, n, d);
            let low = Number::rounded(false, f, 1, 0);
            number::lemma_truncated_ordered(low, a, 0, hi);
            number::lemma_truncated(low, f, 1, 0, hi);
        } else {
            assert(2 * n >= (2 * f - 1) * d) by (nonlinear_arith)
                requires
                    ((p * f) * d) * 0x40_0000 <= (n * p) * 0x40_0000 + p * d,
                    p > 0,
                    d > 0,
            {
                assert((p * f) * d == (f * d) * p);
                assert(((2 * f - 1) * d) * p == 2 * ((f * d) * p) - p * d);
                assert((2 * n) * p >= ((2 * f - 1) * d) * p);
            }
            lemma_integer_part_at_least(n, d, f);
        }
    }
}

/// Of sides up to a million, the side that does not limit the picture is its proportional
/// size, rounded down, or one pixel less where that is a whole number.
pub proof fn law_fitted_is_proportional(w: u32, h: u32, max_w: u32, max_h: u32)
    requires
        0 < w <= PROPORTIONAL_SIDE,
        0 < h <= PROPORTIONAL_SIDE,
        0 < max_w <= PROPORTIONAL_SIDE,
        0 < max_h <= PROPORTIONAL_SIDE,
    ensures
        ({
            let (fw, fh) = fitted(w, h, max_w, max_h);
            if height_limits(w, h, max_w, max_h) {
                &&& fh == max_h
                &&& is_proportional(fw, max_h * w, h as int)
                &&& max_h * w - h <= fw * h <= max_h * w + h
                &&& fw * h <= max_h * w || fw == 1
            } else {
                &&& fw == max_w
                &&& is_proportional(fh, max_w * h, w as int)
                &&& max_w * h - w <= fh * w <= max_w * h + w
                &&& fh * w <= max_w * h || fh == 1
            }
        }),
{
    lemma_aspect(w, h);
    let a = aspect(w, h);
    let (m, e) = rounding::nearest(w as nat, h as nat);
    let (x, y) = (rounding::power(e), rounding::power(-e));
    number::lemma_own_ratio(a);
    number::lemma_integer(max_w as nat);
    number::lemma_integer(max_h as nat);
    let n = m * x;
    assert(n > 0) by (nonlinear_arith)
        requires
            n == m * x,
            m > 0,
            x > 0,
    ;
    let (pw, ph, bw, bh) = (w as nat, h as nat, max_w as nat, max_h as nat);
    rounding::lemma_nearest_error(pw, ph);
    rounding::lemma_scale_is_power(pw, e);
    rounding::lemma_scale_is_power(ph, e);
    assert(m * (ph * x) == n * ph) by (nonlinear_arith)
        requires
            n == m * x,
    ;
    assert(2 * (pw * y) <= 2 * (n * ph) + ph * x);
    assert(2 * (n * ph) <= 2 * (pw * y) + ph * x);
    let (fw, fh) = fitted(w, h, max_w, max_h);
    if height_limits(w, h, max_w, max_h) {
        lemma_height_limited(w, h, max_w, max_h);
        number::lemma_product(Number::integer(max_h as int), bh, 1, a, n, y);
        assert(1 * y == y) by (nonlinear_arith);
        let c = bh * pw;
        let (f, r) = (c / ph, c % ph);
        vstd::arithmetic::div_mod::lemma_fundamental_div_mod(c as int, ph as int);
        let g = ph * y;
        let t = bh * x;
        assert(t * 0x20_0000 <= y) by (nonlinear_arith)
            requires
                bh * n <= bw * y,
                n == m * x,
                t == bh * x,
                m >= LEAST,
                bw <= 0x10_0000,
                y > 0,
        {
            assert(bh * (m * x) == m * t);
            assert(m * t >= LEAST * t);
            assert(bw * y <= 0x10_0000 * y);
        }
        assert(t * ph * 0x20_0000 <= g) by (nonlinear_arith)
            requires
                t * 0x20_0000 <= y,
                g == ph * y,
        ;
        let q = (bh * n) * ph;
        assert(2 * (c * y) <= 2 * q + t * ph && 2 * q <= 2 * (c * y) + t * ph) by (nonlinear_arith)
            requires
                2 * (pw * y) <= 2 * (n * ph) + ph * x,
                2 * (n * ph) <= 2 * (pw * y) + ph * x,
                c == bh * pw,
                t == bh * x,
                q == (bh * n) * ph,
        {
            assert(bh * (2 * (pw * y)) <= bh * (2 * (n * ph) + ph * x));
            assert(bh * (2 * (n * ph)) <= bh * (2 * (pw * y) + ph * x));
            assert(bh * (pw * y) == c * y);
            assert(bh * (n * ph) == q);
            assert(bh * (ph * x) == t * ph);
        }
        assert(f <= bw) by (nonlinear_arith)
            requires
                c == ph * f + r,
                0 <= r,
                2 * (c * y) <= 2 * q + t * ph,
                t * ph * 0x20_0000 <= g,
                q == (bh * n) * ph,
                bh * n <= bw * y,
                g == ph * y,
                y > 0,
                ph > 0,
        {
            assert(g > 0);
            assert(c * y >= (ph * f) * y);
            assert((ph * f) * y == f * g);
            assert(q <= (bw * y) * ph);
            assert((bw * y) * ph == bw * g);
            assert(t * ph <= g);
            assert((2 * f) * g <= (2 * bw + 1) * g);
            assert(2 * f <= 2 * bw + 1);
        }
        lemma_integer_part_near(bh * n, y, f, r, ph);
        lemma_proportional(fw, c, ph as int);
    } else {
        lemma_width_limited(w, h, max_w, max_h);
        lemma_width_bound(w, h, max_w, max_h);
        number::lemma_quotient(Number::integer(max_w as int), bw, 1, a, n, y);
        assert(1 * n == n) by (nonlinear_arith);
        let c = bw * ph;
        let (f, r) = (c / pw, c % pw);
        vstd::arithmetic::div_mod::lemma_fundamental_div_mod(c as int, pw as int);
        let g = pw * n;
        let q = (bw * y) * pw;
        let t = c * x;
        assert(2 * q <= 2 * (c * n) + t && 2 * (c * n) <= 2 * q + t) by (nonlinear_arith)
            requires
                2 * (pw * y) <= 2 * (n * ph) + ph * x,
                2 * (n * ph) <= 2 * (pw * y) + ph * x,
                c == bw * ph,
                t == c * x,
                q == (bw * y) * pw,
        {
            assert(bw * (2 * (pw * y)) <= bw * (2 * (n * ph) + ph * x));
            assert(bw * (2 * (n * ph)) <= bw * (2 * (pw * y) + ph * x));
            assert(bw * (pw * y) == q);
            assert(bw * (n * ph) == c * n);
            assert(bw * (ph * x) == t);
        }
        // The fraction is not above the height of the box by more than a half, and a bit.
        assert(t * 0x400_0000 <= c * n) by (nonlinear_arith)
            requires
                t == c * x,
                n == m * x,
                m >= LEAST,
                x > 0,
        {
            assert(n >= LEAST * x);
            assert(0x400_0000 * x <= n);
            assert(c * (0x400_0000 * x) <= c * n);
        }
        assert(f <= bh) by (nonlinear_arith)
            requires
                c == pw * f + r,
                0 <= r,
                2 * (c * n) <= 2 * q + t,
                t * 0x400_0000 <= c * n,
                q == (bw * y) * pw,
                (bw * y) * 2 <= (2 * bh + 1) * n,
                g == pw * n,
                bh <= 0x10_0000,
                n > 0,
                pw > 0,
        {
            assert(g > 0);
            assert(2 * q <= ((2 * bh + 1) * n) * pw);
            assert(((2 * bh + 1) * n) * pw == (2 * bh + 1) * g);
            assert(c * n >= (pw * f) * n);
            assert((pw * f) * n == f * g);
            let u = c * n;
            assert(u * 0x800_0000 <= ((2 * bh + 1) * g) * 0x400_0000 + u);
            assert(u * 0x7ff_ffff <= ((2 * bh + 1) * g) * 0x400_0000);
            assert((f * 0x7ff_ffff) * g <= ((2 * bh + 1) * 0x400_0000) * g);
            assert(f * 0x7ff_ffff <= (2 * bh + 1) * 0x400_0000);
        }
        assert(t * 0x20_0000 <= g) by (nonlinear_arith)
            requires
                t == c * x,
                c == pw * f + r,
                r < pw,
                f <= 0x10_0000,
                n == m * x,
                g == pw * n,
                m >= LEAST,
                x > 0,
        {
            assert(c <= pw * (f + 1));
            assert(c * x <= (pw * (f + 1)) * x);
            assert((f + 1) * 0x20_0000 <= m);
            let z = pw * x;
            assert((pw * (f + 1)) * x == (f + 1) * z);
            assert(((f + 1) * 0x20_0000) * z <= m * z);
            assert(m * z == g);
        }
        lemma_integer_part_near(bw * y, n, f, r, pw);
        lemma_proportional(fh, c, pw as int);
    }
}

/// A proportional size is within one pixel of the proportion.
proof fn lemma_proportional(size: int, c: nat, p: int)
    requires
        p > 0,
        is_proportional(size, c as int, p),
    ensures
        c - p <= size * p <= c + p,
        size * p <= c || size == 1,
{
    let (f, r) = (c as int / p, c as int % p);
    vstd::arithmetic::div_mod::lemma_fundamental_div_mod(c as int, p);
    vstd::arithmetic::div_mod::lemma_mod_bound(c as int, p);
    assert(c - p <= size * p <= c + p && (size * p <= c || size == 1)) by (nonlinear_arith)
        requires
            c == p * f + r,
            0 <= r < p,
            size == f || f < 1 && size == 1 || r == 0 && size == f - 1,
            c >= 0,
            p > 0,
    {
        if f < 1 && size == 1 {
            assert(p * f <= 0);
        }
    }
}

/// Only the shape of a picture counts, not its size: pictures of the same proportions are
/// scaled alike.
pub proof fn law_fitted_by_shape(w1: u32, h1: u32, w2: u32, h2: u32, max_w: u32, max_h: u32)
    requires
        w1 * h2 == w2 * h1,
        (h1 == 0) == (h2 == 0),
    ensures
        fitted(w1, h1, max_w, max_h) == fitted(w2, h2, max_w, max_h),
{
    if h1 == 0 {
        law_fitted_degenerate(w1, h1, max_w, max_h);
        law_fitted_degenerate(w2, h2, max_w, max_h);
    } else {
        let (n1, d1, n2, d2) = (w1 as nat, h1 as nat, w2 as nat, h2 as nat);
        assert((n1 == 0) == (n2 == 0)) by (nonlinear_arith)
            requires
                n1 * d2 == n2 * d1,
                d1 > 0,
                d2 > 0,
        {
            if n1 != 0 {
                assert(n1 * d2 > 0);
            }
            if n2 != 0 {
                assert(n2 * d1 > 0);
            }
        }
        if n1 == 0 {
            lemma2_to64();
            number::lemma_exact(d1, 0);
            number::lemma_exact(d2, 0);
        } else {
            lemma_aspect(w1, h1);
            lemma_aspect(w2, h2);
            number::lemma_rounded_same(n1, d1, n2, d2);
        }
        assert(aspect(w1, h1) == aspect(w2, h2));
    }
}

/// Which side limits, and the size that follows, are computed in doubles: the box limits the
/// height if its aspect ratio is greater than that of the picture, and the width if not; the
/// other side is the product with the aspect ratio, or the quotient by it, without its
/// fraction.
pub proof fn law_fitted_in_doubles(w: u32, h: u32, max_w: u32, max_h: u32)
    ensures
        ({
            let a = Number::integer(w as int).quotient(Number::integer(h as int));
            let b = Number::integer(max_w as int).quotient(Number::integer(max_h as int));
            let (fw, fh) = if b.exceeds(a) {
                (
                    Number::integer(max_h as int).product(a).truncated(0, 0xffff_ffff),
                    max_h as int,
                )
            } else {
                (
                    max_w as int,
                    Number::integer(max_w as int).quotient(a).truncated(0, 0xffff_ffff),
                )
            };
            fitted(w, h, max_w, max_h) == (
                if fw >= 1 {
                    fw
                } else {
                    1
                },
                if fh >= 1 {
                    fh
                } else {
                    1
                },
            )
        }),
{
}

} // verus!
