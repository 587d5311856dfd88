//! Moving the cursor: which tools are tried, in which order, and what they are told.
use crate::coords::{self, DesktopBounds};
use crate::double::Double;
use crate::number::{self, Number};
use crate::rounding;
use crate::text;
use vstd::arithmetic::power2::*;
use vstd::prelude::*;

verus! {

/// A way to move the cursor.
#[derive(Debug, Clone, Copy, PartialEq, Eq, Structural)]
pub enum Strategy {
    /// dotool (uses libei / uinput with percentage-based absolute positioning)
    Dotool,
    /// ydotool (uses /dev/uinput, needs ydotoold running)
    Ydotool,
    /// kdotool (KDE-specific)
    Kdotool,
    /// KWin scripting (may not work on Wayland due to input security)
    KwinScript,
}

/// What to do next to move the cursor.
#[derive(Debug, Clone, Copy, PartialEq, Eq, Structural)]
pub enum Step {
    Try { strategy: Strategy },
    /// The cursor has been moved.
    Warped,
    /// None of the strategies worked.
    Failed,
}

/// The strategies in the order in which they are tried.
pub open spec fn order() -> Seq<Strategy> {
    seq![Strategy::Dotool, Strategy::Ydotool, Strategy::Kdotool, Strategy::KwinScript]
}

impl Strategy {
    /// Where in the order a strategy stands.
    pub open spec fn rank(self) -> int {
        match self {
            Strategy::Dotool => 0,
            Strategy::Ydotool => 1,
            Strategy::Kdotool => 2,
            Strategy::KwinScript => 3,
        }
    }

    /// What to do when this strategy has been tried.
    pub open spec fn step(self, worked: bool) -> Step {
        if worked {
            Step::Warped
        } else if self.rank() + 1 < order().len() {
            Step::Try { strategy: order()[self.rank() + 1] }
        } else {
            Step::Failed
        }
    }
}

/// What to do first.
pub fn first_step() -> (s: Step)
    ensures
        s == (Step::Try { strategy: order()[0] }),
{
    Step::Try { strategy: Strategy::Dotool }
}

/// What to do when a strategy has been tried: once one has worked, nothing; else the next
/// in the order, as long as there is one.
pub fn next_step(tried: Strategy, worked: bool) -> (s: Step)
    ensures
        s == tried.step(worked),
{
    if worked {
        Step::Warped
    } else {
        match tried {
            Strategy::Dotool => Step::Try { strategy: Strategy::Ydotool },
            Strategy::Ydotool => Step::Try { strategy: Strategy::Kdotool },
            Strategy::Kdotool => Step::Try { strategy: Strategy::KwinScript },
            Strategy::KwinScript => Step::Failed,
        }
    }
}

/// The strategies that are tried, beginning with one, if `works` says of each whether it
/// works, and what comes of it in the end.
pub open spec fn attempts(works: spec_fn(Strategy) -> bool, from: Strategy) -> (
    Seq<Strategy>,
    Step,
)
    decreases order().len() - from.rank(),
{
    match from.step(works(from)) {
        Step::Try { strategy } => {
            let (rest, end) = attempts(works, strategy);
            (seq![from] + rest, end)
        },
        end => (seq![from], end),
    }
}

/// The strategies are tried in their order, up to the first that works. The cursor is
/// moved if any of them works, and only if none does has it failed.
pub proof fn law_attempts(works: spec_fn(Strategy) -> bool)
    ensures
        ({
            let (tried, end) = attempts(works, order()[0]);
            &&& 0 < tried.len() <= order().len()
            &&& tried == order().take(tried.len() as int)
            &&& forall|i: int| 0 <= i < tried.len() - 1 ==> !works(#[trigger] tried[i])
            &&& end == Step::Warped <==> works(tried.last())
            &&& end == Step::Warped <==> exists|s: Strategy| #[trigger] works(s)
            &&& end == Step::Failed <==> !(end == Step::Warped)
            &&& end == Step::Failed ==> tried == order()
        }),
{
    reveal_with_fuel(attempts, 5);
    let (tried, end) = attempts(works, order()[0]);
    assert(tried =~= order().take(tried.len() as int));
    assert(order().take(4) =~= order());
    if end == Step::Warped {
        assert(works(tried.last()));
    }
    if exists|s: Strategy| #[trigger] works(s) {
        let s = choose|s: Strategy| #[trigger] works(s);
        assert(order()[s.rank()] == s);
    }
}

/// What is reported when no strategy worked, for a position in whole pixels.
pub fn failure_message(x: &str, y: &str) -> (s: String)
    ensures
        s@ == "Failed to warp cursor to ("@ + x@ + ", "@ + y@
            + "). None of the strategies worked."@,
{
    let mut s = "Failed to warp cursor to (".to_owned();
    text::append(&mut s, x);
    text::append(&mut s, ", ");
    text::append(&mut s, y);
    text::append(&mut s, "). None of the strategies worked.");
    s
}

/// The fraction of a desktop that begins at `origin` at which a coordinate is.
pub open spec fn fraction(v: Number, origin: i32, extent: u32) -> Number {
    v.sum(Number::integer(-(origin as int))).quotient(Number::integer(extent as int))
}

/// The fraction of the desktop at which a coordinate is: what dotool goes by.
pub fn dotool_fraction(v: Double, origin: i32, extent: u32) -> (r: Double)
    requires
        v.wf(),
    ensures
        r.wf(),
        r@ == fraction(v@, origin, extent),
{
    v.sum(Double::integer(-(origin as i64))).quotient(Double::integer(extent as i64))
}

/// The shell command that has dotool move the cursor, to fractions of the desktop that are
/// written down already.
pub fn dotool_command(fraction_x: &str, fraction_y: &str) -> (s: String)
    ensures
        s@ == "echo 'mouseto "@ + fraction_x@ + " "@ + fraction_y@ + "' | dotool"@,
{
    let mut s = "echo 'mouseto ".to_owned();
    text::append(&mut s, fraction_x);
    text::append(&mut s, " ");
    text::append(&mut s, fraction_y);
    text::append(&mut s, "' | dotool");
    s
}

/// The greatest coordinate that ydotool goes by, in absolute mode, whatever the size of the
/// desktop (like a graphics tablet).
pub const YDOTOOL_MAX: i64 = 32767;

/// The coordinate that ydotool goes by.
pub open spec fn tablet(v: Number, origin: i32, extent: u32) -> int {
    fraction(v, origin, extent).product(Number::integer(YDOTOOL_MAX as int)).truncated(
        i32::MIN as int,
        i32::MAX as int,
    )
}

/// The coordinate that ydotool goes by.
pub fn ydotool_coordinate(v: Double, origin: i32, extent: u32) -> (r: i32)
    requires
        v.wf(),
    ensures
        r == tablet(v@, origin, extent),
{
    dotool_fraction(v, origin, extent).product(Double::integer(YDOTOOL_MAX)).to_i32()
}

/// The arguments that have ydotool move the cursor.
pub fn ydotool_args(x: Double, y: Double, desktop: &DesktopBounds) -> (r: Vec<String>)
    requires
        x.wf(),
        y.wf(),
    ensures
        text::texts(r@) == seq![
            "mousemove"@,
            "--absolute"@,
            "-x"@,
            text::decimal_int(tablet(x@, desktop.x, desktop.width)),
            "-y"@,
            text::decimal_int(tablet(y@, desktop.y, desktop.height)),
        ],
{
    let mut r: Vec<String> = Vec::new();
    r.push("mousemove".to_owned());
    r.push("--absolute".to_owned());
    r.push("-x".to_owned());
    r.push(text::int_text(ydotool_coordinate(x, desktop.x, desktop.width) as i64));
    r.push("-y".to_owned());
    r.push(text::int_text(ydotool_coordinate(y, desktop.y, desktop.height) as i64));
    assert(text::texts(r@) =~= seq![
        "mousemove"@,
        "--absolute"@,
        "-x"@,
        text::decimal_int(tablet(x@, desktop.x, desktop.width)),
        "-y"@,
        text::decimal_int(tablet(y@, desktop.y, desktop.height)),
    ]);
    r
}

/// The arguments that have kdotool move the cursor.
pub fn kdotool_args(x: Double, y: Double) -> (r: Vec<String>)
    requires
        x.wf(),
        y.wf(),
    ensures
        text::texts(r@) == seq![
            "mousemove"@,
            text::decimal_int(x@.truncated(i32::MIN as int, i32::MAX as int)),
            text::decimal_int(y@.truncated(i32::MIN as int, i32::MAX as int)),
        ],
{
    let mut r: Vec<String> = Vec::new();
    r.push("mousemove".to_owned());
    r.push(text::int_text(x.to_i32() as i64));
    r.push(text::int_text(y.to_i32() as i64));
    assert(text::texts(r@) =~= seq![
        "mousemove"@,
        text::decimal_int(x@.truncated(i32::MIN as int, i32::MAX as int)),
        text::decimal_int(y@.truncated(i32::MIN as int, i32::MAX as int)),
    ]);
    r
}

/// For a position on the desktop, wherever the desktop begins, what dotool is told is from
/// zero to one, and what ydotool is told from zero to its greatest coordinate.
pub proof fn law_tool_ranges(v: Number, origin: i32, extent: u32)
    requires
        extent > 0,
        v is Finite,
        v.representable(),
        Number::integer(origin as int).at_most(v),
        v.at_most(Number::integer(origin + extent)),
    ensures
        fraction(v, origin, extent).is_at_least_zero(),
        fraction(v, origin, extent).at_most(Number::integer(1)),
        0 <= tablet(v, origin, extent) <= YDOTOOL_MAX,
{
    let s = v.sum(Number::integer(-(origin as int)));
    number::lemma_difference(v, origin as int, extent as nat);
    let q = s.quotient(Number::integer(extent as int));
    coords::lemma_inside(s, extent, YDOTOOL_MAX as u32);
    number::lemma_integer(1);
    number::lemma_own_ratio(q);
    let (nq, dq) = (q->significand * rounding::power(q->exponent), rounding::power(-q->exponent));
    number::lemma_ratio_order(q, nq, dq, Number::integer(1), 1, 1);
    let p = q.product(Number::integer(YDOTOOL_MAX as int));
    number::lemma_own_ratio(p);
    let (np, dp) = (p->significand * rounding::power(p->exponent), rounding::power(-p->exponent));
    let t = Number::integer(YDOTOOL_MAX as int);
    number::lemma_integer(YDOTOOL_MAX as nat);
    number::lemma_ratio_order(p, np, dp, t, YDOTOOL_MAX as nat, 1);
    let (lo, hi) = (i32::MIN as int, i32::MAX as int);
    number::lemma_truncated_ordered(p, t, lo, hi);
    number::lemma_truncated_integer(YDOTOOL_MAX as int, lo, hi);
}

/// Wherever on the overlay a click is, and wherever the desktop begins, what the tools are
/// told is in their range.
pub proof fn law_click_in_tool_ranges(at: Number, overlay: u32, extent: u32, origin: i32)
    requires
        overlay > 0,
        extent > 0,
        at is Finite,
        at.representable(),
        at.is_at_least_zero(),
        at.at_most(Number::integer(overlay as int)),
    ensures
        ({
            let v = coords::placed(at, overlay, extent, origin);
            &&& fraction(v, origin, extent).is_at_least_zero()
            &&& fraction(v, origin, extent).at_most(Number::integer(1))
            &&& 0 <= tablet(v, origin, extent) <= YDOTOOL_MAX
        }),
{
    coords::law_click_inside(at, overlay, extent, origin);
    coords::lemma_placed_is_double(at, overlay, extent, origin);
    law_tool_ranges(coords::placed(at, overlay, extent, origin), origin, extent);
}

/// What dotool is told is where on the desktop the position is, up to one part in `2^20` of
/// the desktop; what ydotool is told is the same part of its greatest coordinate, rounded down,
/// up to the 32nd part of a coordinate. Here the position is `n / d`, in pixels.
pub proof fn law_tools_are_told_where(v: Number, origin: i32, extent: u32)
    requires
        extent > 0,
        v is Finite,
        v.representable(),
        Number::integer(origin as int).at_most(v),
        v.at_most(Number::integer(origin + extent)),
    ensures
        ({
            let (n, d) = (v.numerator(), v.denominator());
            // How far into the desktop the position is, over the extent of the desktop.
            let (x, y) = (n - origin * d, d * extent);
            let q = fraction(v, origin, extent);
            let t = tablet(v, origin, extent);
            &&& d > 0
            &&& q is Finite
            &&& -(q.denominator() * y) <= (q.numerator() * y - x * q.denominator()) * 0x10_0000
                <= q.denominator() * y
            &&& (32 * t - 1) * y <= 32 * (32767 * x)
            &&& 32 * (32767 * x) <= (32 * t + 33) * y
        }),
{
    lemma2_to64();
    lemma2_to64_rest();
    law_tool_ranges(v, origin, extent);
    let (n, d) = (v.numerator(), v.denominator());
    rounding::lemma_scale_is_power(1, v->exponent);
    number::lemma_difference(v, origin as int, extent as nat);
    let ex = extent as nat;
    let x = n - origin * d;
    let y = d * ex;
    assert(y > 0) by (nonlinear_arith)
        requires
            y == d * ex,
            d > 0,
            ex > 0,
    ;
    let s = v.sum(Number::integer(-(origin as int)));
    assert(x <= d * 0x1_0000_0000) by (nonlinear_arith)
        requires
            x <= ex * d,
            ex <= 0x1_0000_0000,
            d > 0,
    ;
    number::lemma_rounded_error(x as nat, d, 32);
    let (u1, w1) = (s->significand * rounding::power(s->exponent), rounding::power(-s->exponent));
    number::lemma_own_ratio(s);
    coords::lemma_inside(s, extent, YDOTOOL_MAX as u32);
    let q = fraction(v, origin, extent);
    let m1 = w1 * ex;
    assert(m1 > 0) by (nonlinear_arith)
        requires
            m1 == w1 * ex,
            w1 > 0,
            ex > 0,
    ;
    // The first error is that of the difference.
    assert(-(m1 * y) <= (u1 * y - x * m1) * 0x20_0000 <= m1 * y) by {
        let e = u1 * d - x * w1;
        assert(-(w1 * d) <= e * 0x20_0000 <= w1 * d) by (nonlinear_arith)
            requires
                e == u1 * d - x * w1,
                (u1 * d) * 0x20_0000 <= (x * w1) * 0x20_0000 + w1 * d,
                (x * w1) * 0x20_0000 <= (u1 * d) * 0x20_0000 + w1 * d,
        ;
        assert(u1 * y - x * m1 == ex * e) by (nonlinear_arith)
            requires
                e == u1 * d - x * w1,
                y == d * ex,
                m1 == w1 * ex,
        ;
        let z = w1 * d;
        assert(m1 * y == ex * (ex * z)) by (nonlinear_arith)
            requires
                m1 == w1 * ex,
                y == d * ex,
                z == w1 * d,
        ;
        assert(-(ex * (ex * z)) <= (ex * e) * 0x20_0000 <= ex * (ex * z)) by (nonlinear_arith)
            requires
                -z <= e * 0x20_0000 <= z,
                ex >= 1,
                z >= 0,
        {
            assert(ex * (e * 0x20_0000) <= ex * z);
            assert(ex * (e * 0x20_0000) >= ex * (-z));
            assert(ex * z <= ex * (ex * z)) by {
                assert(ex * z >= 0);
                assert(z <= ex * z);
            }
        }
    }
    // The second, that of the quotient.
    let (u2, w2) = (q->significand * rounding::power(q->exponent), rounding::power(-q->exponent));
    assert(q == Number::rounded(false, u1, m1, 0));
    assert(u1 <= m1 * 1);
    number::lemma_rounded_error(u1, m1, 0);
    number::lemma_own_ratio(q);
    let e2 = u2 * m1 - 1 * u1 * w2;
    assert(-(w2 * m1) <= e2 * 0x20_0000_0000_0000 <= w2 * m1) by (nonlinear_arith)
        requires
            e2 == u2 * m1 - u1 * w2,
            (u2 * m1) * 0x20_0000_0000_0000 <= (u1 * w2) * 0x20_0000_0000_0000 + w2 * m1,
            (u1 * w2) * 0x20_0000_0000_0000 <= (u2 * m1) * 0x20_0000_0000_0000 + w2 * m1,
    ;
    number::lemma_errors_compose(
        u2 as int,
        w2 as int,
        1,
        u1 as int,
        m1 as int,
        x,
        y as int,
        0x20_0000_0000_0000,
        0x20_0000,
        0x10_0000,
    );
    assert(-(w2 * y) <= (u2 * y - 1 * x * w2) * 0x10_0000 <= w2 * y);
    // The third, that of the product.
    let p = q.product(Number::integer(YDOTOOL_MAX as int));
    let c = u2 * 32767;
    assert(p == Number::rounded(false, c, w2, 0));
    assert(c <= w2 * 0x8000) by (nonlinear_arith)
        requires
            c == u2 * 32767,
            u2 <= w2,
    ;
    number::lemma_rounded_error(c, w2, 15);
    let (u3, w3) = (p->significand * rounding::power(p->exponent), rounding::power(-p->exponent));
    number::lemma_own_ratio(p);
    let e3 = u3 * w2 - 32767 * u2 * w3;
    assert(-(w3 * w2) <= e3 * 0x40_0000_0000 <= w3 * w2) by (nonlinear_arith)
        requires
            c == u2 * 32767,
            e3 == u3 * w2 - 32767 * u2 * w3,
            (u3 * w2) * 0x40_0000_0000 <= (c * w3) * 0x40_0000_0000 + w3 * w2,
            (c * w3) * 0x40_0000_0000 <= (u3 * w2) * 0x40_0000_0000 + w3 * w2,
    ;
    number::lemma_errors_compose(
        u3 as int,
        w3 as int,
        32767,
        u2 as int,
        w2 as int,
        x,
        y as int,
        0x40_0000_0000,
        0x10_0000,
        32,
    );
    let (lo, hi) = (i32::MIN as int, i32::MAX as int);
    let t = tablet(v, origin, extent);
    number::lemma_truncated(p, u3, w3, lo, hi);
    let f = u3 / w3;
    vstd::arithmetic::div_mod::lemma_fundamental_div_mod(u3 as int, w3 as int);
    vstd::arithmetic::div_mod::lemma_mod_bound(u3 as int, w3 as int);
    assert(t == f);
    let g = 32767 * x;
    assert((32 * t - 1) * y <= 32 * g && 32 * g <= (32 * t + 33) * y) by (nonlinear_arith)
        requires
            w3 * t <= u3,
            u3 < w3 * t + w3,
            -(w3 * y) <= (u3 * y - g * w3) * 32 <= w3 * y,
            w3 > 0,
            y > 0,
    {
        let a = (w3 * t) * y;
        assert(a <= u3 * y);
        assert(u3 * y <= a + w3 * y);
        assert(32 * a - 32 * (g * w3) <= w3 * y);
        assert(32 * (g * w3) - 32 * (a + w3 * y) <= w3 * y);
        assert(((32 * t - 1) * y) * w3 == 32 * a - w3 * y);
        assert(((32 * t + 33) * y) * w3 == 32 * a + 33 * (w3 * y));
        assert(((32 * t - 1) * y) * w3 <= (32 * g) * w3);
        assert((32 * g) * w3 <= ((32 * t + 33) * y) * w3);
    }
    assert(q.numerator() == u2 && q.denominator() == w2);
    assert(1 * x * w2 == x * w2) by (nonlinear_arith);
    assert(d * extent == y);
    assert(32 * (32767 * x) == 32 * g);
}

/// A position further to the right or further down is not told as one further to the left or
/// further up.
pub proof fn law_tools_keep_order(a: Number, b: Number, origin: i32, extent: u32)
    requires
        extent > 0,
        a is Finite,
        b is Finite,
        a.representable(),
        b.representable(),
        Number::integer(origin as int).at_most(a),
        a.at_most(b),
        b.at_most(Number::integer(origin + extent)),
        a.at_most(Number::integer(origin + extent)),
        Number::integer(origin as int).at_most(b),
    ensures
        fraction(a, origin, extent).at_most(fraction(b, origin, extent)),
        tablet(a, origin, extent) <= tablet(b, origin, extent),
{
    let (o, ex) = (origin as int, extent as nat);
    number::lemma_order_is_that_of_fractions(a, b);
    number::lemma_difference(a, o, ex);
    number::lemma_difference(b, o, ex);
    let (da, db) = (a.denominator(), b.denominator());
    let (na, nb) = (a.numerator(), b.numerator());
    let (ta, tb) = ((na - o * da) as nat, (nb - o * db) as nat);
    assert(ta * db <= tb * da) by (nonlinear_arith)
        requires
            na * db <= nb * da,
            ta == na - o * da,
            tb == nb - o * db,
    ;
    let (sa, sb) = (a.sum(Number::integer(-o)), b.sum(Number::integer(-o)));
    number::lemma_rounded_ordered(ta, da, tb, db);
    number::lemma_own_ratio(sa);
    number::lemma_own_ratio(sb);
    let (ua, wa) = (sa.numerator() as nat, sa.denominator());
    let (ub, wb) = (sb.numerator() as nat, sb.denominator());
    number::lemma_ratio_order(sa, ua, wa, sb, ub, wb);
    let m = YDOTOOL_MAX as u32;
    coords::lemma_inside(sa, extent, m);
    coords::lemma_inside(sb, extent, m);
    assert(ua * (wb * ex) <= ub * (wa * ex)) by (nonlinear_arith)
        requires
            ua * wb <= ub * wa,
    ;
    assert(wa * ex > 0 && wb * ex > 0) by (nonlinear_arith)
        requires
            wa > 0,
            wb > 0,
            ex > 0,
    ;
    number::lemma_rounded_ordered(ua, wa * ex, ub, wb * ex);
    let (qa, qb) = (fraction(a, origin, extent), fraction(b, origin, extent));
    number::lemma_own_ratio(qa);
    number::lemma_own_ratio(qb);
    let (va, xa) = (qa.numerator() as nat, qa.denominator());
    let (vb, xb) = (qb.numerator() as nat, qb.denominator());
    number::lemma_ratio_order(qa, va, xa, qb, vb, xb);
    let k = m as nat;
    assert((va * k) * xb <= (vb * k) * xa) by (nonlinear_arith)
        requires
            va * xb <= vb * xa,
    ;
    number::lemma_rounded_ordered(va * k, xa, vb * k, xb);
    number::lemma_truncated_ordered(
        qa.product(Number::integer(YDOTOOL_MAX as int)),
        qb.product(Number::integer(YDOTOOL_MAX as int)),
        i32::MIN as int,
        i32::MAX as int,
    );
}

/// The tools are tried in this order: dotool, ydotool, kdotool, a script of KWin; after one
/// that works, or the last, there is nothing more to try.
pub proof fn law_order(s: Strategy)
    ensures
        order()[0] == Strategy::Dotool,
        Strategy::Dotool.step(false) == (Step::Try { strategy: Strategy::Ydotool }),
        Strategy::Ydotool.step(false) == (Step::Try { strategy: Strategy::Kdotool }),
        Strategy::Kdotool.step(false) == (Step::Try { strategy: Strategy::KwinScript }),
        Strategy::KwinScript.step(false) == Step::Failed,
        s.step(true) == Step::Warped,
{
}

/// Where a position is, in parts of the desktop, is the distance from where the desktop begins
/// over its extent, and what ydotool is told that part of 32767, each step computed in doubles.
pub proof fn law_tools_in_doubles(v: Number, origin: i32, extent: u32)
    ensures
        ({
            let s = v.sum(Number::integer(0 - origin));
            let q = s.quotient(Number::integer(extent as int));
            &&& fraction(v, origin, extent) == q
            &&& tablet(v, origin, extent) == q.product(Number::integer(32767)).truncated(
                -0x8000_0000,
                0x7fff_ffff,
            )
        }),
{
}

} // verus!
