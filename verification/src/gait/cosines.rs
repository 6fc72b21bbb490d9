//! The inverse kinematics obeys the law of cosines, up to rounding.

use vstd::prelude::*;
use vstd::arithmetic::power2::lemma2_to64;
use crate::binary64::root::{lemma_root_at_most, lemma_root_error, lemma_root_exists, nearest_root, square_root};
use crate::binary64::arithmetic::{opposite, product, sum};
use crate::binary64::convert::one_in_units;
use crate::binary64::facts::{lemma_opposite, lemma_signed, lemma_size_over, lemma_units_order};
use crate::binary64::model::{lemma_size_of, lemma_size_order, lemma_size_small, size, Binary64, BINADE};
use crate::binary64::nearness::{close, grain, lemma_bounded_product, lemma_bounded_sum, lemma_grain, lemma_times_bound};

use crate::decimals::{is_decimal, law_gait_decimals, lemma_decimal_value};
use crate::gait::angles::{knee_side, lemma_lengths, lemma_thigh_angle, square, thigh_side};
use crate::gait::knee::{lemma_knee_cosine, lemma_thigh_cosine, lemma_usable};
use crate::gait::{
    ik_terms_of, max_reach, out_of_reach, places_foot, pose_of, poses_leg, reach, solves_ik, FootTarget, Gait, Leg, L1,
    L2, NOMINAL_HEIGHT, TINY, WORKSPACE_MARGIN,
};
use crate::geometry::zero;
use crate::platform::FOUR;

verus! {

/// The two angles toward a foot within reach, to its side and ahead, are taken over its height
/// without its sign, or over a millionth of a meter where it is less.
pub proof fn law_sides(target: FootTarget)
    requires
        !out_of_reach(target),
        target.down.finite(),
    ensures
        ({
            let terms = ik_terms_of(target);
            &&& terms.hip.0 == target.lateral && terms.ahead.0 == target.forward && terms.hip.1 == terms.ahead.1
            &&& !terms.hip.1.negative()
            &&& target.down.magnitude() >= TINY ==> terms.hip.1.magnitude() == target.down.magnitude()
            &&& target.down.magnitude() < TINY ==> terms.hip.1 == (Binary64 { bits: TINY })
            &&& is_decimal(TINY, 1, 1000000)
        }),
{
    law_gait_decimals();
    lemma_signed(false, target.down.magnitude());
}

/// A foot out of reach is answered with the stand pose: straight down at 0.3 m.
pub proof fn law_stand_pose(target: FootTarget, stand: FootTarget)
    requires
        out_of_reach(target),
        stand.lateral.bits == 0,
        stand.forward.bits == 0,
        stand.down == (Binary64 { bits: NOMINAL_HEIGHT }),
    ensures
        ik_terms_of(target) == ik_terms_of(stand),
        ik_terms_of(target).hip == (zero(), stand.down),
        ik_terms_of(target).ahead == (zero(), stand.down),
        is_decimal(NOMINAL_HEIGHT, 3, 10),
{
    law_gait_decimals();
    crate::gait::workspace::law_standing_is_within_reach(crate::gait::Leg::FL);
    assert(stand == crate::gait::stand_target());
    lemma_signed(false, NOMINAL_HEIGHT as nat);
}

/// The cosines of the knee and of the thigh are those of the triangle with two sides of
/// 0.213 m and the reach as the third, up to rounding.
pub proof fn law_of_cosines(target: FootTarget)
    requires
        !reach(target).is_nan_spec(),
        !out_of_reach(target),
    ensures
        ({
            let one = one_in_units() as int;
            let error = grain() * (one_in_units() * one_in_units());
            let l = size(L1 as nat) as int;
            let r = reach(target).units();
            let knee = ik_terms_of(target).knee.units();
            let thigh = ik_terms_of(target).thigh.units();
            &&& close(2 * ((l * l) * (knee + one)), (r * r) * one, 9 * error as int)
            &&& close(2 * ((l * r) * thigh), (r * r) * one, 9 * error as int)
            &&& is_decimal(L1, 213, 1000) && is_decimal(L2, 213, 1000)
        }),
{
    let one = one_in_units() as int;
    let g = grain() as int;
    let l = size(L1 as nat) as int;
    let r = reach(target).units();
    lemma_grain();
    law_gait_decimals();
    lemma_usable(target);
    lemma_lengths();
    lemma_knee_cosine(target);
    lemma_thigh_cosine(target);
    lemma_size_small();
    let k = ik_terms_of(target).knee.units();
    let t = ik_terms_of(target).thigh.units();
    lemma_size_order(crate::binary64::order::ONE as nat, ik_terms_of(target).knee.magnitude());
    lemma_side_number(k + one, knee_side().units(), 2 * (l * l), square(target).units(), r * r, g, one, 6);
    lemma_side_number(t, thigh_side(target).units(), 2 * (r * l), square(target).units(), r * r, g, one, 3);
    assert((k + one) * (2 * (l * l)) == 2 * ((l * l) * (k + one)) && t * (2 * (r * l)) == 2 * ((l * r) * t)) by (nonlinear_arith);
}

/// The same in numbers: `k` times a side is a square.
proof fn lemma_side_number(k: int, side: int, exact: int, s: int, q: int, g: int, one: int, m: int)
    requires
        g > 0,
        one > 0,
        close(k, 0, 2 * one),
        close(side * one, exact, g * one),
        close(s * one, q, g * one),
        close(k * side, s * one, (m * g) * one),
        0 <= m <= 6,
    ensures
        close(k * exact, q * one, 9 * (g * (one * one))),
{
    let z = g * one;
    let w = g * (one * one);
    lemma_times_bound(k, side * one - exact, 2 * one, z);
    lemma_times_bound(s * one - q, one, z, one);
    lemma_times_bound(k * side - s * one, one, (m * g) * one, one);
    assert(k * (side * one - exact) == (k * side) * one - k * exact && (s * one - q) * one == (s * one) * one - q * one && (k
        * side - s * one) * one == (k * side) * one - (s * one) * one) by (nonlinear_arith);
    assert((2 * one) * z == 2 * w && z * one == w && ((m * g) * one) * one == m * w && w > 0) by (nonlinear_arith)
        requires
            z == g * one,
            w == g * (one * one),
            g > 0,
            one > 0,
    ;
    assert(m * w <= 6 * w) by (nonlinear_arith)
        requires
            m <= 6,
            w > 0,
    ;
}

/// Hip, thigh and calf are the side angle, the thigh's arc less the angle ahead, and the
/// knee's arc bent back.
pub proof fn law_pose(hip: Binary64, ahead: Binary64, knee: Binary64, thigh: Binary64)
    requires
        ahead.magnitude() <= FOUR,
        thigh.magnitude() <= FOUR,
    ensures
        pose_of(hip, ahead, knee, thigh).0 == hip,
        close(pose_of(hip, ahead, knee, thigh).1.units(), thigh.units() - ahead.units(), 9 * grain() as int),
        pose_of(hip, ahead, knee, thigh).2.magnitude() == knee.magnitude(),
        pose_of(hip, ahead, knee, thigh).2.negative() == !knee.negative(),
{
    lemma_thigh_angle(ahead, thigh);
    lemma_opposite(knee);
}

/// A solution is made of what the arc functions give for the sides and the cosines.
pub proof fn law_solution<A: Fn(Binary64, Binary64) -> Binary64, C: Fn(Binary64) -> Binary64>(
    atan2: A,
    acos: C,
    target: FootTarget,
    pose: (Binary64, Binary64, Binary64),
)
    requires
        solves_ik(atan2, acos, target, pose),
    ensures
        call_ensures(atan2, ik_terms_of(target).hip, pose.0),
        call_ensures(acos, (ik_terms_of(target).knee,), opposite(pose.2)),
        exists|ahead: Binary64, thigh: Binary64|
            {
                &&& #[trigger] call_ensures(atan2, ik_terms_of(target).ahead, ahead)
                &&& #[trigger] call_ensures(acos, (ik_terms_of(target).thigh,), thigh)
                &&& pose.1 == sum(opposite(ahead), thigh)
            },
{
    let terms = ik_terms_of(target);
    let (hip, ahead, knee, thigh) = choose|hip: Binary64, ahead: Binary64, knee: Binary64, thigh: Binary64|
        {
            &&& #[trigger] call_ensures(atan2, terms.hip, hip)
            &&& #[trigger] call_ensures(atan2, terms.ahead, ahead)
            &&& #[trigger] call_ensures(acos, (terms.knee,), knee)
            &&& #[trigger] call_ensures(acos, (terms.thigh,), thigh)
            &&& pose == pose_of(hip, ahead, knee, thigh)
        };
    lemma_opposite(knee);
    assert(call_ensures(atan2, terms.ahead, ahead) && call_ensures(acos, (terms.thigh,), thigh));
}

/// The reach is the distance from the hip to the foot by Pythagoras, up to rounding.
pub proof fn law_reach(target: FootTarget)
    requires
        target.forward.finite() && target.down.finite(),
        close(2 * target.forward.units(), 0, one_in_units() as int),
        close(2 * target.down.units(), 0, one_in_units() as int),
        !reach(target).is_nan_spec(),
        1000 * reach(target).units() >= one_in_units(),
    ensures
        ({
            let f = target.forward.units();
            let d = target.down.units();
            let r = reach(target).units();
            close(r * r, f * f + d * d, 12 * (grain() * one_in_units()) as int)
        }),
{
    let one = one_in_units() as int;
    let g = grain() as int;
    let f = target.forward.units();
    let d = target.down.units();
    let ff = product(target.forward, target.forward);
    let dd = product(target.down, target.down);
    let q = sum(ff, dd);
    let r = reach(target);
    lemma_grain();
    lemma_size_small();
    assert(one >= 1000000000000 * g) by (nonlinear_arith)
        requires
            one == 0x20_0000_0000_0000 * g,
            g > 0,
    ;
    let x = size(target.forward.magnitude()) as int;
    let y = size(target.down.magnitude()) as int;
    assert(4 * (x * x) <= one * one && 4 * (y * y) <= one * one && f * f == x * x && d * d == y * y) by (nonlinear_arith)
        requires
            0 <= 2 * x <= one,
            0 <= 2 * y <= one,
            f == x || f == -x,
            d == y || d == -y,
    {
        assert((2 * x) * (2 * x) <= one * one);
        assert((2 * y) * (2 * y) <= one * one);
        assert((-x) * (-x) == x * x);
        assert((-y) * (-y) == y * y);
    }
    lemma_bounded_product(target.forward, target.forward, 1);
    lemma_bounded_product(target.down, target.down, 1);
    assert(((1 + 1) * g) * one == 2 * (g * one)) by (nonlinear_arith);
    assert(-one <= ff.units() + dd.units() <= one) by (nonlinear_arith)
        requires
            -(2 * (g * one)) <= ff.units() * one - f * f <= 2 * (g * one),
            -(2 * (g * one)) <= dd.units() * one - d * d <= 2 * (g * one),
            0 <= 4 * (f * f) <= one * one,
            0 <= 4 * (d * d) <= one * one,
            one >= 1000000000000 * g,
            g > 0,
    {
        let t = ff.units() + dd.units();
        assert((one - 1000000000000 * g) * one >= 0);
        assert(t * one == ff.units() * one + dd.units() * one);
        assert((one - t) * one >= 0);
        assert((t + one) * one >= 0);
    }
    assert(f * f >= 0 && d * d >= 0) by (nonlinear_arith);
    lemma_bounded_sum(ff, dd, 1);
    assert((1 + 1) * grain() == 2 * grain()) by (nonlinear_arith);
    // the root
    let n = size(q.magnitude()) * one_in_units();
    assert(!q.is_nan_spec());
    assert(!q.is_zero() && !q.negative()) by {
        if q.is_zero() {
            assert(r == q);
        }
    }
    lemma_root_exists(n);
    lemma_signed(false, nearest_root(n));
    lemma2_to64();
    vstd::arithmetic::power2::lemma_pow2_pos(0);
    lemma_size_of(0, BINADE as nat);
    assert(r.units() >= BINADE) by (nonlinear_arith)
        requires
            1000 * r.units() >= one,
            one == 0x20_0000_0000_0000 * g,
            g >= 0x1_0000_0000,
            BINADE == 0x10_0000_0000_0000,
    ;
    lemma_size_order(r.magnitude(), BINADE as nat);
    lemma_root_finite(q);
    lemma_root_error(n);
    let ru = r.units();
    let t = q.units();
    assert(t * one == n);
    assert(t * one <= (one + 2 * g) * one) by (nonlinear_arith)
        requires
            t <= one + 2 * g,
            one > 0,
    ;
    lemma_root_square(ru, n as int, one, g);
    lemma_times_bound(t - (ff.units() + dd.units()), one, 2 * g, one);
    assert((t - (ff.units() + dd.units())) * one == t * one - ff.units() * one - dd.units() * one && (2 * g) * one == 2 * (g
        * one)) by (nonlinear_arith);
}

/// The root of a number up to about one is finite.
proof fn lemma_root_finite(q: Binary64)
    requires
        q.finite(),
        !q.negative(),
        q.units() <= 2 * one_in_units(),
    ensures
        square_root(q).finite(),
        square_root(q).units() <= 2 * one_in_units(),
{
    let g = grain();
    let one = one_in_units();
    lemma_grain();
    lemma2_to64();
    lemma_size_over(1023, 0x10_0000_0000_0000, 1021, 4, 0x40_0000_0000_0000);
    assert(size(0x4000_0000_0000_0000) == 2 * one) by (nonlinear_arith)
        requires
            size(0x4000_0000_0000_0000) == 0x40_0000_0000_0000 * g,
            one == 0x20_0000_0000_0000 * g,
    ;
    assert(size(q.magnitude()) * one <= (2 * one) * (2 * one)) by (nonlinear_arith)
        requires
            0 <= size(q.magnitude()) <= 2 * one,
    ;
    lemma_root_at_most(q, 0x4000_0000_0000_0000);
    lemma_size_order(0x4000_0000_0000_0000, square_root(q).magnitude());
}

/// The error of a root, in numbers.
proof fn lemma_root_square(r: int, n: int, one: int, g: int)
    requires
        one == 0x20_0000_0000_0000 * g,
        one >= 1000000000000 * g,
        g > 0,
        0 <= n <= (one + 2 * g) * one,
        BINADE * (r * r) <= BINADE * n + 2 * (r * r),
        BINADE * n <= BINADE * (r * r) + 2 * (r * r),
    ensures
        close(r * r, n, 5 * (g * one)),
{
    let b = 0x10_0000_0000_0000int;
    let s = r * r;
    let z = g * one;
    let w = one * one;
    assert(w == (2 * b) * z && z > 0 && (one + 2 * g) * one == w + 2 * z) by (nonlinear_arith)
        requires
            w == one * one,
            z == g * one,
            one == (2 * b) * g,
            g > 0,
            b == 0x10_0000_0000_0000,
    ;
    assert(s >= 0) by (nonlinear_arith)
        requires
            s == r * r,
    ;
    // s is at most a little more than one
    assert(b * s <= b * n + 2 * s && b * n <= b * s + 2 * s);
    assert(s <= 2 * w);
    assert(b * (s - n) <= 2 * s && b * (n - s) <= 2 * s) by (nonlinear_arith)
        requires
            b * s <= b * n + 2 * s,
            b * n <= b * s + 2 * s,
    ;
    assert(1000 * s <= 1001 * w);
    assert(2 * s <= b * (5 * z));
    assert(s - n <= 5 * z && n - s <= 5 * z) by (nonlinear_arith)
        requires
            b * (s - n) <= b * (5 * z),
            b * (n - s) <= b * (5 * z),
            b > 0,
    ;
}

/// The longest reach is 0.416 m: both lengths less a margin of 0.01 m.  A foot is out of reach
/// exactly where it is farther than that or nearer than the margin.
pub proof fn law_limits_of_reach(target: FootTarget)
    requires
        reach(target).finite(),
    ensures
        ({
            let r = reach(target).units();
            let one = one_in_units();
            let g = grain();
            &&& 1000 * r >= 416 * one + 5000 * g ==> out_of_reach(target)
            &&& 100 * r <= one - 3 * g ==> out_of_reach(target)
            &&& 1000 * r <= 416 * one - 5000 * g && 100 * r >= one + 3 * g ==> !out_of_reach(target)
        }),
{
    let l1 = Binary64 { bits: L1 };
    let l2 = Binary64 { bits: L2 };
    let margin = Binary64 { bits: WORKSPACE_MARGIN };
    let one = one_in_units() as int;
    let g = grain() as int;
    lemma_grain();
    law_gait_decimals();
    lemma_decimal_value(L1, 213, 1000);
    lemma_decimal_value(WORKSPACE_MARGIN, 1, 100);
    assert(one >= 1000000000000 * g) by (nonlinear_arith)
        requires
            one == 0x20_0000_0000_0000 * g,
            g > 0,
    ;
    lemma_bounded_sum(l1, l2, 1);
    let both = sum(l1, l2);
    lemma_opposite(margin);
    lemma_bounded_sum(both, opposite(margin), 1);
    assert((1 + 1) * grain() == 2 * grain()) by (nonlinear_arith);
    assert(close(1000 * l1.units(), 213 * one, 214 * g));
    assert(close(100 * margin.units(), one, 2 * g));
    assert(close(1000 * max_reach().units(), 416 * one, 4700 * g));
    lemma_units_order(reach(target), margin);
    lemma_units_order(max_reach(), reach(target));
}

/// The pose of a leg solves the inverse kinematics of the position of its own foot.
pub proof fn law_leg_pose<
    S: Fn(Binary64) -> Binary64,
    A: Fn(Binary64, Binary64) -> Binary64,
    C: Fn(Binary64) -> Binary64,
>(sin: S, atan2: A, acos: C, g: Gait, leg: Leg, pose: (Binary64, Binary64, Binary64))
    requires
        poses_leg(sin, atan2, acos, g, leg, pose),
    ensures
        exists|target: FootTarget| #[trigger] places_foot(sin, g, leg, target) && solves_ik(atan2, acos, target, pose),
{
}

} // verus!
