//! Near foot positions have near joint angles.

use vstd::prelude::*;
use vstd::arithmetic::power2::{lemma2_to64, pow2};
use crate::binary64::arithmetic::{difference, opposite, product, quotient, sum};
use crate::binary64::convert::one_in_units;
use crate::binary64::facts::{lemma_from_parts, lemma_opposite, lemma_signed, lemma_size_over, lemma_sum_error, within};
use crate::binary64::model::{lemma_size_order, lemma_size_small, size, Binary64, BINADE, INFINITY};
use crate::binary64::nearness::{
    close, grain, lemma_cancel, lemma_grain, lemma_small_product, lemma_small_quotient, lemma_small_sum,
    lemma_times_bound, lemma_twice,
};
use crate::binary64::order::ONE;
use crate::binary64::root::{lemma_root_error, lemma_root_exists, nearest_root};
use crate::gait::{
    foot_aside, ik_terms_for, ik_terms_of, in_stance, lateral_sign, leg_phase, out_of_reach, phase_after, phase_offset,
    places_foot, pose_of, poses_leg, reach, solves_ik, steps, swing_angle, FootTarget, Gait, Leg, L1, MAX_FREQUENCY,
    MIN_FREQUENCY, TWO, UNITY,
};
use crate::gait::cycle::{
    half_cycle, is_place, law_a_cycle_returns, law_half_a_cycle_swaps_the_diagonals, lemma_leg_place,
};
use crate::gait::feet::{
    foot_at, law_a_cycle_returns_the_feet, law_half_a_cycle_swaps_the_feet, lemma_angle, lemma_foot_at_place, lifts_at,
    near_feet,
};
use crate::gait::laws::law_feet_are_mirrored;
use crate::gait::travel::{lemma_wave, off_middle, speed};
use crate::gait::workspace::{
    law_swing_lifts_the_foot, lemma_in_reach, lemma_lifted, lemma_reach, lemma_stride, FARTHEST, HIGHEST,
};
use crate::platform::{
    is_like_a_sine, is_like_an_arc_cosine, is_like_an_arc_tangent, lemma_arc_cosines, lemma_arc_tangents, points_ahead,
    ALMOST_ONE, EIGHTH, FOUR,
};

verus! {

/// Whether a foot is where walking takes it: at most 0.125 m ahead or behind, and 0.125 to
/// 0.375 m below the hip.
pub open spec fn within_stride(target: FootTarget) -> bool {
    &&& target.forward.magnitude() <= EIGHTH
    &&& !target.down.negative()
    &&& EIGHTH <= target.down.magnitude() <= HIGHEST
}

/// The square of the reach.
pub(crate) open spec fn square(target: FootTarget) -> Binary64 {
    product(reach(target), reach(target))
}

/// The square of the length of a thigh or calf.
pub(crate) open spec fn length_square() -> Binary64 {
    product(Binary64 { bits: L1 }, Binary64 { bits: L1 })
}

/// The sizes of the limits of a stride.
pub(crate) proof fn lemma_limits()
    ensures
        8 * size(EIGHTH as nat) == one_in_units(),
        8 * size(HIGHEST as nat) == 3 * one_in_units(),
        32 * size(FARTHEST as nat) == 13 * one_in_units(),
        212 * one_in_units() <= 1000 * size(L1 as nat) <= 214 * one_in_units(),
{
    let e = pow2(1019);
    lemma_grain();
    lemma2_to64();
    lemma_size_over(1019, 0x10_0000_0000_0000, 1019, 1, 0x10_0000_0000_0000);
    lemma_size_over(1020, 0x18_0000_0000_0000, 1019, 2, 0x30_0000_0000_0000);
    lemma_size_over(1020, 0x1A_0000_0000_0000, 1019, 2, 0x34_0000_0000_0000);
    lemma_size_over(1019, 0x1B_4395_8106_24DD, 1019, 1, 0x1B_4395_8106_24DD);
    lemma_size_over(1022, 0x10_0000_0000_0000, 1019, 8, 0x80_0000_0000_0000);
    assert(8 * (0x10_0000_0000_0000 * e) == 0x80_0000_0000_0000 * e && 8 * (0x30_0000_0000_0000 * e) == 3 * (
    0x80_0000_0000_0000 * e) && 32 * (0x34_0000_0000_0000 * e) == 13 * (0x80_0000_0000_0000 * e)) by (nonlinear_arith);
    assert(212 * (0x80_0000_0000_0000 * e) <= 1000 * (0x1B_4395_8106_24DD * e) && 1000 * (0x1B_4395_8106_24DD * e) <= 214 * (
    0x80_0000_0000_0000 * e)) by (nonlinear_arith)
        requires
            e >= 0,
    ;
}

/// The square of the reach is the sum of the squares, up to a few grains.
proof fn lemma_square(target: FootTarget)
    requires
        within_stride(target),
    ensures
        ({
            let one = one_in_units() as int;
            let g = grain() as int;
            let f = target.forward.units();
            let d = target.down.units();
            let r = reach(target).units();
            &&& reach(target).magnitude() <= FARTHEST
            &&& !reach(target).negative()
            &&& one <= 8 * r && 32 * r <= 13 * one
            &&& close(f, 0, size(EIGHTH as nat) as int)
            &&& 0 <= d <= size(HIGHEST as nat)
            &&& close(r * r, f * f + d * d, (4 * g) * one)
            &&& close(square(target).units() * one, r * r, g * one)
            &&& square(target).magnitude() <= ONE
            &&& !square(target).negative()
        }),
{
    let one = one_in_units() as int;
    let g = grain() as int;
    let f = target.forward.units();
    let d = target.down.units();
    let ff = product(target.forward, target.forward);
    let dd = product(target.down, target.down);
    let q = sum(ff, dd);
    let r = reach(target);
    lemma_grain();
    lemma_limits();
    lemma_size_small();
    lemma_reach(target);
    lemma_size_order(EIGHTH as nat, target.forward.magnitude());
    lemma_size_order(HIGHEST as nat, target.down.magnitude());
    lemma_size_order(FARTHEST as nat, r.magnitude());
    lemma_size_order(r.magnitude(), EIGHTH as nat);
    let x = size(target.forward.magnitude()) as int;
    assert(64 * (x * x) <= one * one && 64 * (d * d) <= 9 * (one * one) && f * f == x * x) by (nonlinear_arith)
        requires
            0 <= 8 * x <= one,
            0 <= 8 * d <= 3 * one,
            f == x || f == -x,
    {
        assert((8 * x) * (8 * x) <= one * one);
        assert((8 * d) * (8 * d) <= (3 * one) * (3 * one));
        assert((-x) * (-x) == x * x);
    }
    lemma_small_product(target.forward, target.forward);
    lemma_small_product(target.down, target.down);
    assert(2 * (ff.units() + dd.units()) <= one) by (nonlinear_arith)
        requires
            ff.units() * one <= f * f + g * one,
            dd.units() * one <= d * d + g * one,
            64 * (f * f) <= one * one,
            64 * (d * d) <= 9 * (one * one),
            one == 0x20_0000_0000_0000 * g,
            g > 0,
    {
        assert((ff.units() + dd.units()) * one <= f * f + d * d + 2 * (g * one));
        assert(64 * ((ff.units() + dd.units()) * one) <= (10 * one + 128 * g) * one);
        assert((64 * (ff.units() + dd.units())) * one <= (10 * one + 128 * g) * one);
        assert(64 * (ff.units() + dd.units()) <= 10 * one + 128 * g);
    }
    lemma_small_sum(ff, dd);
    // the root
    let n = size(q.magnitude()) * one_in_units();
    assert(!q.is_zero() && !q.negative());
    lemma_root_exists(n);
    lemma_signed(false, nearest_root(n));
    assert(r.magnitude() == nearest_root(n));
    lemma_root_error(n);
    let ru = r.units();
    assert(1024 * (ru * ru) <= 169 * (one * one)) by (nonlinear_arith)
        requires
            0 <= 32 * ru <= 13 * one,
    {
        assert((32 * ru) * (32 * ru) <= (13 * one) * (13 * one));
    }
    lemma_root_number(ru, n as int, one, g);
    assert(q.units() * one == n);
    assert((q.units() - (ff.units() + dd.units())) * one == q.units() * one - ff.units() * one - dd.units() * one)
        by (nonlinear_arith);
    lemma_times_bound(q.units() - (ff.units() + dd.units()), one, g, one);
    assert((4 * g) * one == 4 * (g * one)) by (nonlinear_arith);
    lemma_small_product(r, r);
}

/// The error of a root, in numbers.
proof fn lemma_root_number(r: int, n: int, one: int, g: int)
    requires
        one == 0x20_0000_0000_0000 * g,
        g > 0,
        1024 * (r * r) <= 169 * (one * one),
        BINADE * (r * r) <= BINADE * n + 2 * (r * r),
        BINADE * n <= BINADE * (r * r) + 2 * (r * r),
    ensures
        close(r * r, n, g * one),
{
    let b = 0x10_0000_0000_0000int;
    let s = r * r;
    assert(b * (s - n) <= b * (g * one) && b * (n - s) <= b * (g * one)) by (nonlinear_arith)
        requires
            b * s <= b * n + 2 * s,
            b * n <= b * s + 2 * s,
            1024 * s <= 169 * (one * one),
            one == (2 * b) * g,
            one > 0,
            g > 0,
            b == 0x10_0000_0000_0000,
    {
        assert(one * one == (2 * b) * (g * one));
        assert(g * one > 0);
        assert(1024 * (2 * s) <= 169 * (4 * (b * (g * one))));
    }
    assert(s - n <= g * one && n - s <= g * one) by (nonlinear_arith)
        requires
            b * (s - n) <= b * (g * one),
            b * (n - s) <= b * (g * one),
            b > 0,
    ;
}

/// What the knee bends by, before it is divided.
pub(crate) open spec fn bend(target: FootTarget) -> Binary64 {
    difference(difference(square(target), length_square()), length_square())
}

/// What the bend of the knee is divided by.
pub(crate) open spec fn knee_side() -> Binary64 {
    product(product(Binary64 { bits: TWO }, Binary64 { bits: L1 }), Binary64 { bits: L1 })
}

/// The square of a length, and the side of the knee.
pub(crate) proof fn lemma_lengths()
    ensures
        ({
            let one = one_in_units() as int;
            let g = grain() as int;
            let l = size(L1 as nat) as int;
            let side = knee_side();
            &&& length_square().magnitude() <= ONE && !length_square().negative()
            &&& close(length_square().units() * one, l * l, g * one)
            &&& side.magnitude() <= ONE && !side.negative()
            &&& close(side.units() * one, 2 * (l * l), g * one)
            &&& one <= 12 * side.units()
            &&& close(side.units(), 2 * length_square().units(), 3 * g)
            &&& 1000 * side.units() <= 92 * one
            &&& 1000 * side.units() >= 89 * one
        }),
{
    let one = one_in_units() as int;
    let g = grain() as int;
    let l = size(L1 as nat) as int;
    let length = Binary64 { bits: L1 };
    let twice = product(Binary64 { bits: TWO }, length);
    lemma_grain();
    lemma_limits();
    assert(1000000 * (l * l) <= 45796 * (one * one) && 1000000 * (l * l) >= 44944 * (one * one)) by (nonlinear_arith)
        requires
            212 * one <= 1000 * l <= 214 * one,
            one > 0,
    {
        assert((1000 * l) * (1000 * l) <= (214 * one) * (214 * one));
        assert((1000 * l) * (1000 * l) >= (212 * one) * (212 * one));
    }
    lemma_small_product(length, length);
    lemma_twice(length);
    assert((2 * l) * l == 2 * (l * l)) by (nonlinear_arith);
    lemma_size_small();
    lemma_small_product(twice, length);
    let s = knee_side().units();
    let t = length_square().units();
    assert(s * one - 2 * (t * one) == (s - 2 * t) * one && (3 * g) * one == 3 * (g * one)) by (nonlinear_arith);
    lemma_cancel(s - 2 * t, 3 * g, one);
    assert(1000 * s <= 92 * one && 1000 * s >= 89 * one) by (nonlinear_arith)
        requires
            s * one <= 2 * (l * l) + g * one,
            s * one >= 2 * (l * l) - g * one,
            1000000 * (l * l) <= 45796 * (one * one),
            1000000 * (l * l) >= 44944 * (one * one),
            one == 0x20_0000_0000_0000 * g,
            g > 0,
    {
        assert((1000000 * s) * one <= (91592 * one + 1000000 * g) * one);
        assert((1000000 * s) * one >= (89888 * one - 1000000 * g) * one);
        assert(1000000 * s <= 91592 * one + 1000000 * g);
        assert(1000000 * s >= 89888 * one - 1000000 * g);
    }
}

/// The square of the reach lies well within what the leg can do.
proof fn lemma_square_range(target: FootTarget)
    requires
        within_stride(target),
    ensures
        65 * square(target).units() >= one_in_units(),
        6 * square(target).units() <= one_in_units(),
{
    let one = one_in_units() as int;
    let g = grain() as int;
    let r = reach(target).units();
    let s = square(target).units();
    lemma_grain();
    lemma_square(target);
    assert(65 * s >= one && 6 * s <= one) by (nonlinear_arith)
        requires
            s * one <= r * r + g * one,
            s * one >= r * r - g * one,
            one <= 8 * r,
            32 * r <= 13 * one,
            one == 0x20_0000_0000_0000 * g,
            g > 0,
    {
        assert(one * one <= (8 * r) * (8 * r));
        assert((32 * r) * (32 * r) <= (13 * one) * (13 * one));
        assert((64 * s) * one >= (one - 64 * g) * one);
        assert(64 * s >= one - 64 * g);
        assert((1024 * s) * one <= (169 * one + 1024 * g) * one);
        assert(1024 * s <= 169 * one + 1024 * g);
    }
}

/// The cosine of the knee's bend.
proof fn lemma_knee(target: FootTarget)
    requires
        within_stride(target),
    ensures
        ({
            let one = one_in_units() as int;
            let g = grain() as int;
            let knee = ik_terms_for(target).knee;
            let side = knee_side().units();
            let n = square(target).units() - 2 * length_square().units();
            &&& knee.magnitude() <= ONE
            &&& close(32 * knee.units(), 0, 31 * one)
            &&& close(knee.units() * side, n * one, (2 * g) * side + (2 * g) * one)
        }),
{
    let one = one_in_units() as int;
    let g = grain() as int;
    let ll = length_square();
    let side = knee_side();
    let s = square(target);
    lemma_grain();
    lemma_square(target);
    lemma_square_range(target);
    lemma_lengths();
    lemma_opposite(ll);
    lemma_size_small();
    lemma_small_sum(s, opposite(ll));
    let first = difference(s, ll);
    lemma_small_sum(first, opposite(ll));
    let n = bend(target);
    // the bend is smaller than the side
    assert(n.units() <= s.units() - 2 * ll.units() + 2 * g && n.units() >= s.units() - 2 * ll.units() - 2 * g);
    assert(one == 0x20_0000_0000_0000 * g);
    assert(one >= 1000000 * g) by (nonlinear_arith)
        requires
            one == 0x20_0000_0000_0000 * g,
            g > 0,
    ;
    assert(close(1024 * n.units(), 0, 991 * side.units()));
    lemma_size_order(side.magnitude(), n.magnitude());
    lemma_small_quotient(n, side);
    let k = quotient(n, side);
    lemma_opposite(Binary64 { bits: ONE });
    assert(ik_terms_for(target).knee == k);
    let m = s.units() - 2 * ll.units();
    lemma_times_bound(n.units() - m, one, 2 * g, one);
    assert((n.units() - m) * one == n.units() * one - m * one) by (nonlinear_arith);
    lemma_cosine_size(k.units(), n.units(), side.units(), one, g);
}

/// A cosine that is clearly less than one, in numbers.
proof fn lemma_cosine_size(k: int, n: int, side: int, one: int, g: int)
    requires
        side > 0,
        one >= 1000000 * g,
        g > 0,
        close(1024 * n, 0, 991 * side),
        close(k * side, n * one, (2 * g) * side),
    ensures
        close(32 * k, 0, 31 * one),
{
    lemma_times_bound(1024 * n, one, 991 * side, one);
    assert((1024 * n) * one == 1024 * (n * one) && (991 * side) * one == 991 * (one * side) && (32 * k) * side == 32 * (k * side)
        && (31 * one) * side == 31 * (one * side)) by (nonlinear_arith);
    assert(1000000 * ((2 * g) * side) <= 2 * (one * side)) by (nonlinear_arith)
        requires
            one >= 1000000 * g,
            side > 0,
    ;
    assert(one * side >= 0) by (nonlinear_arith)
        requires
            one > 0,
            side > 0,
    ;
    lemma_cancel(32 * k, 31 * one, side);
}

/// What the thigh leans by, before it is divided.
pub(crate) open spec fn lean(target: FootTarget) -> Binary64 {
    difference(sum(square(target), length_square()), length_square())
}

/// What the lean of the thigh is divided by.
pub(crate) open spec fn thigh_side(target: FootTarget) -> Binary64 {
    product(product(Binary64 { bits: TWO }, reach(target)), Binary64 { bits: L1 })
}

/// The side of the thigh.
proof fn lemma_thigh_side(target: FootTarget)
    requires
        within_stride(target),
    ensures
        ({
            let one = one_in_units() as int;
            let g = grain() as int;
            let l = size(L1 as nat) as int;
            let r = reach(target).units();
            let side = thigh_side(target);
            &&& side.magnitude() <= ONE && !side.negative()
            &&& close(side.units() * one, 2 * (r * l), g * one)
            &&& one <= 20 * side.units()
            &&& 1024 * (square(target).units() + 2 * g) <= 991 * side.units()
        }),
{
    let one = one_in_units() as int;
    let g = grain() as int;
    let l = size(L1 as nat) as int;
    let r = reach(target).units();
    let length = Binary64 { bits: L1 };
    let twice = product(Binary64 { bits: TWO }, reach(target));
    let s = square(target).units();
    lemma_grain();
    lemma_limits();
    lemma_square(target);
    lemma_size_small();
    lemma_twice(reach(target));
    assert((2 * r) * l == 2 * (r * l)) by (nonlinear_arith);
    assert(2 * (2 * (r * l)) <= one * one) by (nonlinear_arith)
        requires
            0 <= 32 * r <= 13 * one,
            0 <= 1000 * l <= 214 * one,
    {
        assert((32 * r) * (1000 * l) <= (13 * one) * (214 * one));
    }
    lemma_small_product(twice, length);
    let e = thigh_side(target).units();
    assert(one <= 20 * e && 1024 * (s + 2 * g) <= 991 * e) by (nonlinear_arith)
        requires
            e * one >= 2 * (r * l) - g * one,
            s * one <= r * r + g * one,
            one <= 8 * r,
            32 * r <= 13 * one,
            212 * one <= 1000 * l,
            one == 0x20_0000_0000_0000 * g,
            g > 0,
    {
        assert((1000 * l - 212 * one) * r >= 0);
        assert(1000 * (r * l) >= 212 * (one * r));
        assert(8 * (one * r) >= one * one);
        assert((1000 * e) * one >= 424 * (one * r) - (1000 * g) * one);
        assert((8000 * e) * one >= (424 * one - 8000 * g) * one);
        assert(8000 * e >= 424 * one - 8000 * g);
        assert((13 * one - 32 * r) * r >= 0);
        assert(32 * (r * r) <= 13 * (one * r));
        assert((1000 * s) * one <= 1000 * (r * r) + (1000 * g) * one);
        // 991 e - 1024 s - 2048 g, a thousand times and with the factor one
        assert((991 * (1000 * e)) * one >= 420184 * (one * r) - (991000 * g) * one);
        assert((1024 * (1000 * s)) * one <= 416000 * (one * r) + (1024000 * g) * one);
        assert((991000 * e - 1024000 * s - 2048000 * g) * one >= 4184 * (one * r) - (4063000 * g) * one);
        assert(4184 * (one * r) >= 523 * (one * one));
        assert((991000 * e - 1024000 * s - 2048000 * g) * one >= (523 * one - 4063000 * g) * one);
        assert(991000 * e - 1024000 * s - 2048000 * g >= 523 * one - 4063000 * g);
    }
}

/// The cosine of the angle between the thigh and the line to the foot.
proof fn lemma_thigh(target: FootTarget)
    requires
        within_stride(target),
    ensures
        ({
            let one = one_in_units() as int;
            let g = grain() as int;
            let thigh = ik_terms_for(target).thigh;
            let side = thigh_side(target).units();
            &&& thigh.magnitude() <= ONE
            &&& close(32 * thigh.units(), 0, 31 * one)
            &&& close(thigh.units() * side, square(target).units() * one, (2 * g) * side + (2 * g) * one)
        }),
{
    let one = one_in_units() as int;
    let g = grain() as int;
    let ll = length_square();
    let side = thigh_side(target);
    let s = square(target);
    lemma_grain();
    lemma_square(target);
    lemma_square_range(target);
    lemma_lengths();
    lemma_thigh_side(target);
    lemma_opposite(ll);
    lemma_size_small();
    assert(one >= 1000000 * g) by (nonlinear_arith)
        requires
            one == 0x20_0000_0000_0000 * g,
            g > 0,
    ;
    lemma_small_sum(s, ll);
    let first = sum(s, ll);
    lemma_small_sum(first, opposite(ll));
    let n = lean(target);
    assert(close(1024 * n.units(), 0, 991 * side.units()));
    lemma_size_order(side.magnitude(), n.magnitude());
    lemma_small_quotient(n, side);
    let k = quotient(n, side);
    lemma_opposite(Binary64 { bits: ONE });
    assert(ik_terms_for(target).thigh == k);
    lemma_times_bound(n.units() - s.units(), one, 2 * g, one);
    assert((n.units() - s.units()) * one == n.units() * one - s.units() * one) by (nonlinear_arith);
    lemma_cosine_size(k.units(), n.units(), side.units(), one, g);
}

/// How far the reach moves with the foot, in numbers: `f` ahead and `d` down, `r` the reach
/// and `s` its square.
proof fn lemma_reach_moves(
    f: int,
    d: int,
    r: int,
    s: int,
    f2: int,
    d2: int,
    r2: int,
    s2: int,
    m: int,
    g: int,
    one: int,
)
    requires
        g > 0,
        one > 0,
        m >= 0,
        close(8 * f, 0, one),
        close(8 * f2, 0, one),
        0 <= 8 * d <= 3 * one,
        0 <= 8 * d2 <= 3 * one,
        one <= 8 * r,
        one <= 8 * r2,
        close(f, f2, m),
        close(d, d2, m),
        close(r * r, f * f + d * d, (4 * g) * one),
        close(r2 * r2, f2 * f2 + d2 * d2, (4 * g) * one),
        close(s * one, r * r, g * one),
        close(s2 * one, r2 * r2, g * one),
    ensures
        close(r, r2, 4 * m + 32 * g),
        close(s, s2, m + 10 * g),
{
    let p = (f - f2) * (f + f2);
    let q = (d - d2) * (d + d2);
    assert(f * f + d * d - (f2 * f2 + d2 * d2) == p + q) by (nonlinear_arith)
        requires
            p == (f - f2) * (f + f2),
            q == (d - d2) * (d + d2),
    ;
    lemma_times_bound(f - f2, 8 * (f + f2), m, 2 * one);
    lemma_times_bound(d - d2, 8 * (d + d2), m, 6 * one);
    assert((f - f2) * (8 * (f + f2)) == 8 * p && (d - d2) * (8 * (d + d2)) == 8 * q && m * (2 * one) == 2 * (m * one) && m
        * (6 * one) == 6 * (m * one)) by (nonlinear_arith)
        requires
            p == (f - f2) * (f + f2),
            q == (d - d2) * (d + d2),
    ;
    assert(close(p + q, 0, m * one));
    assert((4 * g) * one == 4 * (g * one)) by (nonlinear_arith);
    assert(close(r * r, r2 * r2, m * one + 8 * (g * one)));
    // the square
    assert((s - s2) * one == s * one - s2 * one && (m + 10 * g) * one == m * one + 10 * (g * one)) by (nonlinear_arith);
    lemma_cancel(s - s2, m + 10 * g, one);
    // the reach
    let e = r - r2;
    assert(e * (r + r2) == r * r - r2 * r2) by (nonlinear_arith)
        requires
            e == r - r2,
    ;
    assert(e <= 4 * m + 32 * g && e >= -(4 * m + 32 * g)) by (nonlinear_arith)
        requires
            e * (r + r2) <= m * one + 8 * (g * one),
            e * (r + r2) >= -(m * one + 8 * (g * one)),
            one <= 4 * (r + r2),
            one > 0,
            m >= 0,
            g > 0,
    {
        let k = r + r2;
        assert((m + 8 * g) * one == m * one + 8 * (g * one));
        assert((m + 8 * g) * one <= (m + 8 * g) * (4 * k));
        assert((m + 8 * g) * (4 * k) == (4 * m + 32 * g) * k);
        assert(e * k <= (4 * m + 32 * g) * k);
        assert(e * k >= -((4 * m + 32 * g) * k));
        assert(k > 0);
        assert((e - (4 * m + 32 * g)) * k <= 0);
        assert((e + (4 * m + 32 * g)) * k >= 0);
    }
}

/// How far a cosine moves with what it is divided from, in numbers.
proof fn lemma_knee_moves(k: int, k2: int, s: int, s2: int, ll: int, side: int, m: int, g: int, one: int)
    requires
        g > 0,
        one > 0,
        side > 0,
        m >= 0,
        one <= 12 * side,
        close(s, s2, m + 10 * g),
        close(k * side, (s - 2 * ll) * one, (2 * g) * side + (2 * g) * one),
        close(k2 * side, (s2 - 2 * ll) * one, (2 * g) * side + (2 * g) * one),
    ensures
        close(k, k2, 12 * m + 172 * g),
{
    assert((s - 2 * ll) * one - (s2 - 2 * ll) * one == (s - s2) * one && (k - k2) * side == k * side - k2 * side)
        by (nonlinear_arith);
    lemma_times_bound(s - s2, one, m + 10 * g, one);
    let x = (m + 10 * g) * one + (4 * g) * one + (4 * g) * side;
    assert((4 * g) * one == 2 * ((2 * g) * one) && (4 * g) * side == 2 * ((2 * g) * side)) by (nonlinear_arith);
    assert(x <= (12 * m + 172 * g) * side) by (nonlinear_arith)
        requires
            x == (m + 10 * g) * one + (4 * g) * one + (4 * g) * side,
            one <= 12 * side,
            m >= 0,
            g > 0,
    {
        assert((m + 14 * g) * one <= (m + 14 * g) * (12 * side));
    }
    lemma_cancel(k - k2, 12 * m + 172 * g, side);
}

/// How far the cosine at the thigh moves, in numbers.
proof fn lemma_thigh_moves(
    k: int,
    k2: int,
    s: int,
    s2: int,
    r: int,
    r2: int,
    e: int,
    e2: int,
    l: int,
    m: int,
    g: int,
    one: int,
)
    requires
        g > 0,
        one > 0,
        m >= 0,
        0 <= 1000 * l <= 214 * one,
        one <= 20 * e,
        one <= 20 * e2,
        e <= one,
        e2 <= one,
        close(k2, 0, one),
        close(s, s2, m + 10 * g),
        close(r, r2, 4 * m + 32 * g),
        close(e * one, 2 * (r * l), g * one),
        close(e2 * one, 2 * (r2 * l), g * one),
        close(k * e, s * one, (2 * g) * e + (2 * g) * one),
        close(k2 * e2, s2 * one, (2 * g) * e2 + (2 * g) * one),
    ensures
        close(k, k2, 60 * m + 680 * g),
{
    // the sides
    lemma_times_bound(r - r2, 1000 * l, 4 * m + 32 * g, 214 * one);
    assert((r - r2) * (1000 * l) == 1000 * (r * l) - 1000 * (r2 * l) && (e - e2) * one == e * one - e2 * one && (4 * m + 32
        * g) * (214 * one) == 214 * (4 * (m * one) + 32 * (g * one))) by (nonlinear_arith);
    assert((2 * m + 16 * g) * one == 2 * (m * one) + 16 * (g * one) && m * one >= 0 && g * one >= 0) by (nonlinear_arith)
        requires
            m >= 0,
            g > 0,
            one > 0,
    ;
    lemma_cancel(e - e2, 2 * m + 16 * g, one);
    // the cosines
    lemma_times_bound(k2, e2 - e, one, 2 * m + 16 * g);
    lemma_times_bound(s - s2, one, m + 10 * g, one);
    assert((k - k2) * e == k * e - k2 * e2 + k2 * (e2 - e) && (s - s2) * one == s * one - s2 * one) by (nonlinear_arith);
    assert((2 * g) * e <= (2 * g) * one && (2 * g) * e2 <= (2 * g) * one && (2 * g) * one == 2 * (g * one) && (m + 10 * g)
        * one == m * one + 10 * (g * one) && one * (2 * m + 16 * g) == 2 * (m * one) + 16 * (g * one)) by (nonlinear_arith)
        requires
            e <= one,
            e2 <= one,
            g > 0,
    ;
    assert(close((k - k2) * e, 0, 3 * (m * one) + 34 * (g * one)));
    assert(3 * (m * one) + 34 * (g * one) <= (60 * m + 680 * g) * e) by (nonlinear_arith)
        requires
            one <= 20 * e,
            m >= 0,
            g > 0,
    {
        assert((3 * m + 34 * g) * one <= (3 * m + 34 * g) * (20 * e));
    }
    lemma_cancel(k - k2, 60 * m + 680 * g, e);
}

/// Near feet have near cosines.
proof fn lemma_near_cosines(x: FootTarget, y: FootTarget, m: nat)
    requires
        within_stride(x),
        within_stride(y),
        close(x.forward.units(), y.forward.units(), m as int),
        close(x.down.units(), y.down.units(), m as int),
    ensures
        close(ik_terms_for(x).knee.units(), ik_terms_for(y).knee.units(), 12 * m + 172 * grain() as int),
        close(ik_terms_for(x).thigh.units(), ik_terms_for(y).thigh.units(), 60 * m + 680 * grain() as int),
{
    let one = one_in_units() as int;
    let g = grain() as int;
    lemma_grain();
    lemma_limits();
    lemma_square(x);
    lemma_square(y);
    lemma_lengths();
    lemma_knee(x);
    lemma_knee(y);
    lemma_thigh_side(x);
    lemma_thigh_side(y);
    lemma_thigh(x);
    lemma_thigh(y);
    let rx = reach(x).units();
    let ry = reach(y).units();
    let sx = square(x).units();
    let sy = square(y).units();
    lemma_reach_moves(
        x.forward.units(),
        x.down.units(),
        rx,
        sx,
        y.forward.units(),
        y.down.units(),
        ry,
        sy,
        m as int,
        g,
        one,
    );
    lemma_knee_moves(
        ik_terms_for(x).knee.units(),
        ik_terms_for(y).knee.units(),
        sx,
        sy,
        length_square().units(),
        knee_side().units(),
        m as int,
        g,
        one,
    );
    lemma_size_order(ONE as nat, thigh_side(x).magnitude());
    lemma_size_order(ONE as nat, thigh_side(y).magnitude());
    lemma_size_order(ONE as nat, ik_terms_for(y).thigh.magnitude());
    lemma_thigh_moves(
        ik_terms_for(x).thigh.units(),
        ik_terms_for(y).thigh.units(),
        sx,
        sy,
        rx,
        ry,
        thigh_side(x).units(),
        thigh_side(y).units(),
        size(L1 as nat) as int,
        m as int,
        g,
        one,
    );
}

/// Whether two poses are at most `limit` units apart, joint by joint; for legs on opposite
/// sides of the body the hip angles are compared with opposite signs.
pub open spec fn near_poses(
    p: (Binary64, Binary64, Binary64),
    q: (Binary64, Binary64, Binary64),
    same_side: bool,
    limit: int,
) -> bool {
    &&& close(p.0.units(), if same_side { q.0.units() } else { -q.0.units() }, limit)
    &&& close(p.1.units(), q.1.units(), limit)
    &&& close(p.2.units(), q.2.units(), limit)
}

/// The thigh angle is rounded by at most nine grains.
pub(crate) proof fn lemma_thigh_angle(ahead: Binary64, thigh: Binary64)
    requires
        ahead.magnitude() <= FOUR,
        thigh.magnitude() <= FOUR,
    ensures
        close(sum(opposite(ahead), thigh).units(), thigh.units() - ahead.units(), 9 * grain() as int),
{
    let z = one_in_units() as int;
    let g = grain() as int;
    let u = 2 * BINADE as int;
    lemma_grain();
    lemma2_to64();
    lemma_opposite(ahead);
    lemma_size_order(FOUR as nat, ahead.magnitude());
    lemma_size_order(FOUR as nat, thigh.magnitude());
    lemma_size_over(1024, 0x10_0000_0000_0000, 1021, 8, 0x80_0000_0000_0000);
    lemma_size_over(1026, 0x10_0000_0000_0000, 1021, 32, 0x200_0000_0000_0000);
    lemma_size_order(0x4030_0000_0000_0000, INFINITY as nat);
    assert(0x80_0000_0000_0000 * g == 4 * (0x20_0000_0000_0000 * g) && 0x200_0000_0000_0000 * g == 16 * (0x20_0000_0000_0000
        * g)) by (nonlinear_arith);
    lemma_sum_error(opposite(ahead), thigh);
    let e = sum(opposite(ahead), thigh).units() - (thigh.units() - ahead.units());
    assert(-(9 * g) <= e <= 9 * g) by (nonlinear_arith)
        requires
            -(8 * z + u) <= u * e <= 8 * z + u,
            z == u * g,
            u == 0x20_0000_0000_0000,
            g >= 0x1_0000_0000,
    {
        assert(u * e <= u * (8 * g + 1));
        assert(u * e >= -(u * (8 * g + 1)));
    }
}

/// The arguments of the arc functions for a foot in its stride.
proof fn lemma_stride_terms(x: FootTarget)
    requires
        within_stride(x),
        x.lateral.finite(),
    ensures
        !out_of_reach(x),
        ik_terms_of(x).hip == (x.lateral, x.down),
        ik_terms_of(x).ahead == (x.forward, x.down),
        points_ahead(ik_terms_of(x).hip),
        points_ahead(ik_terms_of(x).ahead),
        ik_terms_of(x).knee.magnitude() <= ALMOST_ONE,
        ik_terms_of(x).thigh.magnitude() <= ALMOST_ONE,
{
    let e = pow2(1021);
    lemma_in_reach(x);
    lemma_from_parts(x.down);
    lemma_knee(x);
    lemma_thigh(x);
    lemma_grain();
    lemma2_to64();
    lemma_size_over(1021, 0x1F_0000_0000_0000, 1021, 1, 0x1F_0000_0000_0000);
    assert(32 * (0x1F_0000_0000_0000 * e) == 31 * (0x20_0000_0000_0000 * e)) by (nonlinear_arith);
    lemma_size_order(ik_terms_for(x).knee.magnitude(), ALMOST_ONE as nat);
    lemma_size_order(ik_terms_for(x).thigh.magnitude(), ALMOST_ONE as nat);
}

/// Near feet have near joint angles, if the arc functions are such up to their errors.
pub proof fn law_near_feet_have_near_angles<A: Fn(Binary64, Binary64) -> Binary64, C: Fn(Binary64) -> Binary64>(
    atan2: A,
    acos: C,
    tangent_error: nat,
    cosine_error: nat,
    x: FootTarget,
    y: FootTarget,
    m: nat,
    p: (Binary64, Binary64, Binary64),
    q: (Binary64, Binary64, Binary64),
)
    requires
        is_like_an_arc_tangent(atan2, tangent_error),
        is_like_an_arc_cosine(acos, cosine_error),
        within_stride(x),
        within_stride(y),
        x.lateral.finite(),
        x.lateral == y.lateral || x.lateral == opposite(y.lateral),
        close(x.forward.units(), y.forward.units(), m as int),
        close(x.down.units(), y.down.units(), m as int),
        solves_ik(atan2, acos, x, p),
        solves_ik(atan2, acos, y, q),
    ensures
        near_poses(
            p,
            q,
            x.lateral == y.lateral,
            512 * m + 6144 * grain() + tangent_error + cosine_error as int,
        ),
{
    lemma_opposite(y.lateral);
    lemma_stride_terms(x);
    lemma_stride_terms(y);
    lemma_near_cosines(x, y, m);
    let tx = ik_terms_of(x);
    let ty = ik_terms_of(y);
    let (hx, ax, kx, cx) = choose|hip: Binary64, ahead: Binary64, knee: Binary64, thigh: Binary64|
        {
            &&& #[trigger] call_ensures(atan2, tx.hip, hip)
            &&& #[trigger] call_ensures(atan2, tx.ahead, ahead)
            &&& #[trigger] call_ensures(acos, (tx.knee,), knee)
            &&& #[trigger] call_ensures(acos, (tx.thigh,), thigh)
            &&& p == pose_of(hip, ahead, knee, thigh)
        };
    let (hy, ay, ky, cy) = choose|hip: Binary64, ahead: Binary64, knee: Binary64, thigh: Binary64|
        {
            &&& #[trigger] call_ensures(atan2, ty.hip, hip)
            &&& #[trigger] call_ensures(atan2, ty.ahead, ahead)
            &&& #[trigger] call_ensures(acos, (ty.knee,), knee)
            &&& #[trigger] call_ensures(acos, (ty.thigh,), thigh)
            &&& q == pose_of(hip, ahead, knee, thigh)
        };
    lemma_arc_tangents(atan2, tangent_error, tx.hip, ty.hip, hx, hy);
    lemma_arc_tangents(atan2, tangent_error, tx.ahead, ty.ahead, ax, ay);
    lemma_arc_cosines(acos, cosine_error, tx.knee, ty.knee, kx, ky);
    lemma_arc_cosines(acos, cosine_error, tx.thigh, ty.thigh, cx, cy);
    lemma_thigh_angle(ax, cx);
    lemma_thigh_angle(ay, cy);
    lemma_opposite(kx);
    lemma_opposite(ky);
}

/// At up to 1 m/s and 2 rad/s every foot position of the gait is within the stride.
proof fn lemma_walking_is_within_stride<S: Fn(Binary64) -> Binary64>(
    sin: S,
    error: nat,
    g: Gait,
    leg: Leg,
    place: Binary64,
    s: Binary64,
)
    requires
        is_like_a_sine(sin, error),
        g.vel_x.magnitude() <= UNITY,
        g.ang_z.magnitude() <= TWO,
        is_place(place),
        lifts_at(sin, place, s),
    ensures
        within_stride(foot_at(g, leg, place, s)),
        foot_at(g, leg, place, s).lateral == foot_aside(leg),
        foot_aside(leg).finite(),
{
    lemma_wave(place);
    lemma_stride(g, leg, off_middle(place));
    law_feet_are_mirrored();
    lemma_opposite(foot_aside(Leg::FL));
    lemma_opposite(foot_aside(Leg::RL));
    if !in_stance(place) {
        reveal(is_like_a_sine);
        lemma_angle(place);
        assert(call_ensures(sin, (swing_angle(place),), s));
        law_swing_lifts_the_foot(g, leg, place, s);
        lemma_lifted();
    }
}

/// How far feet are apart that walk at up to 1 m/s and 2 rad/s.
proof fn lemma_feet_apart(g: Gait, x: FootTarget, y: FootTarget, grains: nat, error: nat) -> (m: nat)
    requires
        g.vel_x.magnitude() <= UNITY,
        g.ang_z.magnitude() <= TWO,
        near_feet(g, x, y, grains, error),
        8 <= grains <= 16,
    ensures
        8 * m <= (8 * (grains + 3)) * grain() + error,
        close(x.forward.units(), y.forward.units(), m as int),
        close(x.down.units(), y.down.units(), m as int),
{
    let z = one_in_units() as int;
    let g1 = grain() as int;
    let u = 2 * BINADE as int;
    lemma_grain();
    lemma2_to64();
    lemma_size_order(UNITY as nat, g.vel_x.magnitude());
    lemma_size_order(TWO as nat, g.ang_z.magnitude());
    lemma_size_over(1023, 0x10_0000_0000_0000, 1021, 4, 0x40_0000_0000_0000);
    assert(0x40_0000_0000_0000 * g1 == 2 * (0x20_0000_0000_0000 * g1)) by (nonlinear_arith);
    assert(speed(g) <= 3 * z);
    let m = ((8 * (grains + 3)) * grain() + error) / 8;
    let d = x.forward.units() - y.forward.units();
    let k = grains as int;
    assert((8 * BINADE) * x.forward.units() - (8 * BINADE) * y.forward.units() == (4 * u) * d) by (nonlinear_arith)
        requires
            u == 2 * BINADE,
            d == x.forward.units() - y.forward.units(),
    ;
    assert(-((k + 3) * g1) <= d <= (k + 3) * g1) by (nonlinear_arith)
        requires
            -((k + 4) * speed(g)) <= (4 * u) * d <= (k + 4) * speed(g),
            0 <= speed(g) <= 3 * z,
            z == u * g1,
            u == 0x20_0000_0000_0000,
            g1 > 0,
            8 <= k,
    {
        assert((k + 4) * speed(g) <= (k + 4) * (3 * z));
        assert((k + 4) * (3 * z) == u * (3 * (k + 4) * g1));
        assert(u * (4 * d) <= u * (3 * (k + 4) * g1));
        assert(4 * d <= 3 * (k + 4) * g1);
        assert(u * (4 * d) >= -(u * (3 * (k + 4) * g1)));
        assert(4 * d >= -(3 * (k + 4) * g1));
        assert(3 * (k + 4) <= 4 * (k + 3));
        assert(3 * (k + 4) * g1 <= 4 * (k + 3) * g1);
    }
    assert((8 * (grains + 3)) * grain() == 8 * ((k + 3) * g1)) by (nonlinear_arith)
        requires
            k == grains,
            g1 == grain(),
    ;
    m
}

/// Half a cycle later each leg has the joint angles that the other leg of its side of the
/// body had, and, without turning, those that each leg of the other diagonal had, mirrored
/// where it is on the other side; up to 12288 parts in 2^53 of a radian and the errors of
/// the platform's functions.
pub proof fn law_half_a_cycle_swaps_the_angles<
    S: Fn(Binary64) -> Binary64,
    A: Fn(Binary64, Binary64) -> Binary64,
    C: Fn(Binary64) -> Binary64,
>(
    sin: S,
    atan2: A,
    acos: C,
    sine_error: nat,
    tangent_error: nat,
    cosine_error: nat,
    g: Gait,
    leg: Leg,
    other: Leg,
    later: (Binary64, Binary64, Binary64),
    before: (Binary64, Binary64, Binary64),
)
    requires
        is_like_a_sine(sin, sine_error),
        is_like_an_arc_tangent(atan2, tangent_error),
        is_like_an_arc_cosine(acos, cosine_error),
        g.vel_x.magnitude() <= UNITY,
        g.ang_z.magnitude() <= TWO,
        steps(g.vel_x, g.ang_z),
        within(g.freq, Binary64 { bits: MIN_FREQUENCY }, Binary64 { bits: MAX_FREQUENCY }),
        is_place(g.phase),
        phase_offset(leg) != phase_offset(other),
        lateral_sign(leg) == lateral_sign(other) || g.ang_z.is_zero(),
        poses_leg(sin, atan2, acos, Gait { phase: phase_after(g, half_cycle(g.freq)), ..g }, leg, later),
        poses_leg(sin, atan2, acos, g, other, before),
    ensures
        near_poses(
            later,
            before,
            lateral_sign(leg) == lateral_sign(other),
            12288 * grain() + 64 * sine_error + tangent_error + cosine_error as int,
        ),
{
    let half = Gait { phase: phase_after(g, half_cycle(g.freq)), ..g };
    let x = choose|target: FootTarget| #[trigger]
        places_foot(sin, half, leg, target) && solves_ik(atan2, acos, target, later);
    let y = choose|target: FootTarget| #[trigger]
        places_foot(sin, g, other, target) && solves_ik(atan2, acos, target, before);
    law_half_a_cycle_swaps_the_diagonals(g);
    law_half_a_cycle_swaps_the_feet(sin, sine_error, g, leg, other, x, y);
    lemma_angles_apart(sin, atan2, acos, sine_error, tangent_error, cosine_error, g, half, leg, other, x, y, later, before, 8);
    let unit = grain();
    assert((512 * (8 + 3) + 6144) * unit <= 12288 * unit) by (nonlinear_arith);
}

/// Two half cycles bring every leg back to the joint angles that it had, up to 16384 parts
/// in 2^53 of a radian and the errors of the platform's functions.
pub proof fn law_a_cycle_returns_the_angles<
    S: Fn(Binary64) -> Binary64,
    A: Fn(Binary64, Binary64) -> Binary64,
    C: Fn(Binary64) -> Binary64,
>(
    sin: S,
    atan2: A,
    acos: C,
    sine_error: nat,
    tangent_error: nat,
    cosine_error: nat,
    g: Gait,
    leg: Leg,
    later: (Binary64, Binary64, Binary64),
    before: (Binary64, Binary64, Binary64),
)
    requires
        is_like_a_sine(sin, sine_error),
        is_like_an_arc_tangent(atan2, tangent_error),
        is_like_an_arc_cosine(acos, cosine_error),
        g.vel_x.magnitude() <= UNITY,
        g.ang_z.magnitude() <= TWO,
        steps(g.vel_x, g.ang_z),
        within(g.freq, Binary64 { bits: MIN_FREQUENCY }, Binary64 { bits: MAX_FREQUENCY }),
        is_place(g.phase),
        ({
            let half = Gait { phase: phase_after(g, half_cycle(g.freq)), ..g };
            poses_leg(sin, atan2, acos, Gait { phase: phase_after(half, half_cycle(g.freq)), ..g }, leg, later)
        }),
        poses_leg(sin, atan2, acos, g, leg, before),
    ensures
        near_poses(later, before, true, 16384 * grain() + 64 * sine_error + tangent_error + cosine_error as int),
{
    let half = Gait { phase: phase_after(g, half_cycle(g.freq)), ..g };
    let full = Gait { phase: phase_after(half, half_cycle(g.freq)), ..g };
    let x = choose|target: FootTarget| #[trigger]
        places_foot(sin, full, leg, target) && solves_ik(atan2, acos, target, later);
    let y = choose|target: FootTarget| #[trigger]
        places_foot(sin, g, leg, target) && solves_ik(atan2, acos, target, before);
    law_a_cycle_returns(g);
    law_a_cycle_returns_the_feet(sin, sine_error, g, leg, x, y);
    lemma_angles_apart(sin, atan2, acos, sine_error, tangent_error, cosine_error, g, full, leg, leg, x, y, later, before, 16);
    let unit = grain();
    assert((512 * (16 + 3) + 6144) * unit <= 16384 * unit) by (nonlinear_arith);
}

/// From near feet to near angles.
proof fn lemma_angles_apart<
    S: Fn(Binary64) -> Binary64,
    A: Fn(Binary64, Binary64) -> Binary64,
    C: Fn(Binary64) -> Binary64,
>(
    sin: S,
    atan2: A,
    acos: C,
    sine_error: nat,
    tangent_error: nat,
    cosine_error: nat,
    g: Gait,
    moved: Gait,
    leg: Leg,
    other: Leg,
    x: FootTarget,
    y: FootTarget,
    p: (Binary64, Binary64, Binary64),
    q: (Binary64, Binary64, Binary64),
    grains: nat,
)
    requires
        is_like_a_sine(sin, sine_error),
        is_like_an_arc_tangent(atan2, tangent_error),
        is_like_an_arc_cosine(acos, cosine_error),
        g.vel_x.magnitude() <= UNITY,
        g.ang_z.magnitude() <= TWO,
        steps(g.vel_x, g.ang_z),
        moved.vel_x == g.vel_x,
        moved.ang_z == g.ang_z,
        is_place(g.phase),
        is_place(moved.phase),
        8 <= grains <= 16,
        places_foot(sin, moved, leg, x),
        places_foot(sin, g, other, y),
        near_feet(g, x, y, grains, sine_error),
        solves_ik(atan2, acos, x, p),
        solves_ik(atan2, acos, y, q),
    ensures
        near_poses(
            p,
            q,
            lateral_sign(leg) == lateral_sign(other),
            (512 * (grains + 3) + 6144) * grain() + 64 * sine_error + tangent_error + cosine_error as int,
        ),
{
    let s = lemma_foot_at_place(sin, moved, leg, x);
    let t = lemma_foot_at_place(sin, g, other, y);
    lemma_leg_place(moved.phase, leg);
    lemma_leg_place(g.phase, other);
    lemma_walking_is_within_stride(sin, sine_error, moved, leg, leg_phase(moved.phase, leg), s);
    lemma_walking_is_within_stride(sin, sine_error, g, other, leg_phase(g.phase, other), t);
    let m = lemma_feet_apart(g, x, y, grains, sine_error);
    law_feet_are_mirrored();
    lemma_opposite(foot_aside(Leg::FL));
    lemma_opposite(Binary64 { bits: UNITY });
    law_near_feet_have_near_angles(atan2, acos, tangent_error, cosine_error, x, y, m, p, q);
    let g1 = grain();
    assert(512 * m + 6144 * g1 <= (512 * (grains + 3) + 6144) * g1 + 64 * sine_error) by (nonlinear_arith)
        requires
            8 * m <= (8 * (grains + 3)) * g1 + sine_error,
    {
        assert(64 * (8 * m) <= 64 * ((8 * (grains + 3)) * g1 + sine_error));
        assert(64 * ((8 * (grains + 3)) * g1) == (512 * (grains + 3)) * g1);
        assert((512 * (grains + 3) + 6144) * g1 == (512 * (grains + 3)) * g1 + 6144 * g1);
    }
}

} // verus!
