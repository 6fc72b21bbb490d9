//! The knee bends twice as far as the thigh leans, thigh and calf being equally long.

use vstd::prelude::*;
use vstd::arithmetic::power2::{lemma2_to64, lemma_pow2_pos, pow2};
use crate::binary64::arithmetic::{difference, distance_from_zero, opposite, product, quotient, sum};
use crate::binary64::convert::one_in_units;
use crate::binary64::facts::{lemma_opposite, lemma_rank_keeps_order, lemma_rank_of_double, lemma_size_over, lemma_sum};
use crate::binary64::model::{lemma_size_order, lemma_size_small, size, Binary64};
use crate::binary64::nearness::{
    close, grain, lemma_cancel, lemma_grain, lemma_small_product, lemma_small_quotient, lemma_small_sum,
    lemma_times_bound, lemma_twice,
};
use crate::binary64::order::ONE;
use crate::gait::{
    ik_terms_for, ik_terms_of, max_reach, out_of_reach, pose_of, reach, solves_ik, FootTarget, L1, TWO,
    WORKSPACE_MARGIN,
};
use crate::gait::angles::{
    bend, knee_side, lean, lemma_lengths, lemma_limits, lemma_thigh_angle, length_square, square, thigh_side,
};
use crate::gait::symmetry::{backward, law_front_mirrors_back};
use crate::platform::{
    doubles_like_an_arc_cosine, is_function, is_function_of_two, is_odd, lemma_arc_cosine_doubles, FOUR,
};

verus! {

/// 107/256, above the longest usable reach.
pub(crate) const LONGEST: u64 = 0x3FDA_C000_0000_0000;

/// The longest usable reach is at most 107/256.
pub(crate) proof fn lemma_longest()
    ensures
        !max_reach().is_nan_spec(),
        max_reach().rank() <= LONGEST,
        256 * size(LONGEST as nat) == 107 * one_in_units(),
        101 * size(WORKSPACE_MARGIN as nat) >= one_in_units(),
{
    let l1 = Binary64 { bits: L1 };
    let both = Binary64 { bits: 0x3FDB_4395_8106_24DD };
    let margin = Binary64 { bits: WORKSPACE_MARGIN };
    let long = Binary64 { bits: LONGEST };
    lemma2_to64();
    lemma_grain();
    lemma_pow2_pos(1015);
    lemma_size_over(1019, 0x1B_4395_8106_24DD, 1015, 16, 0x1B4_3958_1062_4DD0);
    lemma_size_over(1020, 0x1B_4395_8106_24DD, 1015, 32, 0x368_72B0_20C4_9BA0);
    lemma_size_over(1015, 0x14_7AE1_47AE_147B, 1015, 1, 0x14_7AE1_47AE_147B);
    lemma_size_over(1020, 0x1A_C000_0000_0000, 1015, 32, 0x358_0000_0000_0000);
    lemma_size_over(1022, 0x10_0000_0000_0000, 1015, 128, 0x800_0000_0000_0000);
    let e = pow2(1015);
    lemma_opposite(margin);
    assert(0x1B4_3958_1062_4DD0 * e + 0x1B4_3958_1062_4DD0 * e == 0x368_72B0_20C4_9BA0 * e) by (nonlinear_arith);
    assert(0x368_72B0_20C4_9BA0 * e - 0x14_7AE1_47AE_147B * e <= 0x358_0000_0000_0000 * e && 256 * (0x358_0000_0000_0000 * e)
        == 107 * (0x800_0000_0000_0000 * e) && 101 * (0x14_7AE1_47AE_147B * e) >= 0x800_0000_0000_0000 * e) by (nonlinear_arith)
        requires
            e > 0,
    ;
    lemma_sum(l1, l1);
    lemma_rank_of_double(both);
    assert(sum(l1, l1) == both);
    let v = both.units() + opposite(margin).units();
    lemma_sum(both, opposite(margin));
    lemma_rank_keeps_order(v, long.units());
    lemma_rank_of_double(long);
}

/// The reach of a foot within reach, and its square.
pub(crate) proof fn lemma_usable(target: FootTarget)
    requires
        !reach(target).is_nan_spec(),
        !out_of_reach(target),
    ensures
        ({
            let one = one_in_units() as int;
            let g = grain() as int;
            let r = reach(target).units();
            let s = square(target).units();
            &&& reach(target).magnitude() <= LONGEST && !reach(target).negative()
            &&& one <= 101 * r && 256 * r <= 107 * one
            &&& square(target).magnitude() <= ONE && !square(target).negative()
            &&& close(s * one, r * r, g * one)
            &&& one <= 10202 * s && 1000 * s <= 175 * one
        }),
{
    let one = one_in_units() as int;
    let g = grain() as int;
    let r = reach(target).units();
    let s = square(target).units();
    lemma_grain();
    lemma_longest();
    lemma_size_small();
    lemma_size_order(LONGEST as nat, reach(target).magnitude());
    lemma_size_order(reach(target).magnitude(), WORKSPACE_MARGIN as nat);
    assert(65536 * (r * r) <= 11449 * (one * one) && 10201 * (r * r) >= one * one) by (nonlinear_arith)
        requires
            0 < one <= 101 * r,
            256 * r <= 107 * one,
    {
        assert((256 * r) * (256 * r) <= (107 * one) * (107 * one));
        assert((101 * r) * (101 * r) >= one * one);
    }
    lemma_small_product(reach(target), reach(target));
    assert(one <= 10202 * s && 1000 * s <= 175 * one) by (nonlinear_arith)
        requires
            s * one <= r * r + g * one,
            s * one >= r * r - g * one,
            65536 * (r * r) <= 11449 * (one * one),
            10201 * (r * r) >= one * one,
            one == 0x20_0000_0000_0000 * g,
            g > 0,
    {
        assert((65536 * s) * one <= (11449 * one + 65536 * g) * one);
        assert(65536 * s <= 11449 * one + 65536 * g);
        assert((10201 * s) * one >= (one - 10201 * g) * one);
        assert(10201 * s >= one - 10201 * g);
    }
}

/// The cosine of the knee's bend, and one more, times the knee's side.
pub(crate) proof fn lemma_knee_cosine(target: FootTarget)
    requires
        !reach(target).is_nan_spec(),
        !out_of_reach(target),
    ensures
        ({
            let one = one_in_units() as int;
            let g = grain() as int;
            let k = ik_terms_for(target).knee;
            let side = knee_side().units();
            &&& k.magnitude() <= ONE
            &&& close(1024 * k.units(), 0, 1023 * one)
            &&& close((k.units() + one) * side, square(target).units() * one, (6 * g) * one)
        }),
{
    let one = one_in_units() as int;
    let g = grain() as int;
    let ll = length_square();
    let side = knee_side();
    let s = square(target);
    lemma_grain();
    lemma_usable(target);
    lemma_lengths();
    lemma_opposite(ll);
    lemma_size_small();
    assert(one >= 1000000000000 * g) by (nonlinear_arith)
        requires
            one == 0x20_0000_0000_0000 * g,
            g > 0,
    ;
    lemma_small_sum(s, opposite(ll));
    let first = difference(s, ll);
    lemma_small_sum(first, opposite(ll));
    let n = bend(target);
    lemma_size_order(side.magnitude(), n.magnitude());
    lemma_small_quotient(n, side);
    let k = quotient(n, side);
    lemma_opposite(Binary64 { bits: ONE });
    assert(ik_terms_for(target).knee == k);
    lemma_knee_number(k.units(), n.units(), s.units(), ll.units(), side.units(), g, one);
}

/// The same in numbers.
proof fn lemma_knee_number(k: int, n: int, s: int, ll: int, d: int, g: int, one: int)
    requires
        g > 0,
        one >= 1000000000000 * g,
        one <= 10202 * s,
        1000 * s <= 175 * one,
        89 * one <= 1000 * d <= 92 * one,
        close(d, 2 * ll, 3 * g),
        close(n, s - 2 * ll, 2 * g),
        close(k * d, n * one, (2 * g) * d),
    ensures
        close(1024 * k, 0, 1023 * one),
        close((k + one) * d, s * one, (6 * g) * one),
{
    // n is s - d up to five grains
    lemma_times_bound(n - (s - d), one, 5 * g, one);
    assert((n - (s - d)) * one == n * one - s * one + one * d && (k + one) * d == k * d + one * d) by (nonlinear_arith);
    assert((2 * g) * d <= g * one && (6 * g) * one == 6 * (g * one) && (5 * g) * one == 5 * (g * one)) by (nonlinear_arith)
        requires
            2 * d <= one,
            g > 0,
    {
        assert((one - 2 * d) * g >= 0);
    }
    // the size
    let x = s * one;
    let y = one * d;
    let z = g * one;
    let w = one * one;
    assert(1000 * x <= 175 * w && 10202 * x >= w && 1000 * y <= 92 * w && 1000 * y >= 89 * w && 1000000000000 * z <= w)
        by (nonlinear_arith)
        requires
            x == s * one,
            y == one * d,
            z == g * one,
            w == one * one,
            one <= 10202 * s,
            1000 * s <= 175 * one,
            89 * one <= 1000 * d <= 92 * one,
            one >= 1000000000000 * g,
            one > 0,
    {
        assert((175 * one - 1000 * s) * one >= 0);
        assert((10202 * s - one) * one >= 0);
        assert((92 * one - 1000 * d) * one >= 0);
        assert((1000 * d - 89 * one) * one >= 0);
        assert((one - 1000000000000 * g) * one >= 0);
    }
    assert(w >= 0) by (nonlinear_arith)
        requires
            w == one * one,
    ;
    assert((1024 * k) * d == 1024 * ((k + one) * d) - 1024 * (one * d) && (1023 * one) * d == 1023 * (one * d))
        by (nonlinear_arith);
    lemma_cancel(1024 * k, 1023 * one, d);
}

/// The cosine of the thigh's angle times the thigh's side.
pub(crate) proof fn lemma_thigh_cosine(target: FootTarget)
    requires
        !reach(target).is_nan_spec(),
        !out_of_reach(target),
    ensures
        ({
            let one = one_in_units() as int;
            let g = grain() as int;
            let l = size(L1 as nat) as int;
            let r = reach(target).units();
            let t = ik_terms_for(target).thigh;
            let side = thigh_side(target).units();
            &&& t.magnitude() <= ONE
            &&& one <= 64 * t.units() && 1024 * t.units() <= 1023 * one
            &&& 0 < side && 2 * side <= one
            &&& close(side * one, 2 * (r * l), g * one)
            &&& close(t.units() * side, square(target).units() * one, (3 * g) * one)
        }),
{
    let one = one_in_units() as int;
    let g = grain() as int;
    let l = size(L1 as nat) as int;
    let r = reach(target).units();
    let length = Binary64 { bits: L1 };
    let twice = product(Binary64 { bits: TWO }, reach(target));
    let ll = length_square();
    let side = thigh_side(target);
    let s = square(target);
    lemma_grain();
    lemma_limits();
    lemma_usable(target);
    lemma_lengths();
    lemma_opposite(ll);
    lemma_size_small();
    lemma_twice(reach(target));
    assert((2 * r) * l == 2 * (r * l)) by (nonlinear_arith);
    assert(4 * (2 * (r * l)) <= one * one) by (nonlinear_arith)
        requires
            0 <= 256 * r <= 107 * one,
            0 <= 1000 * l <= 214 * one,
    {
        assert((256 * r) * (1000 * l) <= (107 * one) * (214 * one));
    }
    lemma_small_product(twice, length);
    assert(one >= 1000000000000 * g) by (nonlinear_arith)
        requires
            one == 0x20_0000_0000_0000 * g,
            g > 0,
    ;
    lemma_thigh_number(side.units(), s.units(), r, l, g, one);
    lemma_small_sum(s, ll);
    let first = sum(s, ll);
    lemma_small_sum(first, opposite(ll));
    let n = lean(target);
    lemma_size_order(side.magnitude(), n.magnitude());
    lemma_small_quotient(n, side);
    let t = quotient(n, side);
    lemma_opposite(Binary64 { bits: ONE });
    assert(ik_terms_for(target).thigh == t);
    lemma_lean_number(t.units(), n.units(), s.units(), side.units(), g, one);
}

/// The thigh's side in numbers.
proof fn lemma_thigh_number(e: int, s: int, r: int, l: int, g: int, one: int)
    requires
        g > 0,
        one >= 1000000000000 * g,
        one <= 101 * r,
        256 * r <= 107 * one,
        212 * one <= 1000 * l <= 214 * one,
        close(s * one, r * r, g * one),
        close(e * one, 2 * (r * l), g * one),
    ensures
        0 < e,
        2 * e <= one,
        1024 * (s + 2 * g) <= 1022 * e,
        63 * (s - 2 * g) >= e,
        240 * e >= one,
{
    let a = one * r;
    let b = g * one;
    let x = s * one;
    let y = e * one;
    let q = r * r;
    let p = r * l;
    assert(256 * q <= 107 * a && 101 * q >= a && 1000 * p <= 214 * a && 1000 * p >= 212 * a && 101 * a >= one * one
        && 256 * a <= 107 * (one * one) && 1000000000000 * b <= one * one && b > 0) by (nonlinear_arith)
        requires
            a == one * r,
            b == g * one,
            q == r * r,
            p == r * l,
            one <= 101 * r,
            256 * r <= 107 * one,
            212 * one <= 1000 * l <= 214 * one,
            one >= 1000000000000 * g,
            g > 0,
            one > 0,
            r > 0,
    {
        assert((107 * one - 256 * r) * r >= 0);
        assert((101 * r - one) * r >= 0);
        assert((214 * one - 1000 * l) * r >= 0);
        assert((1000 * l - 212 * one) * r >= 0);
        assert((101 * r - one) * one >= 0);
        assert((107 * one - 256 * r) * one >= 0);
        assert((one - 1000000000000 * g) * one >= 0);
    }
    assert(1024 * (x + 2 * b) <= 1022 * y);
    assert(63 * (x - 2 * b) >= y);
    assert(240 * y >= one * one);
    assert(2 * y <= one * one);
    assert(1024 * (s + 2 * g) <= 1022 * e && 63 * (s - 2 * g) >= e && 240 * e >= one && 2 * e <= one) by (nonlinear_arith)
        requires
            one > 0,
            x == s * one,
            y == e * one,
            b == g * one,
            1024 * (x + 2 * b) <= 1022 * y,
            63 * (x - 2 * b) >= y,
            240 * y >= one * one,
            2 * y <= one * one,
    {
        assert((1022 * e - 1024 * (s + 2 * g)) * one >= 0);
        assert((63 * (s - 2 * g) - e) * one >= 0);
        assert((240 * e - one) * one >= 0);
        assert((one - 2 * e) * one >= 0);
    }
}

/// The thigh's cosine in numbers.
proof fn lemma_lean_number(t: int, n: int, s: int, e: int, g: int, one: int)
    requires
        g > 0,
        one >= 1000000000000 * g,
        0 < e,
        2 * e <= one,
        1024 * (s + 2 * g) <= 1022 * e,
        63 * (s - 2 * g) >= e,
        close(n, s, 2 * g),
        close(t * e, n * one, (2 * g) * e),
    ensures
        one <= 64 * t,
        1024 * t <= 1023 * one,
        close(t * e, s * one, (3 * g) * one),
{
    lemma_times_bound(n - s, one, 2 * g, one);
    assert((n - s) * one == n * one - s * one && (2 * g) * one == 2 * (g * one) && (3 * g) * one == 3 * (g * one))
        by (nonlinear_arith);
    assert((2 * g) * e <= g * one) by (nonlinear_arith)
        requires
            2 * e <= one,
            g > 0,
    ;
    let x = t * e;
    let y = one * e;
    assert(1024 * (n * one) <= 1022 * y && 63 * (n * one) >= y && 10000 * ((2 * g) * e) <= y) by (nonlinear_arith)
        requires
            1024 * n <= 1022 * e,
            63 * n >= e,
            one >= 1000000000000 * g,
            y == one * e,
            one > 0,
            e > 0,
    {
        assert((1022 * e - 1024 * n) * one >= 0);
        assert((63 * n - e) * one >= 0);
        assert((one - 1000000000000 * g) * e >= 0);
    }
    assert(one <= 64 * t && 1024 * t <= 1023 * one) by (nonlinear_arith)
        requires
            64 * x >= y,
            1024 * x <= 1023 * y,
            x == t * e,
            y == one * e,
            e > 0,
    {
        assert((64 * t - one) * e >= 0);
        assert((1023 * one - 1024 * t) * e >= 0);
    }
}

/// The square of the thigh's side is twice the product of the knee's side and the square of
/// the reach, in numbers.
proof fn lemma_sides_number(s: int, d: int, e: int, r: int, l: int, g: int, one: int)
    requires
        g > 0,
        one >= 1000000000000 * g,
        0 <= s,
        1000 * s <= 175 * one,
        0 <= 1000 * d <= 92 * one,
        0 < e,
        2 * e <= one,
        close(d * one, 2 * (l * l), g * one),
        close(e * one, 2 * (r * l), g * one),
        close(s * one, r * r, g * one),
    ensures
        close(e * e, 2 * (s * d), 3 * (g * one)),
{
    let b = g * one;
    let w = one * one;
    let x = s * one;
    let y = d * one;
    let z = e * one;
    let p = 2 * (r * l);
    let q = r * r;
    let m = 2 * (l * l);
    assert(b > 0 && 1000000000000 * b <= w && 0 <= 1000 * x && 1000 * x <= 175 * w && 0 <= y && 1000 * y <= 92 * w && 0 <= z
        && 2 * z <= w) by (nonlinear_arith)
        requires
            b == g * one,
            w == one * one,
            x == s * one,
            y == d * one,
            z == e * one,
            g > 0,
            one >= 1000000000000 * g,
            0 <= s,
            1000 * s <= 175 * one,
            0 <= 1000 * d <= 92 * one,
            0 < e,
            2 * e <= one,
    {
        assert((one - 1000000000000 * g) * one >= 0);
        assert((175 * one - 1000 * s) * one >= 0);
        assert((92 * one - 1000 * d) * one >= 0);
        assert((one - 2 * e) * one >= 0);
    }
    lemma_times_bound(z - p, 2 * (z + p), b, 3 * w);
    assert((z - p) * (2 * (z + p)) == 2 * (z * z) - 2 * (p * p)) by (nonlinear_arith);
    assert(p * p == 2 * (q * m)) by (nonlinear_arith)
        requires
            p == 2 * (r * l),
            q == r * r,
            m == 2 * (l * l),
    ;
    assert(m >= 0) by (nonlinear_arith)
        requires
            m == 2 * (l * l),
    ;
    assert((q - x) * m + x * (m - y) == q * m - x * y) by (nonlinear_arith);
    lemma_times_bound(8 * (q - x), m, 8 * b, m);
    lemma_times_bound(x, 8 * (m - y), x, 8 * b);
    let i = b * m;
    let j = b * x;
    let bw = b * w;
    assert(8 * b * m == 8 * i && x * (8 * b) == 8 * j && (8 * (q - x)) * m == 8 * ((q - x) * m) && x * (8 * (m - y)) == 8 * (x
        * (m - y)) && b * (3 * w) == 3 * bw) by (nonlinear_arith)
        requires
            i == b * m,
            j == b * x,
            bw == b * w,
    ;
    assert(10 * i <= bw && 5 * j <= bw) by (nonlinear_arith)
        requires
            i == b * m,
            j == b * x,
            bw == b * w,
            b > 0,
            10 * m <= w,
            5 * x <= w,
    {
        assert((w - 10 * m) * b >= 0);
        assert((w - 5 * x) * b >= 0);
    }
    assert(close(z * z, 2 * (x * y), 3 * bw));
    let c = e * e - 2 * (s * d);
    assert(z * z == (e * e) * w) by (nonlinear_arith)
        requires
            z == e * one,
            w == one * one,
    ;
    assert(x * y == (s * d) * w) by (nonlinear_arith)
        requires
            x == s * one,
            y == d * one,
            w == one * one,
    ;
    let side_square = e * e;
    let half_of_it = s * d;
    assert(c * w == side_square * w - 2 * (half_of_it * w)) by (nonlinear_arith)
        requires
            c == side_square - 2 * half_of_it,
    ;
    assert(close(c * w, 0, (3 * b) * w)) by (nonlinear_arith)
        requires
            -(3 * bw) <= c * w <= 3 * bw,
            bw == b * w,
    ;
    lemma_cancel(c, 3 * b, w);
}

/// The square of the thigh's cosine is no larger than six times the square of the reach, in
/// numbers.
proof fn lemma_square_number(t: int, s: int, d: int, e: int, g: int, one: int)
    requires
        g > 0,
        one >= 1000000000000 * g,
        one <= 10202 * s,
        89 * one <= 1000 * d,
        0 < e,
        close(e * e, 2 * (s * d), 3 * (g * one)),
        close(t * e, s * one, 3 * (g * one)),
    ensures
        t * t <= 6 * (s * one),
        (t * t) * (e * e) == (t * e) * (t * e),
{
    let b = g * one;
    let x = s * one;
    let y = t * e;
    let f = e * e;
    let q = t * t;
    assert(q * f == y * y) by (nonlinear_arith)
        requires
            q == t * t,
            f == e * e,
            y == t * e,
    ;
    assert(1000 * (s * d) >= 89 * x && 1000000 * b <= x && x > 0 && b > 0) by (nonlinear_arith)
        requires
            x == s * one,
            b == g * one,
            89 * one <= 1000 * d,
            one <= 10202 * s,
            one >= 1000000000000 * g,
            g > 0,
    {
        assert((1000 * d - 89 * one) * s >= 0);
        assert((10202 * s - one) * one >= 0);
        assert((one - 1000000000000 * g) * one >= 0);
        assert(one * one > 0);
    }
    assert(100 * f >= 17 * x);
    assert(100 * (y * y) <= 101 * (x * x)) by (nonlinear_arith)
        requires
            -(x + 3 * b) <= y <= x + 3 * b,
            1000000 * b <= x,
            b > 0,
            x > 0,
    {
        let h = x + 3 * b;
        assert((h - y) * (h + y) >= 0);
        assert(1000 * h <= 1001 * x);
        assert((1001 * x - 1000 * h) * (1001 * x + 1000 * h) >= 0);
        assert(y * y <= h * h);
    }
    assert(q >= 0) by (nonlinear_arith)
        requires
            q == t * t,
    ;
    assert(q <= 6 * x) by (nonlinear_arith)
        requires
            q * f == y * y,
            100 * f >= 17 * x,
            100 * (y * y) <= 101 * (x * x),
            x > 0,
            q >= 0,
    {
        assert((100 * f - 17 * x) * q >= 0);
        assert(17 * (x * q) <= 101 * (x * x));
        assert(x * (17 * q) <= x * (101 * x));
        assert(17 * q <= 101 * x);
    }
}

/// Twice the square of the thigh's cosine is the knee's cosine and one, in numbers.
proof fn lemma_double_number(k: int, t: int, s: int, d: int, e: int, g: int, one: int)
    requires
        g > 0,
        one >= 1000000000000 * g,
        one <= 10202 * s,
        89 * one <= 1000 * d,
        0 < e,
        close(e * e, 2 * (s * d), 3 * (g * one)),
        close(t * e, s * one, 3 * (g * one)),
        close((k + one) * d, s * one, 6 * (g * one)),
    ensures
        close(2 * (t * t), (k + one) * one, 352 * (g * one)),
{
    let b = g * one;
    let x = s * one;
    let y = t * e;
    let f = e * e;
    let q = t * t;
    lemma_square_number(t, s, d, e, g, one);
    assert(q >= 0 && x > 0 && b > 0 && 1000000 * b <= x) by (nonlinear_arith)
        requires
            q == t * t,
            x == s * one,
            b == g * one,
            one <= 10202 * s,
            one >= 1000000000000 * g,
            g > 0,
    {
        assert((10202 * s - one) * one >= 0);
        assert((one - 1000000000000 * g) * one >= 0);
        assert(one * one > 0);
    }
    // 2 s d q is x squared, nearly
    let bx = b * x;
    lemma_times_bound(y - x, y + x, 3 * b, 2 * x + 3 * b);
    assert((y - x) * (y + x) == y * y - x * x) by (nonlinear_arith);
    assert((3 * b) * (2 * x + 3 * b) <= 7 * bx) by (nonlinear_arith)
        requires
            bx == b * x,
            1000000 * b <= x,
            b > 0,
    {
        assert((x - 1000000 * b) * b >= 0);
    }
    lemma_times_bound(q, f - 2 * (s * d), 6 * x, 3 * b);
    assert(q * (f - 2 * (s * d)) == q * f - 2 * (s * d) * q && (6 * x) * (3 * b) == 18 * bx) by (nonlinear_arith)
        requires
            bx == b * x,
    ;
    let v = 2 * (s * d) * q;
    assert(close(v, x * x, 25 * bx));
    // one factor less
    let h = 2 * (d * q);
    assert(v == h * s && x * x == (x * one) * s && bx == (b * one) * s) by (nonlinear_arith)
        requires
            v == 2 * (s * d) * q,
            h == 2 * (d * q),
            x == s * one,
            bx == b * x,
    ;
    assert((h - x * one) * s == h * s - (x * one) * s && (25 * (b * one)) * s == 25 * ((b * one) * s)) by (nonlinear_arith);
    lemma_cancel(h - x * one, 25 * (b * one), s);
    // and the knee's side less
    let i = (k + one) * d;
    lemma_times_bound(i - x, one, 6 * b, one);
    assert((i - x) * one == i * one - x * one && (6 * b) * one == 6 * (b * one)) by (nonlinear_arith);
    let c = 2 * q - (k + one) * one;
    assert(c * d == h - i * one) by (nonlinear_arith)
        requires
            c == 2 * q - (k + one) * one,
            h == 2 * (d * q),
            i == (k + one) * d,
    ;
    assert(31 * (b * one) <= (352 * b) * d) by (nonlinear_arith)
        requires
            31 * one <= 352 * d,
            b > 0,
    {
        assert((352 * d - 31 * one) * b >= 0);
    }
    lemma_cancel(c, 352 * b, d);
}

/// Twice the square of the cosine at the thigh is the cosine of the knee's bend and one, up
/// to 352 parts in 2^53: the knee bends twice as far as the thigh leans.
pub proof fn law_knee_bends_twice(target: FootTarget)
    requires
        !reach(target).is_nan_spec(),
        !out_of_reach(target),
    ensures
        ({
            let one = one_in_units() as int;
            let knee = ik_terms_of(target).knee.units();
            let thigh = ik_terms_of(target).thigh.units();
            &&& close(1024 * knee, 0, 1023 * one)
            &&& one <= 64 * thigh && 1024 * thigh <= 1023 * one
            &&& close(2 * (thigh * thigh), (knee + one) * one, (352 * (grain() * one_in_units())) as int)
        }),
{
    let one = one_in_units() as int;
    let g = grain() as int;
    let l = size(L1 as nat) as int;
    let r = reach(target).units();
    let s = square(target).units();
    let d = knee_side().units();
    let e = thigh_side(target).units();
    let k = ik_terms_for(target).knee.units();
    let t = ik_terms_for(target).thigh.units();
    lemma_grain();
    lemma_usable(target);
    lemma_lengths();
    lemma_knee_cosine(target);
    lemma_thigh_cosine(target);
    assert(one >= 1000000000000 * g) by (nonlinear_arith)
        requires
            one == 0x20_0000_0000_0000 * g,
            g > 0,
    ;
    assert((3 * g) * one == 3 * (g * one) && (6 * g) * one == 6 * (g * one)) by (nonlinear_arith);
    lemma_sides_number(s, d, e, r, l, g, one);
    lemma_double_number(k, t, s, d, e, g, one);
}

/// The thigh angles of a foot and of its mirror image front to back add up to what the knee
/// bends by, up to 12288 parts in 2^53 of a radian and the errors of the arc cosine, if the
/// arc cosine doubles as an arc cosine does and the arc tangent is odd.
pub proof fn law_mirrored_thighs_make_the_knee<A: Fn(Binary64, Binary64) -> Binary64, C: Fn(Binary64) -> Binary64>(
    atan2: A,
    acos: C,
    error: nat,
    target: FootTarget,
    pose: (Binary64, Binary64, Binary64),
    mirrored: (Binary64, Binary64, Binary64),
)
    requires
        !reach(target).is_nan_spec(),
        !out_of_reach(target),
        is_function_of_two(atan2),
        is_odd(atan2),
        is_function(acos),
        doubles_like_an_arc_cosine(acos, error),
        forall|a: Binary64| #[trigger] call_ensures(atan2, ik_terms_of(target).ahead, a) ==> a.magnitude() <= FOUR,
        solves_ik(atan2, acos, target, pose),
        solves_ik(atan2, acos, backward(target), mirrored),
    ensures
        mirrored.0 == pose.0,
        mirrored.2 == pose.2,
        close(pose.1.units() + mirrored.1.units(), -pose.2.units(), 12288 * grain() + error as int),
{
    let terms = ik_terms_of(target);
    let one = one_in_units() as int;
    let g = grain() as int;
    law_front_mirrors_back(atan2, acos, target, pose, mirrored);
    law_knee_bends_twice(target);
    let (hip, ahead, knee, thigh) = choose|hip: Binary64, ahead: Binary64, knee: Binary64, thigh: Binary64|
        {
            &&& #[trigger] call_ensures(atan2, terms.hip, hip)
            &&& #[trigger] call_ensures(atan2, terms.ahead, ahead)
            &&& #[trigger] call_ensures(acos, (terms.knee,), knee)
            &&& #[trigger] call_ensures(acos, (terms.thigh,), thigh)
            &&& pose == pose_of(hip, ahead, knee, thigh)
        };
    assert(mirrored.1 == sum(ahead, thigh));
    lemma_arc_cosine_doubles(acos, error, terms.knee, terms.thigh, knee, thigh);
    lemma_opposite(ahead);
    lemma_opposite(knee);
    lemma_thigh_angle(ahead, thigh);
    lemma_thigh_angle(opposite(ahead), thigh);
    lemma_grain();
    let a = knee.units() - 2 * thigh.units();
    let x = distance_from_zero(2 * (terms.thigh.units() * terms.thigh.units()) - (terms.knee.units() + one) * one) as int;
    assert(-(11264 * g + error) <= a <= 11264 * g + error) by (nonlinear_arith)
        requires
            distance_from_zero(a) * one <= 32 * x + error * one,
            x <= 352 * (g * one),
            one > 0,
    {
        assert(32 * (352 * (g * one)) == (11264 * g) * one);
        assert((11264 * g + error - distance_from_zero(a)) * one >= 0);
    }
    assert(11264 * g + 18 * g <= 12288 * g) by (nonlinear_arith)
        requires
            g > 0,
    ;
}

} // verus!
