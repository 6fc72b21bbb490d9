//! Half a cycle swaps the roles of the diagonals.

use vstd::prelude::*;
use vstd::arithmetic::power2::{lemma2_to64, lemma2_to64_rest, lemma_pow2_adds, pow2};
use crate::binary64::arithmetic::{lemma_nearest_zero, lemma_size_positive, product, quotient, sum};
use crate::binary64::convert::{fraction, one_in_units};
use crate::binary64::facts::{
    at_most, lemma_fraction, lemma_nearest_keeps, lemma_product, lemma_quotient, lemma_relative_error,
    lemma_rounding_error, lemma_size_of_one, lemma_size_over, lemma_sum, lemma_sum_with_zero, within,
};
use crate::binary64::model::{
    exponent, lemma_nearest_exists, lemma_parts, lemma_size_of, lemma_size_order, nearest, significand, size, Binary64,
    BINADE, INFINITY,
};
use crate::binary64::nearness::{grain, lemma_grain};
use crate::binary64::order::{less, ONE};
use crate::gait::{leg_phase, phase_after, steps, Gait, Leg, HALF, MAX_FREQUENCY, MIN_FREQUENCY, TWO, UNITY};
use crate::gait::laws::lemma_fraction_below_one;
use crate::geometry::zero;

verus! {

/// Whether two places in a cycle are at most some grains of 2^-53 apart, the end of the
/// cycle being its start.
pub open spec fn near(a: Binary64, b: Binary64, grains: nat) -> bool {
    let apart = a.units() - b.units();
    let limit = grains * grain();
    ||| -limit <= apart <= limit
    ||| apart >= one_in_units() - limit
    ||| apart <= limit - one_in_units()
}

/// Whether a number is a place in the cycle.
pub open spec fn is_place(a: Binary64) -> bool {
    at_most(zero(), a) && less(a, Binary64 { bits: UNITY })
}

/// The time in which half of a cycle passes.
pub open spec fn half_cycle(freq: Binary64) -> Binary64 {
    quotient(Binary64 { bits: UNITY }, product(Binary64 { bits: TWO }, freq))
}

/// A sum of two places is rounded by at most two grains.
pub(crate) proof fn lemma_place_sum(a: Binary64, b: Binary64)
    requires
        a.finite() && !a.negative() || a.is_zero(),
        b.finite() && !b.negative(),
        a.units() + b.units() < (2 * BINADE + BINADE + BINADE / 2) * grain(),
    ensures
        sum(a, b).finite(),
        !sum(a, b).negative(),
        a.units() + b.units() - 2 * grain() <= sum(a, b).units() <= a.units() + b.units() + 2 * grain(),
{
    let v = a.units() + b.units();
    let q = grain();
    lemma_grain();
    crate::binary64::model::lemma_size_small();
    lemma2_to64();
    lemma_size_over(1023, 0x10_0000_0000_0000, 1021, 4, 0x40_0000_0000_0000);
    lemma_size_order(TWO as nat, INFINITY as nat);
    lemma_sum(a, b);
    let n = v as nat;
    assert(v + 2 * q < size(TWO as nat)) by (nonlinear_arith)
        requires
            v < 0x38_0000_0000_0000 * q,
            size(TWO as nat) == 0x40_0000_0000_0000 * q,
            q > 0,
    ;
    assert(size(INFINITY as nat) * 1 == size(INFINITY as nat));
    let p = nearest(n, 1);
    lemma_nearest_exists(n, 1);
    lemma_rounding_error(n, 1);
    assert(size(p) * 1 == size(p));
    let u = 2 * BINADE as int;
    assert(v - 2 * q <= size(p) <= v + 2 * q) by (nonlinear_arith)
        requires
            u * size(p) <= u * v + v + u,
            u * v <= u * size(p) + v + u,
            v < (u + u / 2 + u / 4) * q,
            q >= 0x1_0000_0000,
            u == 2 * 0x10_0000_0000_0000,
    {
        assert(v + u <= u * (2 * q));
    }
    lemma_size_order(p, TWO as nat);
    if v == 0 {
        lemma_nearest_zero(1);
    } else {
        assert(sum(a, b).magnitude() == p);
    }
}

/// What is left of a number below two cycles once whole cycles are taken off.
pub(crate) proof fn lemma_wrapped(s: Binary64)
    requires
        s.finite(),
        !s.negative(),
        s.units() < 2 * one_in_units(),
    ensures
        is_place(fraction(s)),
        fraction(s).finite(),
        !fraction(s).negative(),
        fraction(s).units() == s.units() || fraction(s).units() == s.units() - one_in_units(),
        0 <= fraction(s).units() < one_in_units(),
{
    let one = one_in_units();
    let n = size(s.magnitude());
    lemma_size_of_one();
    lemma_fraction(s);
    lemma_size_order(fraction(s).magnitude(), ONE as nat);
    if n < one {
        vstd::arithmetic::div_mod::lemma_small_mod(n, one);
    } else {
        let rest = (n - one) as nat;
        vstd::arithmetic::div_mod::lemma_small_mod(rest, one);
        vstd::arithmetic::div_mod::lemma_mod_add_multiples_vanish(rest as int, one as int);
    }
}

/// Doubling a frequency is exact.
proof fn lemma_doubled(freq: Binary64)
    requires
        within(freq, Binary64 { bits: MIN_FREQUENCY }, Binary64 { bits: MAX_FREQUENCY }),
    ensures
        ({
            let d = product(Binary64 { bits: TWO }, freq);
            &&& d.finite() && !d.negative()
            &&& size(d.magnitude()) == 2 * size(freq.magnitude())
        }),
{
    let p = freq.magnitude();
    let e = exponent(p);
    let s = significand(p);
    let one = one_in_units();
    lemma_parts(p);
    lemma_size_of_one();
    lemma2_to64();
    lemma2_to64_rest();
    lemma_pow2_adds(1, e);
    lemma_size_of(e + 1, s);
    lemma_size_over(1023, 0x10_0000_0000_0000, 1022, 2, 0x20_0000_0000_0000);
    lemma_size_over(1022, 0x10_0000_0000_0000, 1022, 1, 0x10_0000_0000_0000);
    let q = p + BINADE as nat;
    assert(q == (e + 1) * BINADE as nat + s) by (nonlinear_arith)
        requires
            p == e * BINADE + s,
            q == p + BINADE,
    ;
    assert(size(q) == 2 * size(p)) by (nonlinear_arith)
        requires
            size(q) == s * pow2(e + 1),
            size(p) == s * pow2(e),
            pow2(e + 1) == 2 * pow2(e),
    ;
    let t = pow2(1022);
    assert(0x20_0000_0000_0000 * t == 2 * (0x10_0000_0000_0000 * t)) by (nonlinear_arith);
    assert(size(TWO as nat) == 2 * one);
    assert(size(TWO as nat) * size(p) == size(q) * one) by (nonlinear_arith)
        requires
            size(TWO as nat) == 2 * one,
            size(q) == 2 * size(p),
    ;
    lemma_product(Binary64 { bits: TWO }, freq);
    lemma_nearest_keeps(q, one);
}

/// In the time of half a cycle the phase advances by one half, up to two grains.
proof fn lemma_half_advance(freq: Binary64)
    requires
        within(freq, Binary64 { bits: MIN_FREQUENCY }, Binary64 { bits: MAX_FREQUENCY }),
    ensures
        ({
            let p = product(freq, half_cycle(freq));
            &&& p.finite() && !p.negative()
            &&& (BINADE - 2) * grain() <= p.units() <= (BINADE + 2) * grain()
        }),
{
    let one = one_in_units();
    let u = 2 * BINADE as int;
    let g = grain();
    let f = size(freq.magnitude());
    let two_f = product(Binary64 { bits: TWO }, freq);
    lemma_grain();
    lemma_doubled(freq);
    lemma2_to64();
    lemma_size_over(1024, 0x10_0000_0000_0000, 1021, 8, 0x80_0000_0000_0000);
    lemma_size_order(freq.magnitude(), ONE as nat);
    lemma_size_order(MAX_FREQUENCY as nat, freq.magnitude());
    assert(one <= f && f <= 4 * one) by (nonlinear_arith)
        requires
            one <= f,
            f <= 0x80_0000_0000_0000 * g,
            one == 0x20_0000_0000_0000 * g,
    ;
    lemma_size_positive(two_f.magnitude());
    // the time
    let h = half_cycle(freq);
    let hs = size(h.magnitude());
    let d = 2 * f;
    let n = one * one;
    lemma_quotient(Binary64 { bits: UNITY }, two_f);
    lemma_size_order(0x4020_0000_0000_0000, INFINITY as nat);
    lemma_size_over(1025, 0x10_0000_0000_0000, 1021, 16, 0x100_0000_0000_0000);
    assert(size(INFINITY as nat) > 4 * one && size(INFINITY as nat) > one) by (nonlinear_arith)
        requires
            size(INFINITY as nat) > 0x100_0000_0000_0000 * g,
            one == 0x20_0000_0000_0000 * g,
            g > 0,
    ;
    assert(BINADE * d <= n && n < size(INFINITY as nat) * d) by (nonlinear_arith)
        requires
            n == one * one,
            d == 2 * f,
            one <= f <= 4 * one,
            one == 0x20_0000_0000_0000 * g,
            g >= 0x1_0000_0000,
            size(INFINITY as nat) > one,
            BINADE == 0x10_0000_0000_0000,
    {
        assert(one >= 8 * BINADE);
        assert(n >= (8 * BINADE) * one);
        assert(BINADE * d <= BINADE * (8 * one));
        assert(size(INFINITY as nat) * d >= one * d);
        assert(one * d >= one * (2 * one));
    }
    lemma_relative_error(n, d);
    assert(hs == size(nearest(n, d)));
    // h is at most 1
    assert(hs <= one) by (nonlinear_arith)
        requires
            u * (hs * d) <= u * n + n,
            n == one * one,
            d >= 2 * one,
            u >= 1,
            one > 0,
    {
        assert(u * (hs * d) >= u * (hs * (2 * one)));
        assert((u * hs) * (2 * one) <= (u * one + one) * one);
        assert(2 * (u * hs) <= u * one + one);
        assert(2 * (u * hs) <= 2 * (u * one));
    }
    lemma_size_order(INFINITY as nat, h.magnitude());
    assert(h.finite());
    // the advance
    let m = f * hs;
    lemma_product(freq, h);
    let ps = size(nearest(m, one));
    assert(hs >= BINADE && BINADE * one <= m && m < size(INFINITY as nat) * one) by (nonlinear_arith)
        requires
            u * n <= u * (hs * d) + n,
            n == one * one,
            d <= 8 * one,
            m == f * hs,
            f >= one,
            f <= 4 * one,
            hs <= one,
            u == 0x20_0000_0000_0000,
            one == 0x20_0000_0000_0000 * g,
            g >= 0x1_0000_0000,
            size(INFINITY as nat) > 4 * one,
            BINADE == 0x10_0000_0000_0000,
    {
        assert(u * (hs * d) <= u * (hs * (8 * one)));
        assert((u - 1) * (one * one) <= (u * (8 * hs)) * one);
        assert((u - 1) * one <= u * (8 * hs));
        assert(one >= 16 * BINADE);
        assert(hs >= BINADE);
        assert(m >= one * hs);
        assert(m <= (4 * one) * one);
    }
    lemma_relative_error(m, one);
    lemma_advance(ps as int, hs as int, f as int, one as int, u, g as int);
}

/// The size of an advance, from the errors of its two roundings.
proof fn lemma_advance(ps: int, hs: int, f: int, one: int, u: int, g: int)
    requires
        u == 0x20_0000_0000_0000,
        one == u * g,
        g > 0,
        f > 0,
        hs >= 0,
        u * (hs * (2 * f)) <= u * (one * one) + one * one,
        u * (one * one) <= u * (hs * (2 * f)) + one * one,
        u * (ps * one) <= u * (f * hs) + f * hs,
        u * (f * hs) <= u * (ps * one) + f * hs,
    ensures
        (u / 2 - 2) * g <= ps <= (u / 2 + 2) * g,
{
    let m = f * hs;
    let o = one * one;
    assert(hs * (2 * f) == 2 * m) by (nonlinear_arith)
        requires
            m == f * hs,
    ;
    assert(2 * u * m <= u * o + o && u * o <= 2 * u * m + o);
    assert(m <= o) by (nonlinear_arith)
        requires
            2 * u * m <= u * o + o,
            u >= 1,
            o >= 0,
    ;
    assert(o >= 0) by (nonlinear_arith)
        requires
            o == one * one,
    ;
    let w = ps * one;
    // 2 u w lies within 3 o of u o
    assert(2 * u * w <= u * o + 3 * o && u * o <= 2 * u * w + 3 * o);
    assert(2 * u * ps <= u * one + 3 * one && u * one <= 2 * u * ps + 3 * one) by (nonlinear_arith)
        requires
            2 * u * w <= u * o + 3 * o,
            u * o <= 2 * u * w + 3 * o,
            w == ps * one,
            o == one * one,
            one > 0,
    {
        assert((2 * u * ps) * one <= (u * one + 3 * one) * one);
        assert((u * one) * one <= (2 * u * ps + 3 * one) * one);
    }
    assert((u / 2 - 2) * g <= ps <= (u / 2 + 2) * g) by (nonlinear_arith)
        requires
            2 * u * ps <= u * one + 3 * one,
            u * one <= 2 * u * ps + 3 * one,
            one == u * g,
            u == 0x20_0000_0000_0000,
            g > 0,
    {
        assert(2 * u * ps <= u * (u * g + 3 * g));
        assert(2 * ps <= u * g + 3 * g);
        assert(u * (u * g) <= u * (2 * ps + 3 * g));
        assert(u * g <= 2 * ps + 3 * g);
    }
}

/// The place of a leg whose offset is half a cycle.
pub(crate) proof fn lemma_half_ahead(place: Binary64)
    requires
        is_place(place),
    ensures
        ({
            let ahead = leg_phase(place, Leg::FR);
            let v = place.units() + BINADE * grain();
            &&& is_place(ahead)
            &&& ahead.finite()
            &&& 0 <= ahead.units() < one_in_units()
            &&& {
                ||| v - 2 * grain() <= ahead.units() <= v + 2 * grain()
                ||| v - 2 * grain() <= ahead.units() + one_in_units() <= v + 2 * grain()
            }
        }),
{
    let half = Binary64 { bits: HALF };
    let g = grain();
    lemma_grain();
    lemma_place_units(place);
    assert(place.units() + half.units() < 0x38_0000_0000_0000 * g && place.units() + half.units() + 2 * g < 2
        * one_in_units()) by (nonlinear_arith)
        requires
            place.units() < one_in_units(),
            half.units() == 0x10_0000_0000_0000 * g,
            one_in_units() == 0x20_0000_0000_0000 * g,
            g > 0,
    ;
    lemma_place_sum(place, half);
    lemma_wrapped(sum(place, half));
}

/// A place is less than a cycle.
pub(crate) proof fn lemma_place_units(place: Binary64)
    requires
        is_place(place),
    ensures
        place.finite(),
        0 <= place.units() < one_in_units(),
        place.negative() ==> place.is_zero(),
{
    lemma_size_of_one();
    crate::binary64::model::lemma_size_small();
    lemma_size_order(place.magnitude(), ONE as nat);
}

/// The place of a leg whose offset is zero.
pub(crate) proof fn lemma_no_offset(place: Binary64)
    requires
        is_place(place),
    ensures
        leg_phase(place, Leg::FL).units() == place.units(),
        is_place(leg_phase(place, Leg::FL)),
{
    lemma_place_units(place);
    lemma_sum_with_zero(place, zero());
    let now = sum(place, zero());
    lemma_fraction_below_one(now);
    crate::binary64::model::lemma_size_small();
    crate::binary64::facts::lemma_units_order(fraction(now), place);
    crate::binary64::facts::lemma_units_order(place, fraction(now));
}

/// Half a cycle later each diagonal is where the other one was, up to eight grains of
/// 2^-53 of a cycle.
pub proof fn law_half_a_cycle_swaps_the_diagonals(g: Gait)
    requires
        steps(g.vel_x, g.ang_z),
        within(g.freq, Binary64 { bits: MIN_FREQUENCY }, Binary64 { bits: MAX_FREQUENCY }),
        is_place(g.phase),
    ensures
        ({
            let later = phase_after(g, half_cycle(g.freq));
            &&& is_place(later)
            &&& near(leg_phase(later, Leg::FL), leg_phase(g.phase, Leg::FR), 8)
            &&& near(leg_phase(later, Leg::FR), leg_phase(g.phase, Leg::FL), 8)
            &&& near(leg_phase(later, Leg::RR), leg_phase(g.phase, Leg::RL), 8)
            &&& near(leg_phase(later, Leg::RL), leg_phase(g.phase, Leg::RR), 8)
        }),
{
    let q = grain();
    let one = one_in_units();
    let advance = product(g.freq, half_cycle(g.freq));
    let moved = sum(g.phase, advance);
    lemma_grain();
    lemma_place_units(g.phase);
    lemma_half_advance(g.freq);
    assert(g.phase.units() + advance.units() < 0x38_0000_0000_0000 * q && g.phase.units() + advance.units() + 2 * q < 2
        * one) by (nonlinear_arith)
        requires
            g.phase.units() < one,
            advance.units() <= (0x10_0000_0000_0000 + 2) * q,
            one == 0x20_0000_0000_0000 * q,
            q > 0,
    ;
    lemma_place_sum(g.phase, advance);
    lemma_wrapped(moved);
    let later = phase_after(g, half_cycle(g.freq));
    lemma_half_ahead(g.phase);
    lemma_half_ahead(later);
    lemma_no_offset(g.phase);
    lemma_no_offset(later);
    let h = BINADE * q;
    assert((BINADE - 2) * q == h - 2 * q && (BINADE + 2) * q == h + 2 * q && 2 * h == one && q >= 0) by (nonlinear_arith)
        requires
            h == BINADE * q,
            one == (2 * BINADE) * q,
            q > 0,
    ;
}

/// Two half cycles bring every leg back to its place, up to sixteen grains of 2^-53 of a
/// cycle.
pub proof fn law_a_cycle_returns(g: Gait)
    requires
        steps(g.vel_x, g.ang_z),
        within(g.freq, Binary64 { bits: MIN_FREQUENCY }, Binary64 { bits: MAX_FREQUENCY }),
        is_place(g.phase),
    ensures
        ({
            let half = Gait { phase: phase_after(g, half_cycle(g.freq)), ..g };
            let later = phase_after(half, half_cycle(g.freq));
            &&& is_place(later)
            &&& forall|leg: Leg| near(#[trigger] leg_phase(later, leg), leg_phase(g.phase, leg), 16)
        }),
{
    law_half_a_cycle_swaps_the_diagonals(g);
    let half = Gait { phase: phase_after(g, half_cycle(g.freq)), ..g };
    law_half_a_cycle_swaps_the_diagonals(half);
    let later = phase_after(half, half_cycle(g.freq));
    lemma_grain();
    assert forall|leg: Leg| near(#[trigger] leg_phase(later, leg), leg_phase(g.phase, leg), 16) by {
        let other = match leg {
            Leg::FL => Leg::FR,
            Leg::FR => Leg::FL,
            Leg::RL => Leg::RR,
            Leg::RR => Leg::RL,
        };
        lemma_leg_place(later, leg);
        lemma_leg_place(half.phase, other);
        lemma_leg_place(g.phase, leg);
    }
}

/// A leg of a robot at a place is at a place.
pub(crate) proof fn lemma_leg_place(phase: Binary64, leg: Leg)
    requires
        is_place(phase),
    ensures
        is_place(leg_phase(phase, leg)),
        0 <= leg_phase(phase, leg).units() < one_in_units(),
{
    lemma_half_ahead(phase);
    lemma_no_offset(phase);
    lemma_place_units(phase);
}

} // verus!
