//! How far the robot leans, up to rounding.

use vstd::prelude::*;
use crate::behavior::{pitch_sine, roll_direction, Quaternion, TWO, UNITY};
use crate::binary64::arithmetic::{difference, opposite, product, sum};
use crate::binary64::convert::one_in_units;
use crate::binary64::facts::{lemma_opposite, lemma_units_order};
use crate::binary64::model::{size, Binary64};
use crate::binary64::nearness::{
    close, grain, lemma_bounded_product, lemma_bounded_sum, lemma_cancel, lemma_grain, lemma_times_bound, moderate,
};
use crate::decimals::{law_behavior_decimals, lemma_times_decimal};

verus! {

/// Whether all parts of a rotation are at most one.
pub open spec fn moderate_rotation(q: Quaternion) -> bool {
    moderate(q.x, 1) && moderate(q.y, 1) && moderate(q.z, 1) && moderate(q.w, 1)
}

/// The rotation with all its parts changed in sign, which is the same one.
pub open spec fn negated(q: Quaternion) -> Quaternion {
    Quaternion { x: opposite(q.x), y: opposite(q.y), z: opposite(q.z), w: opposite(q.w) }
}

/// A rotation and its negative lean alike.
pub proof fn law_both_signs_lean_alike(q: Quaternion)
    requires
        moderate_rotation(q),
    ensures
        roll_direction(negated(q)) == roll_direction(q),
        pitch_sine(negated(q)) == pitch_sine(q),
{
    lemma_opposite(q.x);
    lemma_opposite(q.y);
    lemma_opposite(q.z);
    lemma_opposite(q.w);
    lemma_two_signs(q.w, q.x);
    lemma_two_signs(q.y, q.z);
    lemma_two_signs(q.x, q.x);
    lemma_two_signs(q.y, q.y);
    lemma_two_signs(q.w, q.y);
    lemma_two_signs(q.z, q.x);
}

/// Two changes of sign undo each other.
proof fn lemma_two_signs(a: Binary64, b: Binary64)
    ensures
        product(opposite(a), opposite(b)) == product(a, b),
{
    lemma_opposite(a);
    lemma_opposite(b);
}

/// Twice the sum of two products of parts of a rotation.
proof fn lemma_twice_products(a: Binary64, b: Binary64, c: Binary64, d: Binary64)
    requires
        moderate(a, 1) && moderate(b, 1) && moderate(c, 1) && moderate(d, 1),
    ensures
        ({
            let plus = product(Binary64 { bits: TWO }, sum(product(a, b), product(c, d)));
            let minus = product(Binary64 { bits: TWO }, difference(product(a, b), product(c, d)));
            let error = 64 * (grain() * one_in_units());
            &&& moderate(plus, 5) && moderate(minus, 5)
            &&& close(plus.units() * one_in_units(), 2 * (a.units() * b.units() + c.units() * d.units()), error as int)
            &&& close(minus.units() * one_in_units(), 2 * (a.units() * b.units() - c.units() * d.units()), error as int)
        }),
{
    let one = one_in_units() as int;
    let g = grain() as int;
    let p = product(a, b);
    let r = product(c, d);
    lemma_grain();
    law_behavior_decimals();
    assert(one >= 1000000 * g) by (nonlinear_arith)
        requires
            one == 0x20_0000_0000_0000 * g,
            g > 0,
    ;
    lemma_part_product(a, b);
    lemma_part_product(c, d);
    lemma_opposite(r);
    lemma_bounded_sum(p, r, 3);
    lemma_bounded_sum(p, opposite(r), 3);
    assert((3 + 1) * grain() == 4 * grain()) by (nonlinear_arith);
    let s = sum(p, r);
    let t = difference(p, r);
    lemma_times_decimal(s, TWO, 2, 1, 4);
    lemma_times_decimal(t, TWO, 2, 1, 4);
    assert(((1 + 1) * (4 * (2 + 1) + 1)) * grain() == 26 * grain()) by (nonlinear_arith);
    lemma_twice_number(
        product(Binary64 { bits: TWO }, s).units(),
        s.units(),
        p.units(),
        r.units(),
        a.units() * b.units(),
        c.units() * d.units(),
        g,
        one,
    );
    assert((-r.units()) * one == -(r.units() * one)) by (nonlinear_arith);
    lemma_twice_number(
        product(Binary64 { bits: TWO }, t).units(),
        t.units(),
        p.units(),
        -r.units(),
        a.units() * b.units(),
        -(c.units() * d.units()),
        g,
        one,
    );
}

/// A product of two parts of a rotation.
proof fn lemma_part_product(a: Binary64, b: Binary64)
    requires
        moderate(a, 1) && moderate(b, 1),
    ensures
        product(a, b).finite(),
        close(product(a, b).units() * one_in_units(), a.units() * b.units(), 2 * (grain() * one_in_units()) as int),
        close(100 * product(a, b).units(), 0, 101 * one_in_units() as int),
{
    let one = one_in_units() as int;
    let g = grain() as int;
    let x = size(a.magnitude()) as int;
    let y = size(b.magnitude()) as int;
    lemma_grain();
    assert(x * y <= 1 * (one * one)) by (nonlinear_arith)
        requires
            0 <= x <= one,
            0 <= y <= one,
    ;
    lemma_bounded_product(a, b, 1);
    assert(((1 + 1) * g) * one == 2 * (g * one)) by (nonlinear_arith);
    lemma_times_bound(a.units(), b.units(), one, one);
    let p = product(a, b).units();
    assert((100 * p) * one == 100 * (p * one) && (101 * one) * one == 101 * (one * one)) by (nonlinear_arith);
    assert(200 * (g * one) <= one * one) by (nonlinear_arith)
        requires
            one == 0x20_0000_0000_0000 * g,
            g > 0,
    {
        assert((one - 200 * g) * one >= 0);
    }
    lemma_cancel(100 * p, 101 * one, one);
}

/// The same in numbers.
proof fn lemma_twice_number(t: int, s: int, p: int, r: int, x: int, y: int, g: int, one: int)
    requires
        g > 0,
        one > 0,
        close(t, 2 * s, 26 * g),
        close(s, p + r, 4 * g),
        close(p * one, x, 2 * (g * one)),
        close(r * one, y, 2 * (g * one)),
    ensures
        close(t * one, 2 * (x + y), 64 * (g * one)),
{
    lemma_times_bound(t - 2 * s, one, 26 * g, one);
    lemma_times_bound(s - (p + r), one, 4 * g, one);
    assert((t - 2 * s) * one == t * one - 2 * (s * one) && (s - (p + r)) * one == s * one - p * one - r * one && (26 * g)
        * one == 26 * (g * one) && (4 * g) * one == 4 * (g * one)) by (nonlinear_arith);
    assert(g * one > 0) by (nonlinear_arith)
        requires
            g > 0,
            one > 0,
    ;
}

/// The roll is the angle with the sine `2 (w x + y z)` and the cosine `1 - 2 (x x + y y)`, and
/// the pitch the one with the sine `2 (w y - z x)`, held within -1 and 1; up to rounding.
pub proof fn law_roll_and_pitch(q: Quaternion)
    requires
        moderate_rotation(q),
    ensures
        ({
            let one = one_in_units() as int;
            let (x, y, z, w) = (q.x.units(), q.y.units(), q.z.units(), q.w.units());
            let error = 100 * (grain() * one);
            let (sine, cosine) = roll_direction(q);
            let wanted = 2 * (w * y - z * x);
            let p = pitch_sine(q).units();
            &&& close(sine.units() * one, 2 * (w * x + y * z), error)
            &&& close(cosine.units() * one, one * one - 2 * (x * x + y * y), error)
            &&& close(p, 0, one)
            &&& close(wanted, 0, one * one - error) ==> close(p * one, wanted, error)
            &&& wanted >= one * one + error ==> p == one
            &&& wanted <= -(one * one + error) ==> p == -one
        }),
{
    let one = one_in_units() as int;
    let g = grain() as int;
    let unit = Binary64 { bits: UNITY };
    let two = Binary64 { bits: TWO };
    lemma_grain();
    lemma_twice_products(q.w, q.x, q.y, q.z);
    lemma_twice_products(q.x, q.x, q.y, q.y);
    lemma_twice_products(q.w, q.y, q.z, q.x);
    let cost = product(two, sum(product(q.x, q.x), product(q.y, q.y)));
    lemma_opposite(cost);
    assert(unit.units() == one);
    lemma_bounded_sum(unit, opposite(cost), 6);
    assert((6 + 1) * grain() == 7 * grain()) by (nonlinear_arith);
    let cosine = roll_direction(q).1;
    let c = cosine.units();
    lemma_times_bound(c - (one - cost.units()), one, 7 * g, one);
    assert((c - (one - cost.units())) * one == c * one - one * one + cost.units() * one && (7 * g) * one == 7 * (g * one)
        && g * one > 0) by (nonlinear_arith)
        requires
            g > 0,
            one > 0,
    ;
    // the pitch
    let raw = product(two, difference(product(q.w, q.y), product(q.z, q.x)));
    lemma_opposite(unit);
    lemma_units_order(raw, opposite(unit));
    lemma_units_order(unit, raw);
    let r = raw.units();
    let wanted = 2 * (q.w.units() * q.y.units() - q.z.units() * q.x.units());
    if wanted >= one * one + 100 * (g * one) {
        assert(r > one) by (nonlinear_arith)
            requires
                r * one > one * one,
                one > 0,
        ;
    }
    if wanted <= -(one * one + 100 * (g * one)) {
        assert(r < -one) by (nonlinear_arith)
            requires
                r * one < -(one * one),
                one > 0,
        ;
    }
    if close(wanted, 0, one * one - 100 * (g * one)) {
        assert(-one <= r <= one) by (nonlinear_arith)
            requires
                -(one * one) <= r * one <= one * one,
                one > 0,
        ;
    }
}

} // verus!
