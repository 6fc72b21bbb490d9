//! What may be known of the functions of the platform's mathematics library.
//!
//! The library calls them as closures and relies on nothing here; a law that needs one of
//! these properties says so.

use vstd::prelude::*;
use crate::binary64::arithmetic::{distance_from_zero, opposite};
use crate::binary64::convert::one_in_units;
use crate::binary64::facts::{at_most, lemma_size_of_one, within};
use crate::binary64::model::Binary64;
use crate::binary64::nearness::close;
use crate::binary64::order::ONE;
use crate::gait::PI;
use crate::geometry::zero;

verus! {

/// Whether a function of one number always gives the same result for the same argument.
pub open spec fn is_function<C: Fn(Binary64) -> Binary64>(f: C) -> bool {
    forall|v: Binary64, a: Binary64, b: Binary64|
        #![trigger call_ensures(f, (v,), a), call_ensures(f, (v,), b)]
        call_ensures(f, (v,), a) && call_ensures(f, (v,), b) ==> a == b
}

/// Whether a function of two numbers always gives the same result for the same arguments.
pub open spec fn is_function_of_two<A: Fn(Binary64, Binary64) -> Binary64>(f: A) -> bool {
    forall|y: (Binary64, Binary64), a: Binary64, b: Binary64|
        #![trigger call_ensures(f, y, a), call_ensures(f, y, b)]
        call_ensures(f, y, a) && call_ensures(f, y, b) ==> a == b
}

/// Whether a function of two numbers changes the sign of its result with the sign of its
/// first argument.
pub open spec fn is_odd<A: Fn(Binary64, Binary64) -> Binary64>(f: A) -> bool {
    forall|y: (Binary64, Binary64), z: (Binary64, Binary64), a: Binary64, b: Binary64|
        #![trigger call_ensures(f, y, a), call_ensures(f, z, b)]
        z == (opposite(y.0), y.1) && call_ensures(f, y, a) && call_ensures(f, z, b) ==> b == opposite(a)
}

/// Whether a function is a sine between 0 and pi, up to `error` units: it starts and ends
/// at 0, stays between 0 and 1, and moves no faster than its argument.
#[verifier::opaque]
pub open spec fn is_like_a_sine<S: Fn(Binary64) -> Binary64>(sin: S, error: nat) -> bool {
    &&& forall|v: Binary64, s: Binary64|
        within(v, zero(), Binary64 { bits: PI }) && #[trigger] call_ensures(sin, (v,), s) ==> {
            &&& within(s, zero(), Binary64 { bits: ONE })
            &&& s.units() <= v.units() + error
            &&& s.units() <= (Binary64 { bits: PI }).units() - v.units() + error
        }
    &&& forall|v: Binary64, w: Binary64, s: Binary64, t: Binary64|
        #![trigger call_ensures(sin, (v,), s), call_ensures(sin, (w,), t)]
        within(v, zero(), Binary64 { bits: PI }) && within(w, zero(), Binary64 { bits: PI }) && call_ensures(sin, (v,), s)
            && call_ensures(sin, (w,), t) ==> s.units() - t.units() <= distance_from_zero(v.units() - w.units()) + error
}

/// Whether a function of two numbers is finite and grows with the slope that they make: the
/// first divided by the second, which is more than zero.
pub open spec fn grows_with_the_slope<A: Fn(Binary64, Binary64) -> Binary64>(f: A) -> bool {
    forall|v: (Binary64, Binary64), w: (Binary64, Binary64), a: Binary64, b: Binary64|
        #![trigger call_ensures(f, v, a), call_ensures(f, w, b)]
        {
            &&& v.0.finite() && v.1.finite() && w.0.finite() && w.1.finite()
            &&& v.1.units() > 0 && w.1.units() > 0
            &&& v.0.units() * w.1.units() <= w.0.units() * v.1.units()
            &&& call_ensures(f, v, a)
            &&& call_ensures(f, w, b)
        } ==> a.finite() && b.finite() && at_most(a, b)
}

/// One eighth.
pub const EIGHTH: u64 = 0x3FC0_0000_0000_0000;

/// 31/32.
pub const ALMOST_ONE: u64 = 0x3FEF_0000_0000_0000;

/// Four, more than half a turn in radians.
pub const FOUR: u64 = 0x4010_0000_0000_0000;

/// Whether a side is finite and the other one at least one eighth.
pub open spec fn points_ahead(v: (Binary64, Binary64)) -> bool {
    v.0.finite() && v.1.finite() && !v.1.negative() && v.1.magnitude() >= EIGHTH
}

/// Whether a function is an arc tangent where the adjacent side is at least one eighth, up
/// to `error` units: it is at most four, moves at most eight times as fast as its arguments
/// and is odd.
#[verifier::opaque]
pub open spec fn is_like_an_arc_tangent<A: Fn(Binary64, Binary64) -> Binary64>(atan2: A, error: nat) -> bool {
    &&& forall|v: (Binary64, Binary64), a: Binary64|
        points_ahead(v) && #[trigger] call_ensures(atan2, v, a) ==> a.magnitude() <= FOUR
    &&& forall|v: (Binary64, Binary64), w: (Binary64, Binary64), a: Binary64, b: Binary64|
        #![trigger call_ensures(atan2, v, a), call_ensures(atan2, w, b)]
        points_ahead(v) && points_ahead(w) && call_ensures(atan2, v, a) && call_ensures(atan2, w, b) ==> {
            let apart = distance_from_zero(v.1.units() - w.1.units());
            &&& distance_from_zero(a.units() - b.units()) <= 8 * (distance_from_zero(v.0.units() - w.0.units()) + apart)
                + error
            &&& distance_from_zero(a.units() + b.units()) <= 8 * (distance_from_zero(v.0.units() + w.0.units()) + apart)
                + error
        }
}

/// Whether a function is an arc cosine between -31/32 and 31/32, up to `error` units: it is
/// at most four and moves at most eight times as fast as its argument.
#[verifier::opaque]
pub open spec fn is_like_an_arc_cosine<C: Fn(Binary64) -> Binary64>(acos: C, error: nat) -> bool {
    &&& forall|v: Binary64, a: Binary64|
        v.magnitude() <= ALMOST_ONE && #[trigger] call_ensures(acos, (v,), a) ==> a.magnitude() <= FOUR
    &&& forall|v: Binary64, w: Binary64, a: Binary64, b: Binary64|
        #![trigger call_ensures(acos, (v,), a), call_ensures(acos, (w,), b)]
        v.magnitude() <= ALMOST_ONE && w.magnitude() <= ALMOST_ONE && call_ensures(acos, (v,), a) && call_ensures(
            acos,
            (w,),
            b,
        ) ==> distance_from_zero(a.units() - b.units()) <= 8 * distance_from_zero(v.units() - w.units()) + error
}

/// Whether a function doubles as an arc cosine does, between -1023/1024 and 1023/1024 and up
/// to `error` units: it is at most four, and what it gives for `2 w^2 - 1` is twice what it
/// gives for `w`; for a number `v` near that, it differs by at most 32 times as much.
#[verifier::opaque]
pub open spec fn doubles_like_an_arc_cosine<C: Fn(Binary64) -> Binary64>(acos: C, error: nat) -> bool {
    let one = one_in_units() as int;
    &&& forall|v: Binary64, a: Binary64|
        close(1024 * v.units(), 0, 1023 * one) && #[trigger] call_ensures(acos, (v,), a) ==> a.magnitude() <= FOUR
    &&& forall|v: Binary64, w: Binary64, a: Binary64, b: Binary64|
        #![trigger call_ensures(acos, (v,), a), call_ensures(acos, (w,), b)]
        close(1024 * v.units(), 0, 1023 * one) && one <= 64 * w.units() && 1024 * w.units() <= 1023 * one && call_ensures(
            acos,
            (v,),
            a,
        ) && call_ensures(acos, (w,), b) ==> distance_from_zero(a.units() - 2 * b.units()) * one <= 32
            * distance_from_zero(2 * (w.units() * w.units()) - (v.units() + one) * one) + error * one
}

/// What an arc cosine gives for a number and for twice its square less one.
pub proof fn lemma_arc_cosine_doubles<C: Fn(Binary64) -> Binary64>(
    acos: C,
    error: nat,
    v: Binary64,
    w: Binary64,
    a: Binary64,
    b: Binary64,
)
    requires
        doubles_like_an_arc_cosine(acos, error),
        close(1024 * v.units(), 0, 1023 * one_in_units() as int),
        one_in_units() <= 64 * w.units(),
        1024 * w.units() <= 1023 * one_in_units(),
        call_ensures(acos, (v,), a),
        call_ensures(acos, (w,), b),
    ensures
        a.magnitude() <= FOUR,
        b.magnitude() <= FOUR,
        ({
            let one = one_in_units() as int;
            distance_from_zero(a.units() - 2 * b.units()) * one <= 32 * distance_from_zero(
                2 * (w.units() * w.units()) - (v.units() + one) * one,
            ) + error * one
        }),
{
    reveal(doubles_like_an_arc_cosine);
    lemma_size_of_one();
}

/// What two results of an arc tangent are.
pub proof fn lemma_arc_tangents<A: Fn(Binary64, Binary64) -> Binary64>(
    atan2: A,
    error: nat,
    v: (Binary64, Binary64),
    w: (Binary64, Binary64),
    a: Binary64,
    b: Binary64,
)
    requires
        is_like_an_arc_tangent(atan2, error),
        points_ahead(v),
        points_ahead(w),
        call_ensures(atan2, v, a),
        call_ensures(atan2, w, b),
    ensures
        a.magnitude() <= FOUR,
        b.magnitude() <= FOUR,
        ({
            let apart = distance_from_zero(v.1.units() - w.1.units());
            &&& distance_from_zero(a.units() - b.units()) <= 8 * (distance_from_zero(v.0.units() - w.0.units()) + apart)
                + error
            &&& distance_from_zero(a.units() + b.units()) <= 8 * (distance_from_zero(v.0.units() + w.0.units()) + apart)
                + error
        }),
{
    reveal(is_like_an_arc_tangent);
}

/// What two results of an arc cosine are.
pub proof fn lemma_arc_cosines<C: Fn(Binary64) -> Binary64>(
    acos: C,
    error: nat,
    v: Binary64,
    w: Binary64,
    a: Binary64,
    b: Binary64,
)
    requires
        is_like_an_arc_cosine(acos, error),
        v.magnitude() <= ALMOST_ONE,
        w.magnitude() <= ALMOST_ONE,
        call_ensures(acos, (v,), a),
        call_ensures(acos, (w,), b),
    ensures
        a.magnitude() <= FOUR,
        b.magnitude() <= FOUR,
        distance_from_zero(a.units() - b.units()) <= 8 * distance_from_zero(v.units() - w.units()) + error,
{
    reveal(is_like_an_arc_cosine);
}

} // verus!
