//! Which points of a cloud count, and where they are.

use vstd::prelude::*;
use vstd::arithmetic::power2::{lemma2_to64, lemma_pow2_adds, lemma_pow2_pos, pow2};
use crate::binary64::arithmetic::{product, sum};
use crate::binary64::convert::{from_single, one_in_units, single_size};
use crate::binary64::facts::{at_most, lemma_nearest_keeps, lemma_short_is_exact, lemma_signed, lemma_size_over, within};
use crate::binary64::model::{lemma_size_of, lemma_size_order, lemma_size_small, size, Binary64, BINADE, INFINITY};
use crate::binary64::nearness::{
    close, grain, lemma_bounded_product, lemma_bounded_sum, lemma_cancel, lemma_grain, lemma_times_bound, moderate,
};
use crate::binary64::root::{lemma_root_error, lemma_root_exists, nearest_root};
use crate::decimals::{is_decimal, law_lidar_decimals};
use crate::geometry::zero;
use crate::lidar::laws::lemma_range;
use crate::lidar::{
    bearings_by, detection, number_at, of_interest, offset_of, range_of, scans_to, Point, PointCloud, PointField,
    BAND_BOTTOM, BAND_TOP, MAX_RANGE, MIN_RANGE,
};

verus! {

/// A point counts exactly where its coordinates are numbers, it is not behind, it is 0.8 to 20
/// m away along the ground and 0.3 to 2 m high.
pub proof fn law_which_points_count(p: Point)
    ensures
        of_interest(p) <==> {
            &&& !p.x.is_nan_spec() && !p.y.is_nan_spec() && !p.z.is_nan_spec()
            &&& within(range_of(p), Binary64 { bits: MIN_RANGE }, Binary64 { bits: MAX_RANGE })
            &&& at_most(zero(), p.x)
            &&& within(p.z, Binary64 { bits: BAND_BOTTOM }, Binary64 { bits: BAND_TOP })
        },
        is_decimal(MIN_RANGE, 8, 10) && is_decimal(MAX_RANGE, 20, 1),
        is_decimal(BAND_BOTTOM, 3, 10) && is_decimal(BAND_TOP, 2, 1),
{
    law_lidar_decimals();
    if of_interest(p) {
        lemma_range(p);
    }
}

/// The range of a point is its distance along the ground by Pythagoras, up to rounding.
pub proof fn law_range(p: Point)
    requires
        moderate(p.x, 32),
        moderate(p.y, 32),
        within(range_of(p), Binary64 { bits: MIN_RANGE }, Binary64 { bits: MAX_RANGE }),
    ensures
        ({
            let x = p.x.units();
            let y = p.y.units();
            let r = range_of(p).units();
            close(r * r, x * x + y * y, 20000 * (grain() * one_in_units()) as int)
        }),
{
    let one = one_in_units() as int;
    let g = grain() as int;
    let x = p.x.units();
    let y = p.y.units();
    let xx = product(p.x, p.x);
    let yy = product(p.y, p.y);
    let q = sum(xx, yy);
    let r = range_of(p);
    lemma_grain();
    lemma_size_small();
    assert(one >= 1000000000000 * g) by (nonlinear_arith)
        requires
            one == 0x20_0000_0000_0000 * g,
            g > 0,
    ;
    lemma_square_bound(p.x);
    lemma_square_bound(p.y);
    lemma_bounded_product(p.x, p.x, 1024);
    lemma_bounded_product(p.y, p.y, 1024);
    let a = xx.units();
    let b = yy.units();
    assert(((1024 + 1) * g) * one == 1025 * (g * one)) by (nonlinear_arith);
    assert(close(a + b, 0, 2049 * one)) by {
        assert(x * x >= 0 && y * y >= 0) by (nonlinear_arith);
        assert((a + b) * one == a * one + b * one && (2049 * one) * one == 2049 * (one * one)) by (nonlinear_arith);
        assert(2050 * (g * one) <= one * one) by (nonlinear_arith)
            requires
                one >= 1000000000000 * g,
                g > 0,
        {
            assert((one - 2050 * g) * one >= 0);
        }
        lemma_cancel(a + b, 2049 * one, one);
    }
    lemma_bounded_sum(xx, yy, 2049);
    assert((2049 + 1) * grain() == 2050 * grain()) by (nonlinear_arith);
    // the root
    let n = size(q.magnitude()) * one_in_units();
    assert(!q.is_nan_spec());
    assert(!q.is_zero() && !q.negative()) by {
        if q.is_zero() {
            assert(r == q);
        }
    }
    lemma_root_exists(n);
    lemma_signed(false, nearest_root(n));
    lemma_root_error(n);
    lemma2_to64();
    lemma_size_over(1026, 0x14_0000_0000_0000, 1021, 32, 0x280_0000_0000_0000);
    lemma_size_order(MAX_RANGE as nat, r.magnitude());
    let ru = r.units();
    assert(ru <= 20 * one) by (nonlinear_arith)
        requires
            ru <= 0x280_0000_0000_0000 * g,
            one == 0x20_0000_0000_0000 * g,
    ;
    let t = q.units();
    assert(t * one == n);
    lemma_far_root(ru, n as int, one, g);
    lemma_times_bound(t - (a + b), one, 2050 * g, one);
    assert((t - (a + b)) * one == t * one - a * one - b * one && (2050 * g) * one == 2050 * (g * one)) by (nonlinear_arith);
}

/// The square of a number up to 32.
proof fn lemma_square_bound(a: Binary64)
    requires
        moderate(a, 32),
    ensures
        size(a.magnitude()) * size(a.magnitude()) <= 1024 * (one_in_units() * one_in_units()),
        a.units() * a.units() == size(a.magnitude()) * size(a.magnitude()),
{
    let x = size(a.magnitude()) as int;
    let one = one_in_units() as int;
    assert(x * x <= 1024 * (one * one) && (-x) * (-x) == x * x) by (nonlinear_arith)
        requires
            0 <= x <= 32 * one,
    {
        assert(x * x <= (32 * one) * (32 * one));
    }
}

/// The error of a root of up to 20, in numbers.
proof fn lemma_far_root(r: int, n: int, one: int, g: int)
    requires
        one == 0x20_0000_0000_0000 * g,
        g > 0,
        0 <= r <= 20 * one,
        BINADE * (r * r) <= BINADE * n + 2 * (r * r),
        BINADE * n <= BINADE * (r * r) + 2 * (r * r),
    ensures
        close(r * r, n, 1600 * (g * one)),
{
    let b = 0x10_0000_0000_0000int;
    let s = r * r;
    let z = g * one;
    assert(s <= 400 * ((2 * b) * z) && s >= 0) by (nonlinear_arith)
        requires
            s == r * r,
            0 <= r <= 20 * one,
            one == (2 * b) * g,
            z == g * one,
    {
        assert(r * r <= (20 * one) * (20 * one));
        assert(one * one == (2 * b) * z);
    }
    assert(s - n <= 1600 * z && n - s <= 1600 * z) by (nonlinear_arith)
        requires
            b * s <= b * n + 2 * s,
            b * n <= b * s + 2 * s,
            s <= 400 * ((2 * b) * z),
            b == 0x10_0000_0000_0000,
    {
        assert(b * (s - n) <= b * (1600 * z));
        assert(b * (n - s) <= b * (1600 * z));
    }
}

/// Whether `places` are the places of the points that count among the first `n`, in their
/// order.
pub open spec fn picks(msg: PointCloud, n: nat, places: Seq<int>) -> bool {
    &&& forall|k: int| 0 <= k < places.len() ==> {
        let i = #[trigger] places[k];
        0 <= i < n && msg.has_point(i) && of_interest(msg.point(i))
    }
    &&& forall|k: int, l: int| 0 <= k < l < places.len() ==> #[trigger] places[k] < #[trigger] places[l]
    &&& forall|i: int| 0 <= i < n && #[trigger] msg.has_point(i) && of_interest(msg.point(i)) ==> places.contains(i)
}

/// The points of interest are all points that count, each once and in the order of the cloud.
pub proof fn law_points_are_picked(msg: PointCloud, n: nat)
    ensures
        exists|places: Seq<int>|
            {
                &&& #[trigger] picks(msg, n, places)
                &&& msg.points_of_interest(n) == places.map_values(|i: int| msg.point(i))
            },
    decreases n,
{
    let point = |i: int| msg.point(i);
    if n == 0 {
        let none = Seq::<int>::empty();
        assert(picks(msg, 0, none));
        assert(msg.points_of_interest(0) =~= none.map_values(point));
    } else {
        let i = n - 1;
        law_points_are_picked(msg, i as nat);
        let before = choose|places: Seq<int>|
            {
                &&& #[trigger] picks(msg, i as nat, places)
                &&& msg.points_of_interest(i as nat) == places.map_values(|i: int| msg.point(i))
            };
        if msg.has_point(i) && of_interest(msg.point(i)) {
            let places = before.push(i);
            assert forall|j: int| 0 <= j < n && #[trigger] msg.has_point(j) && of_interest(msg.point(j)) implies places.contains(
                j,
            ) by {
                if j == i {
                    assert(places[before.len() as int] == i);
                } else {
                    assert(before.contains(j));
                    let k = choose|k: int| 0 <= k < before.len() && before[k] == j;
                    assert(places[k] == j);
                }
            }
            assert(picks(msg, n, places));
            assert(msg.points_of_interest(n) =~= places.map_values(point));
        } else {
            assert(picks(msg, n, before));
            assert(msg.points_of_interest(n) =~= before.map_values(point));
        }
    }
}

/// A cloud holds as many points as fit into its data as a whole.
pub proof fn law_total(msg: PointCloud)
    requires
        msg.point_step > 0,
    ensures
        msg.total() * msg.point_step <= msg.data@.len() < (msg.total() + 1) * msg.point_step,
{
    let step = msg.point_step as int;
    vstd::arithmetic::div_mod::lemma_fundamental_div_mod(msg.data@.len() as int, step);
    vstd::arithmetic::mul::lemma_mul_is_commutative(step, msg.total() as int);
    assert((msg.total() + 1) * step == msg.total() * step + step) by (nonlinear_arith);
}

/// A coordinate lies where the last field of its name says, and at its usual place where there
/// is none.
pub proof fn law_offsets(fields: Seq<PointField>, name: Seq<char>, default: nat, more: PointField)
    ensures
        fields.len() == 0 ==> offset_of(fields, name, default) == default,
        more.name@ == name ==> offset_of(fields.push(more), name, default) == more.offset,
        more.name@ != name ==> offset_of(fields.push(more), name, default) == offset_of(fields, name, default),
{
    assert(fields.push(more).drop_last() =~= fields);
}

/// The coordinates of a point are the single-precision numbers, low byte first, at the places
/// of the fields "x", "y" and "z", or else at bytes 0, 4 and 8 of the point.
pub proof fn law_coordinates(msg: PointCloud, i: int)
    ensures
        ({
            let start = i * msg.point_step;
            let x = start + offset_of(msg.fields@, "x"@, 0);
            let y = start + offset_of(msg.fields@, "y"@, 4);
            let z = start + offset_of(msg.fields@, "z"@, 8);
            &&& msg.point(i).x == number_at(msg.data@, x)
            &&& msg.point(i).y == number_at(msg.data@, y)
            &&& msg.point(i).z == number_at(msg.data@, z)
        }),
{
}

/// Four bytes make a number: the last holds the sign and the highest bits.
pub proof fn law_bytes(data: Seq<u8>, at: int)
    ensures
        number_at(data, at) == from_single(
            (data[at] + data[at + 1] * 256 + data[at + 2] * 65536 + data[at + 3] * 16777216) as u32,
        ),
{
}

/// A single-precision number keeps its value and its sign; its exact value is a whole number
/// of 2^-149.
pub proof fn law_single_is_exact(bits: u32)
    ensures
        ({
            let negative = bits >= 0x8000_0000;
            let m: nat = if negative { (bits - 0x8000_0000) as nat } else { bits as nat };
            let a = from_single(bits);
            &&& m > 0x7F80_0000 ==> a.is_nan_spec()
            &&& m <= 0x7F80_0000 ==> a.negative() == negative && !a.is_nan_spec()
            &&& m == 0x7F80_0000 ==> a.infinite()
            &&& m < 0x7F80_0000 ==> a.finite() && size(a.magnitude()) == single_size(m) * pow2(925)
        }),
{
    let negative = bits >= 0x8000_0000;
    let m: nat = if negative { (bits - 0x8000_0000) as nat } else { bits as nat };
    lemma_signed(negative, INFINITY as nat);
    if m < 0x7F80_0000 {
        let n = single_size(m) * pow2(925);
        let (s, e): (nat, nat) = if m < 0x80_0000 {
            (m, 0)
        } else {
            (0x80_0000 + m % 0x80_0000, (m / 0x80_0000 - 1) as nat)
        };
        lemma2_to64();
        lemma_pow2_adds(e, 925);
        let p = lemma_short_is_exact(s, e + 925);
        assert(size(p) == n) by (nonlinear_arith)
            requires
                size(p) == s * pow2(e + 925),
                pow2(e) * pow2(925) == pow2(e + 925),
                n == single_size(m) * pow2(925),
                single_size(m) == s * pow2(e),
        ;
        // far below the largest double
        assert(e <= 253);
        if e < 253 {
            vstd::arithmetic::power2::lemma_pow2_strictly_increases(e + 925, 1178);
        }
        lemma_pow2_pos(1178);
        lemma_pow2_pos(e + 925);
        lemma_size_of(1178, BINADE as nat);
        lemma_size_order(1179 * BINADE as nat, INFINITY as nat);
        assert(s * pow2(e + 925) < BINADE * pow2(1178)) by (nonlinear_arith)
            requires
                0 <= s < 0x100_0000,
                0 < pow2(e + 925) <= pow2(1178),
                BINADE == 0x10_0000_0000_0000,
        ;
        lemma_size_order(p, 1179 * BINADE as nat);
        lemma_nearest_keeps(p, 1);
        assert(size(p) * 1 == n);
        lemma_signed(negative, p);
    }
}

/// What a scan reports is the number of points, the number of those that count, and what is
/// detected among these and their bearings, the arc tangents of left over forward.
pub proof fn law_scan<A: Fn(Binary64, Binary64) -> Binary64>(
    atan2: A,
    msg: PointCloud,
    r: (usize, usize, Option<(Binary64, Binary64)>),
)
    requires
        scans_to(atan2, msg, r),
    ensures
        msg.point_step == 0 || msg.data@.len() == 0 ==> r.0 == 0 && r.1 == 0 && r.2 is None,
        msg.point_step > 0 && msg.data@.len() > 0 ==> {
            let points = msg.points_of_interest(r.0 as nat);
            &&& r.0 == msg.data@.len() / msg.point_step as nat
            &&& r.1 == points.len()
            &&& exists|bearings: Seq<Binary64>|
                {
                    &&& #[trigger] bearings.len() == points.len()
                    &&& forall|i: int| 0 <= i < points.len() ==> call_ensures(
                        atan2,
                        (points[i].y, points[i].x),
                        #[trigger] bearings[i],
                    )
                    &&& r.2 == detection(points, bearings)
                }
        },
{
    if msg.holds_points() {
        let points = msg.points_of_interest(msg.total());
        let bearings = choose|bearings: Seq<Binary64>| #[trigger]
            bearings_by(atan2, points, bearings) && r.2 == detection(points, bearings);
        assert(bearings.len() == points.len());
    }
}

/// A point counts as there where the data holds it as a whole, its height included; a cloud
/// can be read where its other two coordinates lie within the data as well.
pub proof fn law_whole_points(msg: PointCloud, i: int)
    requires
        msg.point_step > 0,
    ensures
        ({
            let start = i * msg.point_step;
            let end = msg.data@.len();
            let there = 0 <= i && start + msg.point_step <= end && start + offset_of(msg.fields@, "z"@, 8) + 4 <= end;
            &&& msg.has_point(i) <==> there
            &&& msg.readable() && there ==> start + offset_of(msg.fields@, "x"@, 0) + 4 <= end && start + offset_of(
                msg.fields@,
                "y"@,
                4,
            ) + 4 <= end
        }),
{
    let step = msg.point_step as int;
    let n = msg.total() as int;
    law_total(msg);
    if 0 <= i < n {
        assert(i * step + step <= n * step) by (nonlinear_arith)
            requires
                i + 1 <= n,
                step > 0,
        ;
    } else if i >= n {
        assert((n + 1) * step <= i * step + step) by (nonlinear_arith)
            requires
                n <= i,
                step > 0,
        ;
    }
    if msg.readable() && msg.has_point(i) {
        assert(msg.has_point(i));
    }
}

} // verus!
