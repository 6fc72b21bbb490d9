//! What holds of the cluster detection as a whole.

use vstd::prelude::*;
use vstd::arithmetic::power2::{lemma2_to64, lemma2_to64_rest, lemma_pow2_adds, lemma_pow2_pos, pow2};
use crate::binary64::arithmetic::{lemma_size_positive, product, sum};
use crate::binary64::convert::{from_whole, one_in_units};
use crate::binary64::facts::{
    lemma_nearest_keeps, lemma_nearest_keeps_order, lemma_product, lemma_quotient, lemma_rank_keeps_order,
    lemma_rank_of_double, lemma_relative_error, lemma_short_is_exact, lemma_signed, lemma_size_of_one, lemma_size_over,
    lemma_sum, lemma_sum_grows, lemma_sum_with_zero, lemma_whole_is_exact, within,
};
use crate::binary64::model::{
    lemma_nearest_exists, lemma_size_of, lemma_size_order, nearest, size, Binary64, BINADE, INFINITY,
};
use crate::binary64::order::less;
use crate::binary64::root::{lemma_root_exists, nearest_root};
use crate::geometry::zero;
use crate::lidar::{
    bearings_by, bounds_of, detection, height_of, lemma_empty_sector, lemma_opener, of_interest, opens_best,
    opens_person, opens_sector, person_sized, points_in, population, range_of, ranges_in, scans_to, sectors_of,
    total_of, width_of, Point, PointCloud, BAND_BOTTOM, BAND_TOP, GROUND, MAX_HEIGHT, MAX_RANGE, MAX_WIDTH, MIN_CLUSTER,
    MIN_HEIGHT, MIN_RANGE, MIN_WIDTH,
};
use crate::platform::is_function_of_two;

verus! {

/// No cloud has more points of interest than points, and each of them is of interest.
pub proof fn law_points_of_interest(msg: PointCloud, n: nat)
    ensures
        msg.points_of_interest(n).len() <= n,
        forall|i: int|
            0 <= i < msg.points_of_interest(n).len() ==> of_interest(#[trigger] msg.points_of_interest(n)[i]),
    decreases n,
{
    if n > 0 {
        law_points_of_interest(msg, (n - 1) as nat);
    }
}

/// Ground points are not of interest, nor what lies outside the band of a person's
/// height.
pub proof fn law_ground_is_ignored(p: Point)
    ensures
        less(p.z, Binary64 { bits: GROUND }) ==> !of_interest(p),
        of_interest(p) ==> within(p.z, Binary64 { bits: BAND_BOTTOM }, Binary64 { bits: BAND_TOP }),
{
}

/// What is no number, lies behind, or is too near or too far is not of interest.
pub proof fn law_limits_of_interest(p: Point)
    ensures
        p.x.is_nan_spec() || p.y.is_nan_spec() || p.z.is_nan_spec() ==> !of_interest(p),
        less(p.x, zero()) ==> !of_interest(p),
        less(range_of(p), Binary64 { bits: MIN_RANGE }) ==> !of_interest(p),
        less(Binary64 { bits: MAX_RANGE }, range_of(p)) ==> !of_interest(p),
{
}

/// A point that is not of interest adds nothing to those that are.
pub proof fn law_other_points_are_dropped(msg: PointCloud, n: nat)
    requires
        !(msg.has_point(n as int) && of_interest(msg.point(n as int))),
    ensures
        msg.points_of_interest(n + 1) == msg.points_of_interest(n),
{
}

/// Whether a cloud is made of whole points with their coordinates inside.
pub open spec fn whole_points(msg: PointCloud) -> bool {
    &&& msg.point_step > 0
    &&& msg.data@.len() % msg.point_step as nat == 0
    &&& msg.x_offset() + 4 <= msg.point_step
    &&& msg.y_offset() + 4 <= msg.point_step
    &&& msg.z_offset() + 4 <= msg.point_step
}

/// Whether a cloud is another one with one more point at its end.
pub open spec fn extended(msg: PointCloud, longer: PointCloud) -> bool {
    &&& longer.point_step == msg.point_step && longer.fields@ == msg.fields@
    &&& longer.data@.len() == msg.data@.len() + msg.point_step
    &&& longer.data@.take(msg.data@.len() as int) == msg.data@
}

/// A cloud of whole points.
proof fn lemma_whole_points(msg: PointCloud)
    requires
        whole_points(msg),
    ensures
        msg.data@.len() == msg.total() * msg.point_step,
        forall|i: int| #[trigger] msg.has_point(i) <==> 0 <= i < msg.total(),
        msg.readable(),
{
    let step = msg.point_step as int;
    vstd::arithmetic::div_mod::lemma_fundamental_div_mod(msg.data@.len() as int, step);
    vstd::arithmetic::mul::lemma_mul_is_commutative(step, msg.total() as int);
    assert forall|i: int| #[trigger] msg.has_point(i) <==> 0 <= i < msg.total() by {
        if 0 <= i < msg.total() {
            assert(i * step + step <= msg.total() * step) by (nonlinear_arith)
                requires
                    i + 1 <= msg.total(),
                    step > 0,
            ;
        }
    }
    assert forall|i: int| #[trigger] msg.has_point(i) implies i * step + step <= msg.data@.len() by {
        assert(i * step + step <= msg.total() * step) by (nonlinear_arith)
            requires
                i + 1 <= msg.total(),
                step > 0,
        ;
    }
}

/// A cloud and a longer one have the same points as far as the shorter one goes.
proof fn lemma_same_points(msg: PointCloud, longer: PointCloud, n: nat)
    requires
        whole_points(msg),
        whole_points(longer),
        extended(msg, longer),
        n <= msg.total(),
        msg.total() <= longer.total(),
    ensures
        longer.points_of_interest(n) == msg.points_of_interest(n),
    decreases n,
{
    if n > 0 {
        let i = n - 1;
        let step = msg.point_step as int;
        lemma_same_points(msg, longer, i as nat);
        lemma_whole_points(msg);
        lemma_whole_points(longer);
        assert(i * step + step <= msg.total() * step && i * step >= 0) by (nonlinear_arith)
            requires
                0 <= i,
                i + 1 <= msg.total(),
                step > 0,
        ;
        assert forall|k: int| 0 <= k < msg.data@.len() implies longer.data@[k] == #[trigger] msg.data@[k] by {
            assert(longer.data@.take(msg.data@.len() as int)[k] == msg.data@[k]);
        }
        assert(longer.point(i) == msg.point(i));
    }
}

/// Bearings of the same points are the same, if the arc tangent is a function.
proof fn lemma_same_bearings<A: Fn(Binary64, Binary64) -> Binary64>(
    atan2: A,
    points: Seq<Point>,
    bearings: Seq<Binary64>,
    others: Seq<Binary64>,
)
    requires
        is_function_of_two(atan2),
        bearings_by(atan2, points, bearings),
        bearings_by(atan2, points, others),
    ensures
        bearings == others,
{
    assert forall|i: int| 0 <= i < points.len() implies bearings[i] == others[i] by {
        let at = (points[i].y, points[i].x);
        assert(call_ensures(atan2, at, bearings[i]) && call_ensures(atan2, at, others[i]));
    }
    assert(bearings =~= others);
}

/// One more point at the end of a cloud, if it is not of interest, is counted in the total
/// and changes nothing else, if the arc tangent is a function.
pub proof fn law_other_points_only_count<A: Fn(Binary64, Binary64) -> Binary64>(
    atan2: A,
    msg: PointCloud,
    longer: PointCloud,
    r: (usize, usize, Option<(Binary64, Binary64)>),
    longer_r: (usize, usize, Option<(Binary64, Binary64)>),
)
    requires
        is_function_of_two(atan2),
        whole_points(msg),
        extended(msg, longer),
        !of_interest(longer.point(msg.total() as int)),
        scans_to(atan2, msg, r),
        scans_to(atan2, longer, longer_r),
    ensures
        longer_r.0 == r.0 + 1,
        longer_r.1 == r.1,
        longer_r.2 == r.2,
{
    let step = msg.point_step as int;
    let n = msg.total();
    lemma_whole_points(msg);
    vstd::arithmetic::div_mod::lemma_mod_add_multiples_vanish(msg.data@.len() as int, step);
    vstd::arithmetic::div_mod::lemma_div_plus_one(msg.data@.len() as int, step);
    assert(whole_points(longer));
    assert(longer.total() == n + 1);
    lemma_whole_points(longer);
    law_other_points_are_dropped(longer, n);
    lemma_same_points(msg, longer, n);
    let points = msg.points_of_interest(n);
    let others = choose|b: Seq<Binary64>| #[trigger]
        bearings_by(atan2, points, b) && longer_r.2 == detection(points, b);
    if msg.holds_points() {
        let bearings = choose|b: Seq<Binary64>| #[trigger]
            bearings_by(atan2, points, b) && r.2 == detection(points, b);
        lemma_same_bearings(atan2, points, bearings, others);
    } else {
        assert(n == 0) by {
            vstd::arithmetic::div_mod::lemma_div_basics(step);
        }
        law_three_points_make_a_detection(points, others);
        if detection(points, others) is Some {
            let s = choose|s: nat| #[trigger] population(sectors_of(others), s) >= MIN_CLUSTER;
            lemma_empty_sector(points, sectors_of(others), s);
        }
    }
}

/// Among the first `n` positions, if one opens a person-sized sector, one of them opens
/// such a sector that no other of them beats.
proof fn lemma_best_among(points: Seq<Point>, sectors: Seq<nat>, n: int, some: int) -> (best: int)
    requires
        0 <= some < n <= sectors.len(),
        opens_person(points, sectors, some),
    ensures
        opens_person(points, sectors, best),
        best < n,
        forall|j: int| #[trigger]
            opens_person(points, sectors, j) && j < n ==> {
                ||| population(sectors, sectors[j]) < population(sectors, sectors[best])
                ||| population(sectors, sectors[j]) == population(sectors, sectors[best]) && j <= best
            },
    decreases n,
{
    let j = n - 1;
    if exists|k: int| 0 <= k < j && #[trigger] opens_person(points, sectors, k) {
        let k = choose|k: int| 0 <= k < j && #[trigger] opens_person(points, sectors, k);
        let before = lemma_best_among(points, sectors, j, k);
        if opens_person(points, sectors, j) && population(sectors, sectors[j]) >= population(sectors, sectors[before]) {
            j
        } else {
            before
        }
    } else {
        some
    }
}

/// Where some sector is sized like a person, exactly one of them is best.
pub proof fn law_one_sector_is_best(points: Seq<Point>, sectors: Seq<nat>)
    ensures
        (exists|i: int| #[trigger] opens_person(points, sectors, i)) ==> exists|i: int| opens_best(points, sectors, i),
        forall|i: int, j: int| opens_best(points, sectors, i) && opens_best(points, sectors, j) ==> i == j,
{
    if exists|i: int| #[trigger] opens_person(points, sectors, i) {
        let some = choose|i: int| #[trigger] opens_person(points, sectors, i);
        let best = lemma_best_among(points, sectors, sectors.len() as int, some);
        assert(opens_best(points, sectors, best));
    }
}

/// A person is detected exactly where some sector that is sized like a person holds at
/// least three points.
pub proof fn law_three_points_make_a_detection(points: Seq<Point>, bearings: Seq<Binary64>)
    requires
        points.len() == bearings.len(),
    ensures
        detection(points, bearings) is Some <==> exists|s: nat|
            #[trigger] population(sectors_of(bearings), s) >= MIN_CLUSTER && person_sized(
                points,
                sectors_of(bearings),
                s,
            ),
{
    let sectors = sectors_of(bearings);
    law_one_sector_is_best(points, sectors);
    let i = choose|i: int| opens_best(points, sectors, i);
    assert forall|s: nat| #[trigger] population(sectors, s) >= MIN_CLUSTER && person_sized(points, sectors, s) implies {
        &&& opens_best(points, sectors, i)
        &&& population(sectors, s) <= population(sectors, sectors[i])
    } by {
        if forall|k: int| 0 <= k < sectors.len() ==> #[trigger] sectors[k] != s {
            lemma_empty_sector(points, sectors, s);
        }
        let k = choose|k: int| 0 <= k < sectors.len() && #[trigger] sectors[k] == s;
        lemma_opener(sectors, k);
        let o = choose|o: int| #[trigger] opens_sector(sectors, o) && sectors[o] == sectors[k];
        assert(opens_person(points, sectors, o));
    }
    if detection(points, bearings) is Some {
        assert(population(sectors, sectors[i]) >= MIN_CLUSTER);
    }
}

/// What is detected is sized like a person: 0.3 to 0.8 m wide and 0.5 to 2 m tall.
pub proof fn law_detection_is_sized_like_a_person(points: Seq<Point>, bearings: Seq<Binary64>)
    requires
        detection(points, bearings) is Some,
    ensures
        exists|i: int|
            {
                let sectors = sectors_of(bearings);
                let b = bounds_of(points_in(points, sectors, sectors[i]));
                &&& #[trigger] opens_best(points, sectors_of(bearings), i)
                &&& detection(points, bearings).unwrap().1 == bearings[i]
                &&& within(width_of(b), Binary64 { bits: MIN_WIDTH }, Binary64 { bits: MAX_WIDTH })
                &&& within(height_of(b), Binary64 { bits: MIN_HEIGHT }, Binary64 { bits: MAX_HEIGHT })
            },
{
    let sectors = sectors_of(bearings);
    let i = choose|i: int| opens_best(points, sectors, i);
    assert(opens_best(points, sectors, i));
}

/// The bounds of points are their smallest and largest coordinates: they hold every
/// point, and some point reaches each of them.
pub proof fn law_bounds_are_tight(points: Seq<Point>)
    requires
        points.len() > 0,
        forall|i: int|
            0 <= i < points.len() ==> {
                let p = #[trigger] points[i];
                !p.x.is_nan_spec() && !p.y.is_nan_spec() && !p.z.is_nan_spec()
            },
    ensures
        forall|i: int|
            0 <= i < points.len() ==> {
                let p = #[trigger] points[i];
                let b = bounds_of(points);
                &&& within(p.x, b.low.x, b.high.x)
                &&& within(p.y, b.low.y, b.high.y)
                &&& within(p.z, b.low.z, b.high.z)
            },
        exists|i: int| 0 <= i < points.len() && (#[trigger] points[i]).x == bounds_of(points).low.x,
        exists|i: int| 0 <= i < points.len() && (#[trigger] points[i]).x == bounds_of(points).high.x,
        exists|i: int| 0 <= i < points.len() && (#[trigger] points[i]).y == bounds_of(points).low.y,
        exists|i: int| 0 <= i < points.len() && (#[trigger] points[i]).y == bounds_of(points).high.y,
        exists|i: int| 0 <= i < points.len() && (#[trigger] points[i]).z == bounds_of(points).low.z,
        exists|i: int| 0 <= i < points.len() && (#[trigger] points[i]).z == bounds_of(points).high.z,
    decreases points.len(),
{
    let n = points.len() as int;
    let last = points[n - 1];
    if n > 1 {
        let rest = points.drop_last();
        let before = bounds_of(rest);
        assert forall|i: int| 0 <= i < rest.len() implies {
            let p = #[trigger] rest[i];
            !p.x.is_nan_spec() && !p.y.is_nan_spec() && !p.z.is_nan_spec()
        } by {
            assert(rest[i] == points[i]);
        }
        law_bounds_are_tight(rest);
        assert forall|i: int| 0 <= i < n - 1 implies {
            let p = #[trigger] points[i];
            &&& within(p.x, before.low.x, before.high.x)
            &&& within(p.y, before.low.y, before.high.y)
            &&& within(p.z, before.low.z, before.high.z)
        } by {
            assert(rest[i] == points[i]);
        }
        assert(within(rest[0].x, before.low.x, before.high.x));
        let x_low = choose|i: int| 0 <= i < rest.len() && (#[trigger] rest[i]).x == before.low.x;
        let x_high = choose|i: int| 0 <= i < rest.len() && (#[trigger] rest[i]).x == before.high.x;
        let y_low = choose|i: int| 0 <= i < rest.len() && (#[trigger] rest[i]).y == before.low.y;
        let y_high = choose|i: int| 0 <= i < rest.len() && (#[trigger] rest[i]).y == before.high.y;
        let z_low = choose|i: int| 0 <= i < rest.len() && (#[trigger] rest[i]).z == before.low.z;
        let z_high = choose|i: int| 0 <= i < rest.len() && (#[trigger] rest[i]).z == before.high.z;
        assert(points[x_low].x == before.low.x && points[x_high].x == before.high.x);
        assert(points[y_low].y == before.low.y && points[y_high].y == before.high.y);
        assert(points[z_low].z == before.low.z && points[z_high].z == before.high.z);
        assert(points[n - 1] == last);
    } else {
        assert(points[0] == last);
    }
}

/// A square is a number, and not a negative one.
proof fn lemma_square(a: Binary64)
    requires
        !a.is_nan_spec(),
    ensures
        !product(a, a).is_nan_spec(),
        !product(a, a).negative(),
{
    lemma_signed(false, INFINITY as nat);
    if a.finite() {
        lemma_product(a, a);
    }
}

/// The range of a point of interest lies within the limits.
pub(crate) proof fn lemma_range(p: Point)
    requires
        of_interest(p),
    ensures
        within(range_of(p), Binary64 { bits: MIN_RANGE }, Binary64 { bits: MAX_RANGE }),
{
    let xx = product(p.x, p.x);
    let yy = product(p.y, p.y);
    let squares = sum(xx, yy);
    lemma_square(p.x);
    lemma_square(p.y);
    if xx.finite() && yy.finite() {
        lemma_sum(xx, yy);
        lemma_sum_grows(zero(), xx, yy);
        lemma_sum_with_zero(yy, zero());
    }
    if squares.finite() && !squares.is_zero() {
        let n = size(squares.magnitude()) * one_in_units();
        lemma_root_exists(n);
        lemma_signed(false, nearest_root(n));
    }
}

/// The ranges gathered of a sector are as many as its points, and all within the limits.
pub(crate) proof fn lemma_ranges(points: Seq<Point>, sectors: Seq<nat>, s: nat)
    requires
        points.len() == sectors.len(),
        forall|i: int| 0 <= i < points.len() ==> of_interest(#[trigger] points[i]),
    ensures
        ranges_in(points, sectors, s).len() == population(sectors, s),
        population(sectors, s) <= points.len(),
        forall|i: int|
            0 <= i < ranges_in(points, sectors, s).len() ==> within(
                #[trigger] ranges_in(points, sectors, s)[i],
                Binary64 { bits: MIN_RANGE },
                Binary64 { bits: MAX_RANGE },
            ),
    decreases sectors.len(),
{
    if sectors.len() > 0 {
        let before = ranges_in(points.drop_last(), sectors.drop_last(), s);
        let all = ranges_in(points, sectors, s);
        lemma_ranges(points.drop_last(), sectors.drop_last(), s);
        lemma_range(points[points.len() - 1]);
        assert forall|i: int| 0 <= i < all.len() implies within(
            #[trigger] all[i],
            Binary64 { bits: MIN_RANGE },
            Binary64 { bits: MAX_RANGE },
        ) by {
            if i < before.len() {
                assert(all[i] == before[i]);
            }
        }
    }
}

/// 0.75, somewhat below the nearest range of interest.
pub const NEAREST: u64 = 0x3FE8_0000_0000_0000;

/// The sizes of the two limits: three quarters, and twenty.
proof fn lemma_limits()
    ensures
        4 * size(NEAREST as nat) == 3 * one_in_units(),
        size(MAX_RANGE as nat) == 20 * one_in_units(),
{
    let e = pow2(1021);
    lemma2_to64();
    lemma2_to64_rest();
    lemma_pow2_adds(53, 1021);
    lemma_size_over(1021, 0x18_0000_0000_0000, 1021, 1, 0x18_0000_0000_0000);
    lemma_size_over(1026, 0x14_0000_0000_0000, 1021, 32, 0x280_0000_0000_0000);
    assert(size(NEAREST as nat) == 0x18_0000_0000_0000 * e);
    assert(size(MAX_RANGE as nat) == 0x280_0000_0000_0000 * e);
    assert(one_in_units() == 0x20_0000_0000_0000 * e);
    assert(4 * (0x18_0000_0000_0000 * e) == 3 * (0x20_0000_0000_0000 * e)) by (nonlinear_arith);
    assert(0x280_0000_0000_0000 * e == 20 * (0x20_0000_0000_0000 * e)) by (nonlinear_arith);
}

/// `k` times three quarters, as a double.
proof fn lemma_quarters(k: nat) -> (p: nat)
    requires
        k < 0x1_0000_0000_0000,
    ensures
        size(p) == k * size(NEAREST as nat),
        p < INFINITY,
{
    let e = pow2(1072);
    let p = lemma_short_is_exact(3 * k, 1072);
    lemma_limits();
    lemma2_to64();
    lemma_pow2_adds(2, 1072);
    lemma_pow2_pos(1072);
    assert((3 * k) * e == k * size(NEAREST as nat)) by (nonlinear_arith)
        requires
            4 * size(NEAREST as nat) == 3 * (4 * e),
    ;
    lemma_whole_is_exact(k);
    lemma_size_order(from_whole(k).magnitude(), p);
    assert((3 * k) * e <= k * (4 * e)) by (nonlinear_arith)
        requires
            e > 0,
            k >= 0,
    ;
    p
}

/// A sum of ranges lies between as many times 0.75 and as many times 20.
proof fn lemma_total(s: Seq<Binary64>)
    requires
        0 < s.len() < 0x1_0000_0000_0000,
        forall|i: int|
            0 <= i < s.len() ==> within(
                #[trigger] s[i],
                Binary64 { bits: MIN_RANGE },
                Binary64 { bits: MAX_RANGE },
            ),
    ensures
        total_of(s).finite(),
        !total_of(s).negative(),
        s.len() * size(NEAREST as nat) <= size(total_of(s).magnitude()) <= s.len() * size(MAX_RANGE as nat),
    decreases s.len(),
{
    let low = size(NEAREST as nat);
    let high = size(MAX_RANGE as nat);
    let k = s.len();
    let last = s[k - 1];
    let one = one_in_units();
    lemma_size_order(NEAREST as nat, last.magnitude());
    lemma_size_order(last.magnitude(), MAX_RANGE as nat);
    if k > 1 {
        let before = total_of(s.drop_last());
        lemma_total(s.drop_last());
        assert(within(last, Binary64 { bits: MIN_RANGE }, Binary64 { bits: MAX_RANGE }));
        lemma_sum(before, last);
        let v = before.units() + last.units();
        let total = total_of(s);
        lemma_limits();
        // both bounds are doubles
        let bottom = Binary64 { bits: lemma_quarters(k) as u64 };
        let top = from_whole(20 * k);
        lemma_whole_is_exact(20 * k);
        assert((20 * k) * one == k * high && (k - 1) * low + low == k * low && (k - 1) * high + high == k * high && k
            * low > 0) by (nonlinear_arith)
            requires
                high == 20 * one,
                4 * low == 3 * one,
                one > 0,
                k > 0,
        {
            assert(low > 0);
        }
        lemma_size_of_one();
        lemma_rank_keeps_order(bottom.units(), v);
        lemma_rank_keeps_order(v, top.units());
        lemma_rank_of_double(bottom);
        lemma_rank_of_double(top);
        lemma_size_positive(bottom.magnitude());
        lemma_size_order(total.magnitude(), bottom.magnitude());
        lemma_size_order(top.magnitude(), total.magnitude());
    } else {
        assert(1 * low == low && 1 * high == high);
    }
}

/// A sum of ranges is at least as many times 0.8, less one part in 2^53 for each
/// addition.
proof fn lemma_total_low(s: Seq<Binary64>)
    requires
        0 < s.len() < 0x1_0000_0000_0000,
        forall|i: int|
            0 <= i < s.len() ==> within(
                #[trigger] s[i],
                Binary64 { bits: MIN_RANGE },
                Binary64 { bits: MAX_RANGE },
            ),
    ensures
        (2 * BINADE) * size(total_of(s).magnitude()) >= (s.len() * size(MIN_RANGE as nat)) * (2 * BINADE + 1 - s.len()),
    decreases s.len(),
{
    let u = 2 * BINADE as int;
    let low = size(MIN_RANGE as nat) as int;
    let k = s.len() as int;
    let last = s[k - 1];
    lemma_size_order(last.magnitude(), MIN_RANGE as nat);
    if k > 1 {
        let before = total_of(s.drop_last());
        let rest = s.drop_last();
        assert forall|i: int| 0 <= i < rest.len() implies within(
            #[trigger] rest[i],
            Binary64 { bits: MIN_RANGE },
            Binary64 { bits: MAX_RANGE },
        ) by {
            assert(rest[i] == s[i]);
        }
        lemma_total_low(rest);
        lemma_total(rest);
        lemma_total(s);
        assert(within(last, Binary64 { bits: MIN_RANGE }, Binary64 { bits: MAX_RANGE }));
        let b = size(before.magnitude()) as int;
        let l = size(last.magnitude()) as int;
        let v = (b + l) as nat;
        lemma_size_of(1021, 0x19_9999_9999_999A);
        lemma2_to64();
        lemma_pow2_pos(1021);
        assert(low >= BINADE) by (nonlinear_arith)
            requires
                low == 0x19_9999_9999_999A * pow2(1021),
                pow2(1021) >= 1,
        ;
        lemma_size_order(MAX_RANGE as nat, last.magnitude());
        lemma_v_is_finite(k as nat, v, b as nat, l as nat);
        lemma_relative_error(v, 1);
        lemma_nearest_exists(v, 1);
        let t = size(total_of(s).magnitude()) as int;
        assert(t == size(nearest(v, 1)));
        assert(u * (t * 1) >= u * v - v);
        assert(u * t >= (k * low) * (u + 1 - k)) by (nonlinear_arith)
            requires
                u * t >= u * (b + l) - (b + l),
                u * b >= ((k - 1) * low) * (u + 1 - (k - 1)),
                l >= low > 0,
                2 <= k < u,
                u > 0,
        {
            let v = b + l;
            let m = u + 2 - k;
            // u v >= k low m
            assert(u * l >= low * m);
            assert(((k - 1) * low) * m + low * m == (k * low) * m);
            assert(u * v >= (k * low) * m);
            // u t >= v (u - 1)
            assert(u * t >= v * (u - 1));
            assert(u * (u * t) >= (u * v) * (u - 1));
            assert((u * v) * (u - 1) >= ((k * low) * m) * (u - 1));
            assert(m * (u - 1) == u * (u + 1 - k) + (k - 2));
            assert(k * low > 0);
            assert(((k * low) * m) * (u - 1) == (k * low) * (m * (u - 1)));
            assert((k * low) * (m * (u - 1)) >= (k * low) * (u * (u + 1 - k)));
            assert((k * low) * (u * (u + 1 - k)) == u * ((k * low) * (u + 1 - k)));
            assert(u * (u * t) >= u * ((k * low) * (u + 1 - k)));
        }
    } else {
        assert(u * size(last.magnitude()) >= (1 * low) * u) by (nonlinear_arith)
            requires
                size(last.magnitude()) >= low,
                u > 0,
        ;
    }
}

/// A sum of ranges does not overflow.
proof fn lemma_v_is_finite(k: nat, v: nat, b: nat, l: nat)
    requires
        1 < k < 0x1_0000_0000_0000,
        v == b + l,
        b <= (k - 1) * size(MAX_RANGE as nat),
        l <= size(MAX_RANGE as nat),
    ensures
        v < size(INFINITY as nat),
{
    let one = one_in_units();
    lemma_limits();
    lemma_whole_is_exact(20 * k);
    assert(v <= (20 * k) * one) by (nonlinear_arith)
        requires
            v == b + l,
            b <= (k - 1) * (20 * one),
            l <= 20 * one,
    ;
    lemma_size_order(from_whole(20 * k).magnitude(), INFINITY as nat);
}

/// The distance of a detected person is at most 20 m, and at least 0.8 m less one part in
/// 2^53 for each point; so it is never less than 0.75 m.
pub proof fn law_detected_person_is_in_range(points: Seq<Point>, bearings: Seq<Binary64>)
    requires
        points.len() == bearings.len(),
        points.len() < 0x1_0000_0000_0000,
        forall|i: int| 0 <= i < points.len() ==> of_interest(#[trigger] points[i]),
        detection(points, bearings) is Some,
    ensures
        within(detection(points, bearings).unwrap().0, Binary64 { bits: NEAREST }, Binary64 { bits: MAX_RANGE }),
        (2 * BINADE) * detection(points, bearings).unwrap().0.units() >= (2 * BINADE - points.len()) * (Binary64 {
            bits: MIN_RANGE,
        }).units(),
{
    let sectors = sectors_of(bearings);
    let i = choose|i: int| opens_best(points, sectors, i);
    let s = sectors[i];
    let ranges = ranges_in(points, sectors, s);
    let k = population(sectors, s);
    let one = one_in_units();
    lemma_ranges(points, sectors, s);
    lemma_total(ranges);
    lemma_total_low(ranges);
    lemma_whole_is_exact(k);
    lemma_size_of_one();
    let total = total_of(ranges);
    let d = k * one;
    let low = size(NEAREST as nat);
    let high = size(MAX_RANGE as nat);
    let t = size(total.magnitude());
    let n = t * one;
    assert(d > 0 && (low * d) * d <= n * d && n * d <= (high * d) * d && low * d <= n && n <= high * d)
        by (nonlinear_arith)
        requires
            d == k * one,
            k > 0,
            one > 0,
            n == t * one,
            k * low <= t <= k * high,
    {
        assert(d > 0);
        assert((k * low) * one <= n && n <= (k * high) * one);
        assert((k * low) * one == low * d && (k * high) * one == high * d);
    }
    lemma_size_positive(from_whole(k).magnitude());
    lemma_quotient(total, from_whole(k));
    lemma_nearest_keeps_order(low * d, d, n, d);
    lemma_nearest_keeps_order(n, d, high * d, d);
    lemma_nearest_keeps(NEAREST as nat, d);
    lemma_nearest_keeps(MAX_RANGE as nat, d);
    // the mean, compared with the nearest range of interest
    lemma_size_order(MAX_RANGE as nat, INFINITY as nat);
    lemma_size_of(1021, 0x18_0000_0000_0000);
    lemma_pow2_pos(1021);
    assert(BINADE * d <= n && n < size(INFINITY as nat) * d) by (nonlinear_arith)
        requires
            low * d <= n <= high * d,
            low == 0x18_0000_0000_0000 * pow2(1021),
            pow2(1021) >= 1,
            high < size(INFINITY as nat),
            d > 0,
    ;
    lemma_relative_error(n, d);
    lemma_mean_low(
        size(nearest(n, d)) as int,
        t as int,
        k as int,
        size(MIN_RANGE as nat) as int,
        one as int,
        2 * BINADE as int,
        points.len() as int,
    );
}

/// A mean `m` of `k` ranges with the sum `t`.
proof fn lemma_mean_low(m: int, t: int, k: int, low: int, one: int, u: int, n: int)
    requires
        0 < k <= n < u,
        one > 0,
        low >= 0,
        u * (t * one) <= u * (m * (k * one)) + t * one,
        u * t >= (k * low) * (u + 1 - k),
    ensures
        u * m >= (u - n) * low,
{
    assert(u * (m * k) >= (u - 1) * t) by (nonlinear_arith)
        requires
            u * (t * one) <= u * (m * (k * one)) + t * one,
            one > 0,
    {
        assert((u * (m * k)) * one >= ((u - 1) * t) * one);
    }
    assert(u * m >= low * (u - k)) by (nonlinear_arith)
        requires
            u * (m * k) >= (u - 1) * t,
            u * t >= (k * low) * (u + 1 - k),
            0 < k < u,
            low >= 0,
    {
        assert(u * (u * (m * k)) >= (u - 1) * (u * t));
        assert((u - 1) * (u * t) >= (u - 1) * ((k * low) * (u + 1 - k)));
        assert((u - 1) * (u + 1 - k) == u * (u - k) + (k - 1));
        assert((u - 1) * ((k * low) * (u + 1 - k)) == (k * low) * ((u - 1) * (u + 1 - k)));
        assert(k * low >= 0);
        assert((k * low) * ((u - 1) * (u + 1 - k)) >= (k * low) * (u * (u - k)));
        assert(u * (u * (m * k)) == (k * u) * (u * m));
        assert((k * low) * (u * (u - k)) == (k * u) * (low * (u - k)));
        assert(k * u > 0);
    }
    assert((u - n) * low <= low * (u - k)) by (nonlinear_arith)
        requires
            k <= n,
            low >= 0,
    ;
}

} // verus!
