//! Which cluster is reported.

use vstd::prelude::*;
use vstd::arithmetic::power2::{lemma2_to64, pow2};
use crate::binary64::arithmetic::{difference, lemma_size_positive, opposite, quotient, sum};
use crate::binary64::convert::{from_whole, one_in_units};
use crate::binary64::facts::{lemma_opposite, lemma_size_over, lemma_units_order, lemma_whole_is_exact, within};
use crate::binary64::model::{lemma_size_order, lemma_size_small, size, Binary64};
use crate::binary64::nearness::{
    close, grain, lemma_bounded_quotient, lemma_bounded_sum, lemma_cancel, lemma_grain, moderate,
};
use crate::decimals::{is_decimal, law_lidar_decimals};
use crate::geometry::zero;
use crate::lidar::laws::lemma_ranges;
use crate::lidar::{
    bounds_of, detection, height_of, of_interest, opens_best, opens_person, opens_sector, person_sized, points_in,
    population, range_of, ranges_in, sector_of, sectors_of, sized_like_a_person, total_of, width_of, Bounds, Point,
    MAX_HEIGHT, MAX_RANGE, MAX_WIDTH, MIN_HEIGHT, MIN_RANGE, MIN_WIDTH, PI, SECTOR_WIDTH,
};

verus! {

/// A sector is a slice of ten degrees, counted from straight behind to the right: the
/// eighteenth part of pi, up to rounding.
pub proof fn law_sectors(bearing: Binary64)
    requires
        bearing.finite(),
        -(Binary64 { bits: PI }).units() <= bearing.units() <= (Binary64 { bits: PI }).units(),
    ensures
        ({
            let width = (Binary64 { bits: SECTOR_WIDTH }).units();
            let pi = (Binary64 { bits: PI }).units();
            let s = sector_of(bearing);
            &&& close(18 * width, pi, grain() as int)
            &&& s * width <= bearing.units() + pi + 100 * grain()
            &&& bearing.units() + pi < (s + 1) * width + 100 * grain()
        }),
{
    let w = Binary64 { bits: SECTOR_WIDTH };
    let pi = Binary64 { bits: PI };
    let one = one_in_units() as int;
    let g = grain() as int;
    lemma_grain();
    lemma2_to64();
    lemma_size_over(1019, 0x16_5718_4AE7_4487, 1019, 1, 0x16_5718_4AE7_4487);
    lemma_size_over(1023, 0x19_21FB_5444_2D18, 1019, 16, 0x192_1FB5_4442_D180);
    vstd::arithmetic::power2::lemma_pow2_adds(2, 1019);
    let e = pow2(1019) as int;
    assert(g == 4 * e);
    let x = w.units();
    let y = pi.units();
    assert(18 * x == y - 2 * e && 7 * x > one && y < 4 * one && x < one && e > 0) by (nonlinear_arith)
        requires
            x == 0x16_5718_4AE7_4487 * e,
            y == 0x192_1FB5_4442_D180 * e,
            one == 0x20_0000_0000_0000 * g,
            g == 4 * e,
            g > 0,
    ;
    lemma_bounded_sum(bearing, pi, 8);
    assert((8 + 1) * grain() == 9 * grain()) by (nonlinear_arith);
    let t = sum(bearing, pi);
    let v = bearing.units() + y;
    lemma_size_small();
    lemma_units_order(zero(), t);
    crate::binary64::facts::lemma_sum(bearing, pi);
    crate::binary64::facts::lemma_rank_keeps_order(0, v);
    crate::binary64::facts::lemma_rank_of_double(zero());
    assert(t.units() >= 0);
    assert(one >= 1000000 * g) by (nonlinear_arith)
        requires
            one == 0x20_0000_0000_0000 * g,
            g > 0,
    ;
    lemma_size_positive(SECTOR_WIDTH as nat);
    lemma_bounded_quotient(t, w, 64);
    assert((64 + 1) * grain() == 65 * grain()) by (nonlinear_arith);
    let q = quotient(t, w);
    let s = sector_of(bearing);
    let n = size(q.magnitude());
    vstd::arithmetic::div_mod::lemma_fundamental_div_mod(n as int, one);
    vstd::arithmetic::div_mod::lemma_mod_bound(n as int, one);
    assert(n < 1000 * one) by (nonlinear_arith)
        requires
            n == q.units() || n == -q.units(),
            -((65 * g) * x) <= q.units() * x - t.units() * one <= (65 * g) * x,
            0 <= t.units() <= 10 * one,
            7 * x > one,
            one >= 1000000 * g,
            g > 0,
            x > 0,
    {
        assert(t.units() * one <= (10 * one) * (7 * x));
        assert((65 * g) * x <= one * x);
        assert(q.units() * x <= (71 * one) * x);
        assert(q.units() * x >= -((71 * one) * x));
        assert(q.units() <= 71 * one);
        assert(q.units() >= -(71 * one));
    }
    assert(n as int / one < 1000) by (nonlinear_arith)
        requires
            n == one * (n as int / one) + n as int % one,
            0 <= n as int % one,
            n < 1000 * one,
            one > 0,
    ;
    lemma_sector_number(q.units(), t.units(), v, x, s as int, n as int, q.negative(), g, one);
}

/// The same in numbers.
proof fn lemma_sector_number(q: int, t: int, v: int, x: int, s: int, n: int, negative: bool, g: int, one: int)
    requires
        g > 0,
        one >= 1000000 * g,
        7 * x > one,
        0 < x < one,
        0 <= t,
        n >= 0,
        close(t, v, 9 * g),
        close(q * x, t * one, (65 * g) * x),
        q == if negative { -n } else { n },
        s == (if negative { 0 } else { n / one }),
    ensures
        s * x <= v + 100 * g,
        v < (s + 1) * x + 100 * g,
{
    assert((65 * g) * x <= (65 * g) * one) by (nonlinear_arith)
        requires
            x < one,
            g > 0,
    ;
    if negative {
        assert(q * x <= 0) by (nonlinear_arith)
            requires
                q <= 0,
                x > 0,
        ;
        assert(t <= 65 * g) by (nonlinear_arith)
            requires
                t * one <= (65 * g) * one,
                one > 0,
        ;
        assert((0 + 1) * x == x && 0 * x == 0);
        assert(s * x == 0) by (nonlinear_arith)
            requires
                s == 0,
        ;
        assert((s + 1) * x == x) by (nonlinear_arith)
            requires
                s == 0,
        ;
    } else {
        vstd::arithmetic::div_mod::lemma_fundamental_div_mod(n, one);
        vstd::arithmetic::div_mod::lemma_mod_bound(n, one);
        let r = n % one;
        assert(s * x <= t + 65 * g && t <= (s + 1) * x + 65 * g) by (nonlinear_arith)
            requires
                n == one * s + r,
                0 <= r < one,
                -((65 * g) * one) <= n * x - t * one <= (65 * g) * one,
                x > 0,
                one > 0,
        {
            assert((one * s) * x <= n * x);
            assert(n * x <= (one * s + one) * x);
            assert((s * x) * one <= (t + 65 * g) * one);
            assert(t * one <= ((s + 1) * x + 65 * g) * one);
        }
    }
}

/// The positions of the points of a sector.
pub open spec fn members(sectors: Seq<nat>, sector: nat) -> Set<int> {
    Set::new(|i: int| 0 <= i < sectors.len() && sectors[i] == sector)
}

/// The population of a sector is the number of its points.
pub proof fn law_population(sectors: Seq<nat>, sector: nat)
    ensures
        members(sectors, sector).finite(),
        population(sectors, sector) == members(sectors, sector).len(),
    decreases sectors.len(),
{
    if sectors.len() == 0 {
        assert(members(sectors, sector) =~= Set::<int>::empty());
    } else {
        let rest = sectors.drop_last();
        let last = sectors.len() - 1;
        law_population(rest, sector);
        assert forall|i: int| members(sectors, sector).contains(i) <==> (members(rest, sector).contains(i) || i == last
            && sectors[last] == sector) by {
            if 0 <= i < last {
                assert(rest[i] == sectors[i]);
            }
        }
        if sectors[last] == sector {
            assert(members(sectors, sector) =~= members(rest, sector).insert(last));
        } else {
            assert(members(sectors, sector) =~= members(rest, sector));
        }
    }
}

/// Whether `places` are positions of a sector in their order.
pub open spec fn lists(sectors: Seq<nat>, sector: nat, places: Seq<int>) -> bool {
    &&& forall|k: int| 0 <= k < places.len() ==> 0 <= #[trigger] places[k] < sectors.len() && sectors[places[k]] == sector
    &&& forall|k: int, l: int| 0 <= k < l < places.len() ==> #[trigger] places[k] < #[trigger] places[l]
}

/// The points of a sector are those at its positions, in their order, and so are their ranges.
pub proof fn law_points_of_a_sector(points: Seq<Point>, sectors: Seq<nat>, sector: nat)
    requires
        points.len() == sectors.len(),
    ensures
        points_in(points, sectors, sector).len() == members(sectors, sector).len(),
        ranges_in(points, sectors, sector) == points_in(points, sectors, sector).map_values(|p: Point| range_of(p)),
        exists|places: Seq<int>|
            {
                &&& #[trigger] lists(sectors, sector, places)
                &&& points_in(points, sectors, sector) == places.map_values(|i: int| points[i])
            },
    decreases sectors.len(),
{
    law_population(sectors, sector);
    let at = |i: int| points[i];
    let range = |p: Point| range_of(p);
    if sectors.len() == 0 {
        let none = Seq::<int>::empty();
        assert(lists(sectors, sector, none));
        assert(points_in(points, sectors, sector) =~= none.map_values(at));
        assert(ranges_in(points, sectors, sector) =~= points_in(points, sectors, sector).map_values(range));
    } else {
        let rest = sectors.drop_last();
        let fewer = points.drop_last();
        let last = sectors.len() - 1;
        law_points_of_a_sector(fewer, rest, sector);
        law_population(rest, sector);
        let before = choose|places: Seq<int>|
            {
                &&& #[trigger] lists(rest, sector, places)
                &&& points_in(fewer, rest, sector) == places.map_values(|i: int| fewer[i])
            };
        assert forall|k: int| 0 <= k < before.len() implies 0 <= #[trigger] before[k] < sectors.len() && sectors[before[k]]
            == sector by {
            assert(rest[before[k]] == sectors[before[k]]);
        }
        if sectors[last] == sector {
            let places = before.push(last);
            assert(lists(sectors, sector, places));
            assert(points_in(points, sectors, sector) =~= places.map_values(at)) by {
                assert(points_in(points, sectors, sector) == points_in(fewer, rest, sector).push(points[last]));
                assert forall|k: int| 0 <= k < places.len() implies points_in(points, sectors, sector)[k] == at(places[k]) by {
                    if k < before.len() {
                        assert(points_in(fewer, rest, sector)[k] == fewer[before[k]]);
                        assert(fewer[before[k]] == points[before[k]]);
                    }
                }
            }
        } else {
            assert(lists(sectors, sector, before));
            assert(points_in(points, sectors, sector) =~= before.map_values(at)) by {
                assert forall|k: int| 0 <= k < before.len() implies points_in(points, sectors, sector)[k] == at(before[k]) by {
                    assert(points_in(fewer, rest, sector)[k] == fewer[before[k]]);
                    assert(fewer[before[k]] == points[before[k]]);
                }
            }
        }
        assert(ranges_in(points, sectors, sector) =~= points_in(points, sectors, sector).map_values(range));
    }
}

/// What is reported is the largest cluster that is sized like a person; of equally large ones
/// the one whose first point comes last.  Its bearing is that of its first point.
pub proof fn law_largest_person_is_reported(points: Seq<Point>, bearings: Seq<Binary64>)
    requires
        points.len() == bearings.len(),
        detection(points, bearings) is Some,
    ensures
        ({
            let s = sectors_of(bearings);
            exists|i: int|
                {
                    &&& 0 <= i < bearings.len()
                    &&& detection(points, bearings).unwrap().1 == #[trigger] bearings[i]
                    &&& forall|j: int| 0 <= j < i ==> #[trigger] s[j] != s[i]
                    &&& person_sized(points, s, s[i])
                    &&& population(s, s[i]) >= 3
                    &&& forall|j: int|
                        0 <= j < bearings.len() && person_sized(points, s, #[trigger] s[j]) ==> population(s, s[j])
                            <= population(s, s[i])
                    &&& forall|j: int|
                        i < j < bearings.len() && person_sized(points, s, #[trigger] s[j]) && s[j] != s[i] && (forall|k: int|
                            0 <= k < j ==> #[trigger] s[k] != s[j]) ==> population(s, s[j]) < population(s, s[i])
                    &&& detection(points, bearings).unwrap().0 == quotient(
                        total_of(ranges_in(points, s, s[i])),
                        from_whole(population(s, s[i])),
                    )
                }
        }),
{
    let s = sectors_of(bearings);
    let i = choose|i: int| opens_best(points, s, i);
    assert(opens_best(points, s, i));
    assert(bearings[i] == detection(points, bearings).unwrap().1);
    assert forall|j: int| 0 <= j < bearings.len() && person_sized(points, s, #[trigger] s[j]) implies population(s, s[j])
        <= population(s, s[i]) by {
        crate::lidar::lemma_opener(s, j);
        let o = choose|o: int| #[trigger] opens_sector(s, o) && s[o] == s[j];
        assert(opens_person(points, s, o));
    }
    assert forall|j: int|
        i < j < bearings.len() && person_sized(points, s, #[trigger] s[j]) && s[j] != s[i] && (forall|k: int|
            0 <= k < j ==> #[trigger] s[k] != s[j]) implies population(s, s[j]) < population(s, s[i]) by {
        assert(opens_person(points, s, j));
    }
}

/// The exact sum of some ranges, in units.
pub open spec fn exact_sum(s: Seq<Binary64>) -> int
    decreases s.len(),
{
    if s.len() == 0 {
        0
    } else {
        exact_sum(s.drop_last()) + s.last().units()
    }
}

/// Whether a number lies between 0 and 20.
spec fn within_twenty(a: Binary64) -> bool {
    a.finite() && 0 <= a.units() <= 20 * one_in_units()
}

/// The sum of up to 32768 ranges, up to rounding.
proof fn lemma_sum_of_ranges(s: Seq<Binary64>)
    requires
        0 < s.len() <= 0x8000,
        forall|i: int| 0 <= i < s.len() ==> within_twenty(#[trigger] s[i]),
    ensures
        total_of(s).finite(),
        0 <= exact_sum(s) <= s.len() * (20 * one_in_units()),
        close(total_of(s).units(), exact_sum(s), ((s.len() * (21 * s.len())) * grain()) as int),
    decreases s.len(),
{
    let k = s.len() as int;
    let one = one_in_units() as int;
    let g = grain() as int;
    let last = s[k - 1];
    lemma_grain();
    assert(within_twenty(last));
    if k == 1 {
        assert(exact_sum(s.drop_last()) == 0);
        assert(1 * (20 * one) == 20 * one && (1 * (21 * 1)) * g >= 0) by (nonlinear_arith)
            requires
                g > 0,
        ;
    } else {
        let rest = s.drop_last();
        assert forall|i: int| 0 <= i < rest.len() implies within_twenty(#[trigger] rest[i]) by {
            assert(rest[i] == s[i]);
        }
        lemma_sum_of_ranges(rest);
        let before = total_of(rest);
        let m = k - 1;
        let x = exact_sum(rest);
        let b = before.units();
        assert((m * (21 * m)) * g <= one && m * (20 * one) + 20 * one == k * (20 * one)) by (nonlinear_arith)
            requires
                0 < m < 0x8000,
                k == m + 1,
                one == 0x20_0000_0000_0000 * g,
                g > 0,
        {
            assert(m * (21 * m) <= 0x8000 * (21 * 0x8000));
        }
        let bound = (20 * k + 1) as nat;
        assert(close(b + last.units(), 0, bound * one)) by (nonlinear_arith)
            requires
                0 <= x <= m * (20 * one),
                -one <= b - x <= one,
                0 <= last.units() <= 20 * one,
                k == m + 1,
                bound == 20 * k + 1,
                one > 0,
        ;
        lemma_bounded_sum(before, last, bound);
        assert((m * (21 * m)) * g + (bound + 1) * g <= (k * (21 * k)) * g) by (nonlinear_arith)
            requires
                k == m + 1,
                m >= 1,
                bound == 20 * k + 1,
                g > 0,
        {
            assert(m * (21 * m) + 20 * k + 2 <= k * (21 * k));
        }
    }
}

/// The reported distance is the mean range of the points of the cluster, up to rounding.
pub proof fn law_distance_is_the_mean(points: Seq<Point>, sectors: Seq<nat>, sector: nat)
    requires
        points.len() == sectors.len(),
        forall|i: int| 0 <= i < points.len() ==> of_interest(#[trigger] points[i]),
        0 < population(sectors, sector) <= 0x8000,
    ensures
        ({
            let ranges = ranges_in(points, sectors, sector);
            let k = population(sectors, sector);
            let mean = quotient(total_of(ranges), from_whole(k));
            close(k * mean.units(), exact_sum(ranges), ((k * (21 * k + 22)) * grain()) as int)
        }),
{
    let ranges = ranges_in(points, sectors, sector);
    let k = population(sectors, sector);
    let one = one_in_units() as int;
    let g = grain() as int;
    lemma_grain();
    lemma_ranges(points, sectors, sector);
    lemma2_to64();
    lemma_size_over(1026, 0x14_0000_0000_0000, 1021, 32, 0x280_0000_0000_0000);
    assert(0x280_0000_0000_0000 * g == 20 * (0x20_0000_0000_0000 * g)) by (nonlinear_arith);
    assert forall|i: int| 0 <= i < ranges.len() implies within_twenty(#[trigger] ranges[i]) by {
        assert(within(ranges[i], Binary64 { bits: MIN_RANGE }, Binary64 { bits: MAX_RANGE }));
        lemma_size_order(MAX_RANGE as nat, ranges[i].magnitude());
    }
    lemma_sum_of_ranges(ranges);
    let total = total_of(ranges);
    lemma_whole_is_exact(k);
    let kk = k as int;
    let x = exact_sum(ranges);
    assert((kk * (21 * kk)) * g <= one && kk * one > 0 && 21 * (kk * one) >= 20 * (kk * one) + one) by (nonlinear_arith)
        requires
            0 < kk <= 0x8000,
            one == 0x20_0000_0000_0000 * g,
            g > 0,
    {
        assert(kk * (21 * kk) <= 0x8000 * (21 * 0x8000));
    }
    lemma_size_positive(from_whole(k).magnitude());
    assert(kk * (20 * one) == 20 * (kk * one)) by (nonlinear_arith);
    assert(size(total.magnitude()) <= 21 * (kk * one));
    lemma_bounded_quotient(total, from_whole(k), 21);
    let q = quotient(total, from_whole(k)).units();
    let t = total.units();
    assert((kk * q - t) * one == q * (kk * one) - t * one && ((21 + 1) * g) * (kk * one) == (22 * (kk * g)) * one) by (nonlinear_arith);
    lemma_cancel(kk * q - t, 22 * (kk * g), one);
    assert((kk * (21 * kk)) * g + 22 * (kk * g) == (kk * (21 * kk + 22)) * g) by (nonlinear_arith);
}

/// A cluster is sized like a person exactly where it is 0.3 to 0.8 m wide and 0.5 to 2 m tall.
/// Its width is the larger of its extents forward and to the left, its height its extent up.
pub proof fn law_person_size(points: Seq<Point>, sectors: Seq<nat>, sector: nat, b: Bounds)
    ensures
        person_sized(points, sectors, sector) <==> sized_like_a_person(bounds_of(points_in(points, sectors, sector))),
        sized_like_a_person(b) <==> {
            &&& within(width_of(b), Binary64 { bits: MIN_WIDTH }, Binary64 { bits: MAX_WIDTH })
            &&& within(height_of(b), Binary64 { bits: MIN_HEIGHT }, Binary64 { bits: MAX_HEIGHT })
        },
        is_decimal(MIN_WIDTH, 3, 10) && is_decimal(MAX_WIDTH, 8, 10),
        is_decimal(MIN_HEIGHT, 5, 10) && is_decimal(MAX_HEIGHT, 2, 1),
{
    law_lidar_decimals();
}

/// The extents of a cluster, up to rounding.
pub proof fn law_extents(b: Bounds)
    requires
        moderate(b.low.x, 32) && moderate(b.high.x, 32),
        moderate(b.low.y, 32) && moderate(b.high.y, 32),
        moderate(b.low.z, 32) && moderate(b.high.z, 32),
    ensures
        ({
            let dx = b.high.x.units() - b.low.x.units();
            let dy = b.high.y.units() - b.low.y.units();
            let dz = b.high.z.units() - b.low.z.units();
            &&& close(width_of(b).units(), if dx < dy { dy } else { dx }, 65 * grain() as int)
            &&& close(height_of(b).units(), dz, 65 * grain() as int)
        }),
{
    lemma_grain();
    lemma_opposite(b.low.x);
    lemma_opposite(b.low.y);
    lemma_opposite(b.low.z);
    lemma_bounded_sum(b.high.x, opposite(b.low.x), 64);
    lemma_bounded_sum(b.high.y, opposite(b.low.y), 64);
    lemma_bounded_sum(b.high.z, opposite(b.low.z), 64);
    assert((64 + 1) * grain() == 65 * grain()) by (nonlinear_arith);
    lemma_units_order(difference(b.high.x, b.low.x), difference(b.high.y, b.low.y));
}

} // verus!
