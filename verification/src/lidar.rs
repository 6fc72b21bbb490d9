//! Finding a person-sized cluster in a point cloud.

use vstd::prelude::*;
use crate::binary64::arithmetic::{difference, product, quotient, sum};
use crate::binary64::convert::{from_single, from_whole, truncated};
use crate::binary64::model::Binary64;
use crate::binary64::order::{greatest, least, less};
use crate::binary64::root::square_root;
use crate::geometry::zero;
use crate::text::same_text;

pub mod laws;
pub mod scan;
pub mod cluster;

verus! {

/// Farthest range (m) of interest: 20.
pub const MAX_RANGE: u64 = 0x4034_0000_0000_0000;

/// Nearest range (m) of interest, beyond the robot's own body: 0.8.
pub const MIN_RANGE: u64 = 0x3FE9_9999_9999_999A;

/// Height (m) below which a point belongs to the ground: 0.15.
pub const GROUND: u64 = 0x3FC3_3333_3333_3333;

/// Where (m) the band of a person's height begins: 0.3.
pub const BAND_BOTTOM: u64 = 0x3FD3_3333_3333_3333;

/// Where (m) the band of a person's height ends: 2.
pub const BAND_TOP: u64 = 0x4000_0000_0000_0000;

/// The narrowest (m) person: 0.3.
pub const MIN_WIDTH: u64 = 0x3FD3_3333_3333_3333;

/// The widest (m) person: 0.8.
pub const MAX_WIDTH: u64 = 0x3FE9_9999_9999_999A;

/// The shortest (m) person: 0.5.
pub const MIN_HEIGHT: u64 = 0x3FE0_0000_0000_0000;

/// The tallest (m) person: 2.
pub const MAX_HEIGHT: u64 = 0x4000_0000_0000_0000;

/// The double nearest to pi.
pub const PI: u64 = 0x4009_21FB_5444_2D18;

/// The width (rad) of a bearing sector, ten degrees.
pub const SECTOR_WIDTH: u64 = 0x3FC6_5718_4AE7_4487;

/// How many points a sector needs to count as a detection.
pub const MIN_CLUSTER: usize = 3;

/// Where a channel lies within a point.
#[derive(Debug)]
pub struct PointField {
    pub name: String,
    pub offset: u32,
}

/// A point cloud as the sensor sends it.
#[derive(Debug)]
pub struct PointCloud {
    pub fields: Vec<PointField>,
    /// Bytes per point.
    pub point_step: u32,
    pub data: Vec<u8>,
}

/// A point (m): forward, left and up from the sensor.
#[derive(Clone, Copy, Debug, PartialEq, Eq, Structural)]
pub struct Point {
    pub x: Binary64,
    pub y: Binary64,
    pub z: Binary64,
}

/// The offset of the last field with a name, or a default.
pub open spec fn offset_of(fields: Seq<PointField>, name: Seq<char>, default: nat) -> nat
    decreases fields.len(),
{
    if fields.len() == 0 {
        default
    } else if fields.last().name@ == name {
        fields.last().offset as nat
    } else {
        offset_of(fields.drop_last(), name, default)
    }
}

/// The single-precision number that starts at byte `at`, low byte first.
pub open spec fn number_at(data: Seq<u8>, at: int) -> Binary64 {
    from_single(
        (data[at] + 0x100 * data[at + 1] + 0x1_0000 * data[at + 2] + 0x100_0000 * data[at + 3]) as u32,
    )
}

impl PointCloud {
    /// Where the forward coordinate lies within a point.
    pub open spec fn x_offset(self) -> nat {
        offset_of(self.fields@, "x"@, 0)
    }

    /// Where the left coordinate lies within a point.
    pub open spec fn y_offset(self) -> nat {
        offset_of(self.fields@, "y"@, 4)
    }

    /// Where the up coordinate lies within a point.
    pub open spec fn z_offset(self) -> nat {
        offset_of(self.fields@, "z"@, 8)
    }

    /// Neither without data nor without a point size.
    pub open spec fn holds_points(self) -> bool {
        self.point_step > 0 && self.data@.len() > 0
    }

    /// How many whole points the data holds.
    pub open spec fn total(self) -> nat {
        self.data@.len() / self.point_step as nat
    }

    /// Whether point `i` is whole and its height lies within the data.
    pub open spec fn has_point(self, i: int) -> bool {
        &&& 0 <= i < self.total()
        &&& i * self.point_step + self.z_offset() + 4 <= self.data@.len()
    }

    /// Whether the forward and left coordinates of every point lie within the data.
    pub open spec fn readable(self) -> bool {
        forall|i: int| #[trigger]
            self.has_point(i) ==> {
                &&& i * self.point_step + self.x_offset() + 4 <= self.data@.len()
                &&& i * self.point_step + self.y_offset() + 4 <= self.data@.len()
            }
    }

    /// Point `i`.
    pub open spec fn point(self, i: int) -> Point {
        let base = i * self.point_step;
        Point {
            x: number_at(self.data@, base + self.x_offset()),
            y: number_at(self.data@, base + self.y_offset()),
            z: number_at(self.data@, base + self.z_offset()),
        }
    }

    /// The points of interest among the first `n`, in their order.
    pub open spec fn points_of_interest(self, n: nat) -> Seq<Point>
        decreases n,
    {
        if n == 0 {
            Seq::empty()
        } else {
            let before = self.points_of_interest((n - 1) as nat);
            let p = self.point(n - 1);
            if self.has_point(n - 1) && of_interest(p) {
                before.push(p)
            } else {
                before
            }
        }
    }
}

/// The distance of a point along the ground.
pub open spec fn range_of(p: Point) -> Binary64 {
    square_root(sum(product(p.x, p.x), product(p.y, p.y)))
}

/// Whether a point may belong to a person: not behind, neither too near nor too far, not
/// on the ground and within the band of a person's height.
pub open spec fn of_interest(p: Point) -> bool {
    &&& !p.x.is_nan_spec() && !p.y.is_nan_spec() && !p.z.is_nan_spec()
    &&& !less(Binary64 { bits: MAX_RANGE }, range_of(p))
    &&& !less(range_of(p), Binary64 { bits: MIN_RANGE })
    &&& !less(p.x, zero())
    &&& !less(p.z, Binary64 { bits: GROUND })
    &&& !less(p.z, Binary64 { bits: BAND_BOTTOM })
    &&& !less(Binary64 { bits: BAND_TOP }, p.z)
}

/// The offset of the last field with a name, or a default.
fn find_offset(fields: &Vec<PointField>, name: &str, default: u32) -> (r: u32)
    ensures
        r == offset_of(fields@, name@, default as nat),
{
    let mut found: u32 = default;
    let mut i: usize = 0;
    while i < fields.len()
        invariant
            i <= fields@.len(),
            found == offset_of(fields@.take(i as int), name@, default as nat),
        decreases fields@.len() - i,
    {
        proof {
            assert(fields@.take(i + 1).drop_last() == fields@.take(i as int));
        }
        if same_text(fields[i].name.as_str(), name) {
            found = fields[i].offset;
        }
        i = i + 1;
    }
    assert(fields@.take(i as int) == fields@);
    found
}

/// The single-precision number that starts at byte `at`.
fn read_number(data: &Vec<u8>, at: usize) -> (r: Binary64)
    requires
        at + 4 <= data.len(),
    ensures
        r == number_at(data@, at as int),
{
    let bits: u32 = data[at] as u32 + 0x100 * data[at + 1] as u32 + 0x1_0000 * data[at + 2] as u32 + 0x100_0000
        * data[at + 3] as u32;
    Binary64::from_single_bits(bits)
}

impl Point {
    /// The distance along the ground.
    pub fn range(&self) -> (r: Binary64)
        ensures
            r == range_of(*self),
    {
        self.x.times(self.x).plus(self.y.times(self.y)).sqrt()
    }

    /// Whether the point may belong to a person.
    pub fn is_of_interest(&self) -> (r: bool)
        ensures
            r == of_interest(*self),
    {
        if self.x.is_nan() || self.y.is_nan() || self.z.is_nan() {
            return false;
        }
        let range: Binary64 = self.range();
        if range.gt(Binary64::from_bits(MAX_RANGE)) || range.lt(Binary64::from_bits(MIN_RANGE)) || self.x.lt(
            Binary64::from_bits(0),
        ) {
            return false;
        }
        if self.z.lt(Binary64::from_bits(GROUND)) {
            return false;
        }
        !(self.z.lt(Binary64::from_bits(BAND_BOTTOM)) || self.z.gt(Binary64::from_bits(BAND_TOP)))
    }
}

/// A point that is not whole has none behind it that is.
proof fn lemma_points_end(msg: PointCloud, i: int, n: nat)
    requires
        0 <= i <= n,
        !msg.has_point(i),
    ensures
        msg.points_of_interest(n) == msg.points_of_interest(i as nat),
    decreases n - i,
{
    if i < n {
        lemma_points_end(msg, i, (n - 1) as nat);
        assert(i * msg.point_step <= (n - 1) * msg.point_step) by (nonlinear_arith)
            requires
                i <= n - 1,
        ;
    }
}

/// The points of a cloud that may belong to a person.
pub fn person_points(msg: &PointCloud) -> (r: Vec<Point>)
    requires
        msg.holds_points(),
        msg.readable(),
    ensures
        r@ == msg.points_of_interest(msg.total()),
{
    let step: usize = msg.point_step as usize;
    let x_off: u32 = find_offset(&msg.fields, "x", 0);
    let y_off: u32 = find_offset(&msg.fields, "y", 4);
    let z_off: u32 = find_offset(&msg.fields, "z", 8);
    let len: usize = msg.data.len();
    let total: usize = len / step;
    let mut points: Vec<Point> = Vec::new();
    let mut i: usize = 0;
    while i < total
        invariant
            msg.holds_points(),
            msg.readable(),
            step == msg.point_step,
            x_off == msg.x_offset(),
            y_off == msg.y_offset(),
            z_off == msg.z_offset(),
            len == msg.data@.len(),
            total == msg.total(),
            i <= total,
            points@ == msg.points_of_interest(i as nat),
        ensures
            points@ == msg.points_of_interest(total as nat),
        decreases total - i,
    {
        proof {
            vstd::arithmetic::div_mod::lemma_fundamental_div_mod(len as int, step as int);
            assert(i * step <= len) by (nonlinear_arith)
                requires
                    i < total,
                    step * total <= len,
                    step > 0,
            ;
        }
        let base: usize = i * step;
        if base as u128 + z_off as u128 + 4 > len as u128 {
            proof {
                assert(!msg.has_point(i as int));
                lemma_points_end(*msg, i as int, total as nat);
            }
            break;
        }
        assert(msg.has_point(i as int));
        let point: Point = Point {
            x: read_number(&msg.data, base + x_off as usize),
            y: read_number(&msg.data, base + y_off as usize),
            z: read_number(&msg.data, base + z_off as usize),
        };
        if point.is_of_interest() {
            points.push(point);
        }
        i = i + 1;
    }
    points
}

/// The sector of a bearing.
pub open spec fn sector_of(bearing: Binary64) -> nat {
    truncated(quotient(sum(bearing, Binary64 { bits: PI }), Binary64 { bits: SECTOR_WIDTH }))
}

/// The sectors of a list of bearings.
pub open spec fn sectors_of(bearings: Seq<Binary64>) -> Seq<nat> {
    bearings.map_values(|b: Binary64| sector_of(b))
}

/// The ranges of the points that lie in a sector, in their order.
pub open spec fn ranges_in(points: Seq<Point>, sectors: Seq<nat>, sector: nat) -> Seq<Binary64>
    decreases sectors.len(),
{
    if sectors.len() == 0 {
        Seq::empty()
    } else {
        let before = ranges_in(points.drop_last(), sectors.drop_last(), sector);
        if sectors.last() == sector {
            before.push(range_of(points.last()))
        } else {
            before
        }
    }
}

/// The points that lie in a sector, in their order.
pub open spec fn points_in(points: Seq<Point>, sectors: Seq<nat>, sector: nat) -> Seq<Point>
    decreases sectors.len(),
{
    if sectors.len() == 0 {
        Seq::empty()
    } else {
        let before = points_in(points.drop_last(), sectors.drop_last(), sector);
        if sectors.last() == sector {
            before.push(points.last())
        } else {
            before
        }
    }
}

/// The smallest and the largest coordinates of some points.
#[derive(Clone, Copy, Debug, PartialEq, Eq, Structural)]
pub struct Bounds {
    pub low: Point,
    pub high: Point,
}

/// The bounds of one point.
pub open spec fn bounds_of_one(p: Point) -> Bounds {
    Bounds { low: p, high: p }
}

/// Bounds that take in one more point.
pub open spec fn widened(b: Bounds, p: Point) -> Bounds {
    Bounds {
        low: Point { x: least(b.low.x, p.x), y: least(b.low.y, p.y), z: least(b.low.z, p.z) },
        high: Point { x: greatest(b.high.x, p.x), y: greatest(b.high.y, p.y), z: greatest(b.high.z, p.z) },
    }
}

/// The bounds of a list of points.
pub open spec fn bounds_of(points: Seq<Point>) -> Bounds
    decreases points.len(),
{
    if points.len() <= 1 {
        bounds_of_one(points[0])
    } else {
        widened(bounds_of(points.drop_last()), points.last())
    }
}

/// The width of what lies within bounds: the larger of its extents along the ground,
/// forward and to the left.
pub open spec fn width_of(b: Bounds) -> Binary64 {
    greatest(difference(b.high.x, b.low.x), difference(b.high.y, b.low.y))
}

/// The height of what lies within bounds.
pub open spec fn height_of(b: Bounds) -> Binary64 {
    difference(b.high.z, b.low.z)
}

/// Whether a length is a number from `low` to `high`.
pub open spec fn measures(length: Binary64, low: u64, high: u64) -> bool {
    &&& !length.is_nan_spec()
    &&& !less(length, Binary64 { bits: low })
    &&& !less(Binary64 { bits: high }, length)
}

/// Whether what lies within bounds is as wide and as tall as a person.
pub open spec fn sized_like_a_person(b: Bounds) -> bool {
    measures(width_of(b), MIN_WIDTH, MAX_WIDTH) && measures(height_of(b), MIN_HEIGHT, MAX_HEIGHT)
}

/// Whether the points of a sector are together as wide and as tall as a person.
pub open spec fn person_sized(points: Seq<Point>, sectors: Seq<nat>, sector: nat) -> bool {
    sized_like_a_person(bounds_of(points_in(points, sectors, sector)))
}

/// How often a sector occurs.
pub open spec fn population(sectors: Seq<nat>, sector: nat) -> nat
    decreases sectors.len(),
{
    if sectors.len() == 0 {
        0
    } else {
        population(sectors.drop_last(), sector) + if sectors.last() == sector { 1nat } else { 0nat }
    }
}

/// The sum of a list, added up from its first element.
pub open spec fn total_of(s: Seq<Binary64>) -> Binary64
    decreases s.len(),
{
    if s.len() <= 1 {
        s[0]
    } else {
        sum(total_of(s.drop_last()), s.last())
    }
}

/// Whether position `i` is the first in its sector.
pub open spec fn opens_sector(sectors: Seq<nat>, i: int) -> bool {
    &&& 0 <= i < sectors.len()
    &&& forall|j: int| 0 <= j < i ==> #[trigger] sectors[j] != sectors[i]
}

/// Whether position `i` opens a sector whose points are sized like a person.
pub open spec fn opens_person(points: Seq<Point>, sectors: Seq<nat>, i: int) -> bool {
    opens_sector(sectors, i) && person_sized(points, sectors, sectors[i])
}

/// Whether position `i` opens the most populous sector that is sized like a person; of
/// several, the one that was opened last.
pub open spec fn opens_best(points: Seq<Point>, sectors: Seq<nat>, i: int) -> bool {
    &&& opens_person(points, sectors, i)
    &&& forall|j: int| #[trigger]
        opens_person(points, sectors, j) ==> {
            ||| population(sectors, sectors[j]) < population(sectors, sectors[i])
            ||| population(sectors, sectors[j]) == population(sectors, sectors[i]) && j <= i
        }
}

/// What the best sector says: the mean range of its points and the bearing of its first
/// point, if there is one with enough points.
pub open spec fn detection(points: Seq<Point>, bearings: Seq<Binary64>) -> Option<(Binary64, Binary64)> {
    let sectors = sectors_of(bearings);
    let i = choose|i: int| opens_best(points, sectors, i);
    let count = population(sectors, sectors[i]);
    if !opens_best(points, sectors, i) || count < MIN_CLUSTER {
        None
    } else {
        Some((quotient(total_of(ranges_in(points, sectors, sectors[i])), from_whole(count)), bearings[i]))
    }
}

/// There is one best sector only.
pub proof fn lemma_one_best(points: Seq<Point>, sectors: Seq<nat>, i: int, j: int)
    requires
        opens_best(points, sectors, i),
        opens_best(points, sectors, j),
    ensures
        i == j,
{
}

/// What is gathered of one sector.
struct Sector {
    index: u64,
    range_total: Binary64,
    bearing: Binary64,
    count: usize,
    bounds: Bounds,
}

impl Bounds {
    /// The bounds of one point.
    fn of_one(p: Point) -> (r: Bounds)
        ensures
            r == bounds_of_one(p),
    {
        Bounds { low: p, high: p }
    }

    /// Bounds that take in one more point.
    fn widen(self, p: Point) -> (r: Bounds)
        ensures
            r == widened(self, p),
    {
        Bounds {
            low: Point { x: self.low.x.min(p.x), y: self.low.y.min(p.y), z: self.low.z.min(p.z) },
            high: Point { x: self.high.x.max(p.x), y: self.high.y.max(p.y), z: self.high.z.max(p.z) },
        }
    }

    /// Whether what lies within is as wide and as tall as a person.
    pub fn is_sized_like_a_person(&self) -> (r: bool)
        ensures
            r == sized_like_a_person(*self),
    {
        let width: Binary64 = self.high.x.minus(self.low.x).max(self.high.y.minus(self.low.y));
        let height: Binary64 = self.high.z.minus(self.low.z);
        measures_between(width, MIN_WIDTH, MAX_WIDTH) && measures_between(height, MIN_HEIGHT, MAX_HEIGHT)
    }
}

/// Whether a length is a number from `low` to `high`.
fn measures_between(length: Binary64, low: u64, high: u64) -> (r: bool)
    ensures
        r == measures(length, low, high),
{
    !length.is_nan() && !length.lt(Binary64::from_bits(low)) && !length.gt(Binary64::from_bits(high))
}

/// The number of a bearing's sector.
pub fn sector_index(bearing: Binary64) -> (r: u64)
    ensures
        r == sector_of(bearing),
{
    bearing.plus(Binary64::from_bits(PI)).over(Binary64::from_bits(SECTOR_WIDTH)).to_u64()
}

/// What is known of the sectors found among the first points: `opened` holds the
/// position that opened each of them.
spec fn gathered(found: Seq<Sector>, opened: Seq<int>, points: Seq<Point>, bearings: Seq<Binary64>) -> bool {
    let sectors = sectors_of(bearings);
    &&& found.len() == opened.len()
    &&& forall|a: int| 0 <= a < found.len() ==> #[trigger] opens_sector(sectors, opened[a])
    &&& forall|a: int, b: int| 0 <= a < b < opened.len() ==> #[trigger] opened[a] < #[trigger] opened[b]
    &&& forall|a: int|
        0 <= a < found.len() ==> {
            let s = sectors[opened[a]];
            &&& (#[trigger] found[a]).index == s
            &&& found[a].bearing == bearings[opened[a]]
            &&& found[a].count == population(sectors, s)
            &&& found[a].range_total == total_of(ranges_in(points, sectors, s))
            &&& found[a].bounds == bounds_of(points_in(points, sectors, s))
            &&& points_in(points, sectors, s).len() == found[a].count
            &&& found[a].count > 0
            &&& ranges_in(points, sectors, s).len() == found[a].count
        }
    &&& forall|i: int| #[trigger] opens_sector(sectors, i) ==> opened.contains(i)
}

/// One more point adds to its own sector and to no other.
proof fn lemma_one_more(points: Seq<Point>, sectors: Seq<nat>, p: Point, k: nat, s: nat)
    requires
        points.len() == sectors.len(),
    ensures
        population(sectors.push(k), s) == population(sectors, s) + if s == k { 1nat } else { 0nat },
        ranges_in(points.push(p), sectors.push(k), s) == if s == k {
            ranges_in(points, sectors, s).push(range_of(p))
        } else {
            ranges_in(points, sectors, s)
        },
        points_in(points.push(p), sectors.push(k), s) == if s == k {
            points_in(points, sectors, s).push(p)
        } else {
            points_in(points, sectors, s)
        },
{
    assert(points.push(p).drop_last() == points);
    assert(sectors.push(k).drop_last() == sectors);
}

/// A sector that does not occur has no points.
pub(crate) proof fn lemma_empty_sector(points: Seq<Point>, sectors: Seq<nat>, s: nat)
    requires
        points.len() == sectors.len(),
        forall|i: int| 0 <= i < sectors.len() ==> #[trigger] sectors[i] != s,
    ensures
        population(sectors, s) == 0,
        ranges_in(points, sectors, s).len() == 0,
        points_in(points, sectors, s).len() == 0,
    decreases sectors.len(),
{
    if sectors.len() > 0 {
        lemma_empty_sector(points.drop_last(), sectors.drop_last(), s);
    }
}

/// Nothing occurs more often than there are places.
proof fn lemma_population_bound(sectors: Seq<nat>, s: nat)
    ensures
        population(sectors, s) <= sectors.len(),
    decreases sectors.len(),
{
    if sectors.len() > 0 {
        lemma_population_bound(sectors.drop_last(), s);
    }
}

/// The sector of every point was opened by some point.
pub(crate) proof fn lemma_opener(sectors: Seq<nat>, j: int)
    requires
        0 <= j < sectors.len(),
    ensures
        exists|i: int| #[trigger] opens_sector(sectors, i) && sectors[i] == sectors[j],
    decreases j,
{
    if !opens_sector(sectors, j) {
        let i = choose|i: int| 0 <= i < j && #[trigger] sectors[i] == sectors[j];
        lemma_opener(sectors, i);
    }
}

/// Where the sector with number `k` stands among those found.
fn find_sector(found: &Vec<Sector>, k: u64) -> (r: Option<usize>)
    ensures
        r matches Some(a) ==> a < found@.len() && found@[a as int].index == k,
        r is None ==> forall|a: int| 0 <= a < found@.len() ==> (#[trigger] found@[a]).index != k,
{
    let mut a: usize = 0;
    while a < found.len()
        invariant
            a <= found@.len(),
            forall|b: int| 0 <= b < a ==> (#[trigger] found@[b]).index != k,
        decreases found@.len() - a,
    {
        if found[a].index == k {
            return Some(a);
        }
        a = a + 1;
    }
    None
}

/// One more point in a sector that was found before.
proof fn lemma_gather_known(
    found: Seq<Sector>,
    opened: Seq<int>,
    points: Seq<Point>,
    bearings: Seq<Binary64>,
    p: Point,
    b: Binary64,
    a: int,
    after: Sector,
)
    requires
        points.len() == bearings.len(),
        gathered(found, opened, points, bearings),
        0 <= a < found.len(),
        found[a].index == sector_of(b),
        after.index == found[a].index,
        after.bearing == found[a].bearing,
        after.count == found[a].count + 1,
        after.range_total == sum(found[a].range_total, range_of(p)),
        after.bounds == widened(found[a].bounds, p),
    ensures
        gathered(found.update(a, after), opened, points.push(p), bearings.push(b)),
{
    let sectors = sectors_of(bearings);
    let k = sector_of(b);
    let more = sectors.push(k);
    assert(sectors_of(bearings.push(b)) =~= more);
    assert forall|i: int| #[trigger] opens_sector(more, i) <==> opens_sector(sectors, i) by {
        assert(opens_sector(sectors, opened[a]));
        assert(more[opened[a]] == k);
        if i < sectors.len() {
            assert(forall|j: int| 0 <= j <= i ==> sectors[j] == #[trigger] more[j]);
            assert(forall|j: int| 0 <= j <= i ==> #[trigger] sectors[j] == more[j]);
        }
    }
    let result = found.update(a, after);
    assert forall|c: int| 0 <= c < result.len() implies {
        let s = more[opened[c]];
        &&& (#[trigger] result[c]).index == s
        &&& result[c].bearing == bearings.push(b)[opened[c]]
        &&& result[c].count == population(more, s)
        &&& result[c].range_total == total_of(ranges_in(points.push(p), more, s))
        &&& result[c].bounds == bounds_of(points_in(points.push(p), more, s))
        &&& points_in(points.push(p), more, s).len() == result[c].count
        &&& result[c].count > 0
        &&& ranges_in(points.push(p), more, s).len() == result[c].count
    } by {
        assert(found[c].index == sectors[opened[c]]);
        assert(opens_sector(sectors, opened[c]));
        let s = sectors[opened[c]];
        lemma_one_more(points, sectors, p, k, s);
        if c == a {
            let old_ranges = ranges_in(points, sectors, s);
            assert(old_ranges.push(range_of(p)).drop_last() == old_ranges);
            let old_points = points_in(points, sectors, s);
            assert(old_points.push(p).drop_last() == old_points);
        } else {
            assert(opens_sector(sectors, opened[a]));
            if c < a {
                assert(opened[c] < opened[a]);
            } else {
                assert(opened[a] < opened[c]);
            }
            assert(s != k);
        }
    }
}

/// One more point that opens a sector.
proof fn lemma_gather_new(
    found: Seq<Sector>,
    opened: Seq<int>,
    points: Seq<Point>,
    bearings: Seq<Binary64>,
    p: Point,
    b: Binary64,
    after: Sector,
)
    requires
        points.len() == bearings.len(),
        gathered(found, opened, points, bearings),
        forall|a: int| 0 <= a < found.len() ==> (#[trigger] found[a]).index != sector_of(b),
        after.index == sector_of(b),
        after.bearing == b,
        after.count == 1,
        after.range_total == range_of(p),
        after.bounds == bounds_of_one(p),
    ensures
        gathered(found.push(after), opened.push(bearings.len() as int), points.push(p), bearings.push(b)),
{
    let sectors = sectors_of(bearings);
    let k = sector_of(b);
    let n = sectors.len() as int;
    let more = sectors.push(k);
    assert(sectors_of(bearings.push(b)) =~= more);
    assert forall|j: int| 0 <= j < sectors.len() implies #[trigger] sectors[j] != k by {
        lemma_opener(sectors, j);
        let i = choose|i: int| #[trigger] opens_sector(sectors, i) && sectors[i] == sectors[j];
        assert(opened.contains(i));
        let a = choose|a: int| 0 <= a < opened.len() && opened[a] == i;
        assert(found[a].index == sectors[opened[a]]);
    }
    assert forall|i: int| #[trigger] opens_sector(more, i) <==> opens_sector(sectors, i) || i == n by {
        if i < n {
            assert(forall|j: int| 0 <= j <= i ==> sectors[j] == #[trigger] more[j]);
            assert(forall|j: int| 0 <= j <= i ==> #[trigger] sectors[j] == more[j]);
        } else if i == n {
            assert(forall|j: int| 0 <= j < n ==> sectors[j] == #[trigger] more[j]);
        }
    }
    lemma_empty_sector(points, sectors, k);
    let result = found.push(after);
    let starts = opened.push(n);
    assert forall|c: int| 0 <= c < result.len() implies {
        let s = more[starts[c]];
        &&& (#[trigger] result[c]).index == s
        &&& result[c].bearing == bearings.push(b)[starts[c]]
        &&& result[c].count == population(more, s)
        &&& result[c].range_total == total_of(ranges_in(points.push(p), more, s))
        &&& result[c].bounds == bounds_of(points_in(points.push(p), more, s))
        &&& points_in(points.push(p), more, s).len() == result[c].count
        &&& result[c].count > 0
        &&& ranges_in(points.push(p), more, s).len() == result[c].count
    } by {
        if c < found.len() {
            assert(found[c].index == sectors[opened[c]]);
            assert(opens_sector(sectors, opened[c]));
            lemma_one_more(points, sectors, p, k, sectors[opened[c]]);
        } else {
            lemma_one_more(points, sectors, p, k, k);
        }
    }
    assert forall|a: int, c: int| 0 <= a < c < starts.len() implies #[trigger] starts[a] < #[trigger] starts[c] by {
        assert(opens_sector(sectors, opened[a]));
    }
    assert forall|i: int| #[trigger] opens_sector(more, i) implies starts.contains(i) by {
        if i == n {
            assert(starts[opened.len() as int] == n);
        } else {
            assert(opened.contains(i));
            let a = choose|a: int| 0 <= a < opened.len() && opened[a] == i;
            assert(starts[a] == i);
        }
    }
}

/// The mean range and the bearing of the most populous sector that is sized like a
/// person, if it has enough points.
pub fn best_cluster(points: &Vec<Point>, bearings: &Vec<Binary64>) -> (r: Option<(Binary64, Binary64)>)
    requires
        points@.len() == bearings@.len(),
    ensures
        r == detection(points@, bearings@),
{
    let mut found: Vec<Sector> = Vec::new();
    let ghost mut opened: Seq<int> = Seq::empty();
    let n: usize = points.len();
    let mut i: usize = 0;
    proof {
        assert(sectors_of(bearings@.take(0)) =~= Seq::empty());
    }
    while i < n
        invariant
            n == points@.len(),
            n == bearings@.len(),
            i <= n,
            gathered(found@, opened, points@.take(i as int), bearings@.take(i as int)),
        decreases n - i,
    {
        let bearing: Binary64 = bearings[i];
        let range: Binary64 = points[i].range();
        let index: u64 = sector_index(bearing);
        let ghost before = found@;
        let ghost earlier = points@.take(i as int);
        let ghost earlier_bearings = bearings@.take(i as int);
        proof {
            assert(points@.take(i + 1) =~= earlier.push(points@[i as int]));
            assert(bearings@.take(i + 1) =~= earlier_bearings.push(bearing));
        }
        match find_sector(&found, index) {
            Some(a) => {
                proof {
                    lemma_population_bound(sectors_of(earlier_bearings), sectors_of(earlier_bearings)[opened[a as int]]);
                }
                let after: Sector = Sector {
                    index,
                    range_total: found[a].range_total.plus(range),
                    bearing: found[a].bearing,
                    count: found[a].count + 1,
                    bounds: found[a].bounds.widen(points[i]),
                };
                proof {
                    lemma_gather_known(
                        before,
                        opened,
                        earlier,
                        earlier_bearings,
                        points@[i as int],
                        bearing,
                        a as int,
                        after,
                    );
                }
                found.set(a, after);
            },
            None => {
                let bounds: Bounds = Bounds::of_one(points[i]);
                let after: Sector = Sector { index, range_total: range, bearing, count: 1, bounds };
                proof {
                    lemma_gather_new(before, opened, earlier, earlier_bearings, points@[i as int], bearing, after);
                    opened = opened.push(i as int);
                }
                found.push(after);
            },
        }
        i = i + 1;
    }
    proof {
        assert(points@.take(n as int) =~= points@);
        assert(bearings@.take(n as int) =~= bearings@);
    }
    let ghost sectors = sectors_of(bearings@);
    let mut best: Option<usize> = None;
    let mut a: usize = 0;
    while a < found.len()
        invariant
            a <= found@.len(),
            best is None ==> forall|b: int|
                0 <= b < a ==> !sized_like_a_person((#[trigger] found@[b]).bounds),
            best matches Some(c) ==> {
                &&& c < a
                &&& sized_like_a_person(found@[c as int].bounds)
                &&& forall|b: int|
                    0 <= b < a && sized_like_a_person((#[trigger] found@[b]).bounds) ==> found@[b].count
                        < found@[c as int].count || (found@[b].count == found@[c as int].count && b <= c)
            },
        decreases found@.len() - a,
    {
        if found[a].bounds.is_sized_like_a_person() {
            best = match best {
                Some(c) => if found[a].count >= found[c].count {
                    Some(a)
                } else {
                    Some(c)
                },
                None => Some(a),
            };
        }
        a = a + 1;
    }
    proof {
        assert forall|j: int| #[trigger] opens_person(points@, sectors, j) implies exists|b: int|
            0 <= b < opened.len() && #[trigger] opened[b] == j && sized_like_a_person(found@[b].bounds) by {
            assert(opens_sector(sectors, j));
            assert(opened.contains(j));
            let b = choose|b: int| 0 <= b < opened.len() && #[trigger] opened[b] == j;
            assert(found@[b].bounds == bounds_of(points_in(points@, sectors, sectors[opened[b]])));
        }
    }
    match best {
        None => None,
        Some(c) => {
            proof {
                let at = opened[c as int];
                assert(opens_sector(sectors, at));
                assert(found@[c as int].bounds == bounds_of(points_in(points@, sectors, sectors[at])));
                assert(opens_person(points@, sectors, at));
                assert forall|j: int| #[trigger] opens_person(points@, sectors, j) implies {
                    ||| population(sectors, sectors[j]) < population(sectors, sectors[at])
                    ||| population(sectors, sectors[j]) == population(sectors, sectors[at]) && j <= at
                } by {
                    let b = choose|b: int|
                        0 <= b < opened.len() && #[trigger] opened[b] == j && sized_like_a_person(found@[b].bounds);
                    assert(found@[b].count == population(sectors, sectors[opened[b]]));
                    assert(found@[c as int].count == population(sectors, sectors[at]));
                    if b < c {
                        assert(opened[b] < opened[c as int]);
                    }
                }
                assert(opens_best(points@, sectors, at));
                lemma_one_best(points@, sectors, at, choose|i: int| opens_best(points@, sectors, i));
                assert(found@[c as int].bearing == bearings@[at]);
            }
            if found[c].count < MIN_CLUSTER {
                return None;
            }
            let mean: Binary64 = found[c].range_total.over(Binary64::from_u64(found[c].count as u64));
            Some((mean, found[c].bearing))
        },
    }
}

/// Whether `bearings` are what `atan2` gave for the points.
pub open spec fn bearings_by<A: Fn(Binary64, Binary64) -> Binary64>(
    atan2: A,
    points: Seq<Point>,
    bearings: Seq<Binary64>,
) -> bool {
    &&& bearings.len() == points.len()
    &&& forall|i: int| 0 <= i < points.len() ==> call_ensures(atan2, (points[i].y, points[i].x), #[trigger] bearings[i])
}

/// Whether `r` is what a cloud yields: the number of points, the number of points of
/// interest, and the distance and bearing of the cluster, given what `atan2` yields.
pub open spec fn scans_to<A: Fn(Binary64, Binary64) -> Binary64>(
    atan2: A,
    msg: PointCloud,
    r: (usize, usize, Option<(Binary64, Binary64)>),
) -> bool {
    if msg.holds_points() {
        let points = msg.points_of_interest(msg.total());
        &&& r.0 == msg.total()
        &&& r.1 == points.len()
        &&& exists|bearings: Seq<Binary64>| #[trigger]
            bearings_by(atan2, points, bearings) && r.2 == detection(points, bearings)
    } else {
        r == (0usize, 0usize, None::<(Binary64, Binary64)>)
    }
}

/// Looks for a person-sized cluster: the number of points, the number of points of
/// interest, and the distance and bearing of the cluster.  `atan2` is the arc tangent of
/// the platform's mathematics library.
pub fn process_lidar<A: Fn(Binary64, Binary64) -> Binary64>(msg: &PointCloud, atan2: A) -> (r: (
    usize,
    usize,
    Option<(Binary64, Binary64)>,
))
    requires
        msg.holds_points() ==> msg.readable(),
        forall|y: Binary64, x: Binary64| call_requires(atan2, (y, x)),
    ensures
        scans_to(atan2, *msg, r),
{
    if msg.point_step == 0 || msg.data.len() == 0 {
        return (0, 0, None);
    }
    let total: usize = msg.data.len() / msg.point_step as usize;
    let points: Vec<Point> = person_points(msg);
    let mut bearings: Vec<Binary64> = Vec::new();
    let mut i: usize = 0;
    while i < points.len()
        invariant
            i <= points@.len(),
            bearings_by(atan2, points@.take(i as int), bearings@),
            forall|y: Binary64, x: Binary64| call_requires(atan2, (y, x)),
        decreases points@.len() - i,
    {
        let bearing: Binary64 = atan2(points[i].y, points[i].x);
        bearings.push(bearing);
        i = i + 1;
    }
    assert(points@.take(i as int) =~= points@);
    let found: Option<(Binary64, Binary64)> = best_cluster(&points, &bearings);
    assert(bearings_by(atan2, points@, bearings@));
    (total, points.len(), found)
}

impl PointCloud {
    /// Whether every coordinate of every point lies within the data.
    pub fn is_readable(&self) -> (r: bool)
        ensures
            self.holds_points() ==> r == self.readable(),
            !self.holds_points() ==> r,
    {
        if self.point_step == 0 || self.data.len() == 0 {
            return true;
        }
        let step: usize = self.point_step as usize;
        let x_off: u32 = find_offset(&self.fields, "x", 0);
        let y_off: u32 = find_offset(&self.fields, "y", 4);
        let z_off: u32 = find_offset(&self.fields, "z", 8);
        let len: usize = self.data.len();
        let total: usize = len / step;
        let farther: u32 = if x_off < y_off { y_off } else { x_off };
        let mut i: usize = 0;
        while i < total
            invariant
                self.holds_points(),
                step == self.point_step,
                x_off == self.x_offset(),
                y_off == self.y_offset(),
                z_off == self.z_offset(),
                farther == (if x_off < y_off { y_off } else { x_off }),
                len == self.data@.len(),
                total == self.total(),
                i <= total,
                forall|j: int| 0 <= j < i && #[trigger] self.has_point(j) ==> j * step + farther + 4 <= len,
            decreases total - i,
        {
            proof {
                vstd::arithmetic::div_mod::lemma_fundamental_div_mod(len as int, step as int);
                assert(i * step <= len) by (nonlinear_arith)
                    requires
                        i < total,
                        step * total <= len,
                        step > 0,
                ;
            }
            let base: usize = i * step;
            if base as u128 + z_off as u128 + 4 <= len as u128 && base as u128 + farther as u128 + 4 > len as u128 {
                assert(self.has_point(i as int));
                return false;
            }
            i = i + 1;
        }
        true
    }
}

} // verus!
