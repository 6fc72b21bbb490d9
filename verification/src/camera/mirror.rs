//! A mirrored image gives a mirrored bearing.

use vstd::prelude::*;
use vstd::arithmetic::power2::{lemma2_to64, lemma2_to64_rest, lemma_pow2_adds, lemma_pow2_pos, pow2};
use crate::binary64::arithmetic::{difference, lemma_size_positive, opposite, quotient};
use crate::binary64::convert::{from_whole, one_in_units};
use crate::binary64::facts::{
    at_most, lemma_opposite, lemma_product, lemma_product_error, lemma_quotient, lemma_quotient_error,
    lemma_quotient_grows, lemma_rank_keeps_order, lemma_rank_of_double, lemma_size_of_one, lemma_size_over, lemma_sum,
    lemma_sum_error, lemma_units_order, lemma_whole_is_exact, within,
};
use crate::binary64::model::{lemma_size_of, lemma_size_order, lemma_size_small, size, Binary64, BINADE, INFINITY};
use crate::camera::{column_bearing, column_total, red_detection, Image, FIELD_OF_VIEW, TWO};
use crate::camera::laws::{
    law_column_total_is_exact, lemma_exact_columns, lemma_half_share, lemma_joined_sum, lemma_mean, lemma_middle,
    lemma_one_more_term, whole_sum, HALF,
};
use crate::geometry::zero;

verus! {

/// Byte `k` of a pixel.
pub open spec fn byte_of(a: Image, row: nat, col: nat, k: nat) -> u8 {
    a.data@[a.start_of(row, col) + k as int]
}

/// Whether two images are without padding and show the same, left and right exchanged.
pub open spec fn mirrored(a: Image, b: Image) -> bool {
    &&& b.width == a.width && b.height == a.height && b.encoding@ == a.encoding@ && b.step == a.step
    &&& a.step == a.width * a.channels()
    &&& a.data@.len() == a.height * a.step && b.data@.len() == a.data@.len()
    &&& forall|row: nat, col: nat, k: nat|
        row < a.height && col < a.width && k < a.channels() ==> #[trigger] byte_of(b, row, col, k) == byte_of(
            a,
            row,
            (a.width - 1 - col) as nat,
            k,
        )
}

/// A pixel of an image without padding lies within its data.
proof fn lemma_within_data(a: Image, row: nat, col: nat)
    requires
        row < a.height,
        col < a.width,
        a.step == a.width * a.channels(),
        a.data@.len() == a.height * a.step,
    ensures
        a.start_of(row, col) + 2 < a.data@.len(),
{
    let c = a.channels();
    assert(row * a.step + col * c + 3 <= a.height * a.step) by (nonlinear_arith)
        requires
            row + 1 <= a.height,
            col + 1 <= a.width,
            a.step == a.width * c,
            c >= 3,
    {
        assert(col * c + c <= a.width * c);
        assert(row * a.step + a.step <= a.height * a.step);
    }
}

/// A pixel is red where its mirror image is.
proof fn lemma_red(a: Image, b: Image, row: nat, col: nat)
    requires
        mirrored(a, b),
        row < a.height,
        col < a.width,
    ensures
        b.red(row, col) == a.red(row, (a.width - 1 - col) as nat),
{
    let other = (a.width - 1 - col) as nat;
    lemma_within_data(a, row, col);
    lemma_within_data(a, row, other);
    assert(b.start_of(row, col) == a.start_of(row, col));
    assert(byte_of(b, row, col, 0) == byte_of(a, row, other, 0));
    assert(byte_of(b, row, col, 1) == byte_of(a, row, other, 1));
    assert(byte_of(b, row, col, 2) == byte_of(a, row, other, 2));
}

/// The red columns among the last `cols` of a row, from the right.
spec fn from_the_right(a: Image, row: nat, cols: nat) -> Seq<nat>
    decreases cols,
{
    if cols == 0 {
        Seq::empty()
    } else {
        let before = from_the_right(a, row, (cols - 1) as nat);
        let col = (a.width - cols) as nat;
        if a.red(row, col) {
            before.push(col)
        } else {
            before
        }
    }
}

/// A mirrored row read from the left is the row read from the right.
proof fn lemma_row_from_the_right(a: Image, b: Image, row: nat, cols: nat)
    requires
        mirrored(a, b),
        row < a.height,
        cols <= a.width,
    ensures
        ({
            let right = from_the_right(a, row, cols);
            let left = b.red_in_row(row, cols);
            &&& left.len() == right.len()
            &&& whole_sum(left) + whole_sum(right) == right.len() * (a.width - 1)
        }),
    decreases cols,
{
    if cols > 0 {
        let col = (cols - 1) as nat;
        lemma_row_from_the_right(a, b, row, col);
        lemma_red(a, b, row, col);
        let left = b.red_in_row(row, col);
        let right = from_the_right(a, row, col);
        if b.red(row, col) {
            lemma_one_more_term(left, col);
            lemma_one_more_term(right, (a.width - cols) as nat);
            assert((right.len() + 1) * (a.width - 1) == right.len() * (a.width - 1) + (a.width - 1)) by (nonlinear_arith);
        }
    } else {
        assert(0 * (a.width - 1) == 0) by (nonlinear_arith);
    }
}

/// A row is made of its first and its last columns.
proof fn lemma_row_parts(a: Image, row: nat, cols: nat)
    requires
        cols <= a.width,
    ensures
        ({
            let first = a.red_in_row(row, (a.width - cols) as nat);
            let last = from_the_right(a, row, cols);
            let all = a.red_in_row(row, a.width as nat);
            &&& first.len() + last.len() == all.len()
            &&& whole_sum(first) + whole_sum(last) == whole_sum(all)
        }),
    decreases cols,
{
    if cols > 0 {
        let col = (a.width - cols) as nat;
        lemma_row_parts(a, row, (cols - 1) as nat);
        let first = a.red_in_row(row, col);
        let last = from_the_right(a, row, (cols - 1) as nat);
        assert(a.red_in_row(row, col + 1) == if a.red(row, col) {
            first.push(col)
        } else {
            first
        });
        if a.red(row, col) {
            lemma_one_more_term(first, col);
            lemma_one_more_term(last, col);
        }
    }
}

/// A mirrored image has as many red pixels, and each column is as far from the other edge.
proof fn lemma_mirrored_columns(a: Image, b: Image, rows: nat)
    requires
        mirrored(a, b),
        rows <= a.height,
    ensures
        b.red_columns(rows).len() == a.red_columns(rows).len(),
        whole_sum(a.red_columns(rows)) + whole_sum(b.red_columns(rows)) == a.red_columns(rows).len() * (a.width - 1),
    decreases rows,
{
    if rows > 0 {
        let row = (rows - 1) as nat;
        let w = a.width as nat;
        lemma_mirrored_columns(a, b, row);
        lemma_row_from_the_right(a, b, row, w);
        lemma_row_parts(a, row, w);
        lemma_joined_sum(a.red_columns(row), a.red_in_row(row, w));
        lemma_joined_sum(b.red_columns(row), b.red_in_row(row, w));
        let m = a.red_columns(row).len();
        let n = a.red_in_row(row, w).len();
        assert(a.red_in_row(row, 0).len() == 0);
        assert((m + n) * (w - 1) == m * (w - 1) + n * (w - 1)) by (nonlinear_arith);
    } else {
        assert(0 * (a.width - 1) == 0) by (nonlinear_arith);
    }
}

/// How far a bearing may be from the exact one, all errors of its five roundings together.
pub(crate) proof fn lemma_errors_add_up(
    b: int,
    share: int,
    off: int,
    mean: int,
    half: int,
    total: int,
    count: int,
    w: int,
    one: int,
    u: int,
)
    requires
        w >= 1,
        count >= 1,
        one >= 0,
        u >= 0,
        2 * half == w * one,
        -(count * w * one + u * count) <= u * (mean * count - total * one) <= count * w * one + u * count,
        -(w * one + u) <= u * (off - (mean - half)) <= w * one + u,
        -(w * one + u * w) <= u * (share * w + off) <= w * one + u * w,
        -(3 * one + 2 * u) <= u * (2 * b - 3 * share) <= 3 * one + 2 * u,
    ensures
        ({
            let error = 2 * b * w * count - 3 * (half * count - total * one);
            let limit = 12 * (count * w * one) + 12 * (u * count * w);
            -limit <= u * error <= limit
        }),
{
    let error = 2 * b * w * count - 3 * (half * count - total * one);
    let e1 = mean * count - total * one;
    let e2 = off - (mean - half);
    let e3 = share * w + off;
    let e4 = 2 * b - 3 * share;
    let k = w * count;
    assert(error == k * e4 + 3 * (count * e3) - 3 * (count * e2) - 3 * e1) by (nonlinear_arith)
        requires
            error == 2 * b * w * count - 3 * (half * count - total * one),
            e1 == mean * count - total * one,
            e2 == off - (mean - half),
            e3 == share * w + off,
            e4 == 2 * b - 3 * share,
            k == w * count,
    ;
    let x = count * w * one;
    let y = u * count * w;
    assert(u * (k * e4) == k * (u * e4) && u * (count * e3) == count * (u * e3) && u * (count * e2) == count * (u * e2))
        by (nonlinear_arith);
    assert(-(3 * x + 2 * y) <= k * (u * e4) <= 3 * x + 2 * y) by (nonlinear_arith)
        requires
            -(3 * one + 2 * u) <= u * e4 <= 3 * one + 2 * u,
            k == w * count,
            k >= 0,
            x == count * w * one,
            y == u * count * w,
    {
        assert(k * (3 * one + 2 * u) == 3 * x + 2 * y);
    }
    assert(k >= 0) by (nonlinear_arith)
        requires
            k == w * count,
            w >= 1,
            count >= 1,
    ;
    assert(-(x + y) <= count * (u * e3) <= x + y) by (nonlinear_arith)
        requires
            -(w * one + u * w) <= u * e3 <= w * one + u * w,
            count >= 1,
            x == count * w * one,
            y == u * count * w,
    {
        assert(count * (w * one + u * w) == x + y);
    }
    assert(-(x + y) <= count * (u * e2) <= x + y && u * count <= y) by (nonlinear_arith)
        requires
            -(w * one + u) <= u * e2 <= w * one + u,
            count >= 1,
            w >= 1,
            u >= 0,
            x == count * w * one,
            y == u * count * w,
    {
        assert(u * count * w >= u * count);
        assert(count * (w * one + u) == x + u * count);
    }
    assert(u * error == k * (u * e4) + 3 * (count * (u * e3)) - 3 * (count * (u * e2)) - 3 * (u * e1))
        by (nonlinear_arith)
        requires
            error == k * e4 + 3 * (count * e3) - 3 * (count * e2) - 3 * e1,
    ;
}

/// How far the mean column may be from the exact one.
pub(crate) proof fn lemma_mean_error(columns: Seq<nat>, width: nat)
    requires
        columns.len() > 0,
        columns.len() < 2 * BINADE,
        0 < width < 0x1_0000_0000,
        whole_sum(columns) < 2 * BINADE,
        whole_sum(columns) <= columns.len() * width,
    ensures
        ({
            let mean = quotient(column_total(columns), from_whole(columns.len()));
            let count = columns.len();
            let error = mean.units() * count - whole_sum(columns) * one_in_units();
            let limit = count * width * one_in_units() + (2 * BINADE) * count;
            &&& within(mean, zero(), from_whole(width))
            &&& -limit <= (2 * BINADE) * error <= limit
        }),
{
    let total = whole_sum(columns);
    let count = columns.len();
    let one = one_in_units();
    let u = 2 * BINADE as int;
    lemma_mean(columns, width);
    law_column_total_is_exact(columns);
    lemma_whole_is_exact(total);
    lemma_whole_is_exact(count);
    lemma_whole_is_exact(width);
    lemma_size_of_one();
    lemma_large_units();
    let mean = quotient(from_whole(total), from_whole(count));
    let d = count * one;
    let n = (total * one) * one;
    assert(d > 0 && n < size(INFINITY as nat) * d) by (nonlinear_arith)
        requires
            d == count * one,
            n == (total * one) * one,
            total < 2 * BINADE,
            count >= 1,
            one >= 1,
            size(INFINITY as nat) > (2 * BINADE) * one,
    {
        assert(d >= one);
        assert(n <= ((2 * BINADE) * one) * one);
        assert(size(INFINITY as nat) * d >= size(INFINITY as nat) * one);
        assert(size(INFINITY as nat) * one > ((2 * BINADE) * one) * one);
    }
    lemma_size_positive(from_whole(count).magnitude());
    lemma_quotient_error(from_whole(total), from_whole(count));
    let m = size(mean.magnitude());
    lemma_units_of(mean);
    assert(-(count * width * one + u * count) <= u * (m * count - total * one) && u * (m * count - total * one) <= count
        * width * one + u * count) by (nonlinear_arith)
        requires
            u * (m * d) <= u * n + n + u * d,
            u * n <= u * (m * d) + n + u * d,
            d == count * one,
            n == (total * one) * one,
            total <= count * width,
            one > 0,
            u >= 0,
    {
        assert(m * d == (m * count) * one);
        assert(u * ((m * count) * one) <= (u * (total * one) + total * one + u * count) * one);
        assert((u * (m * count)) * one <= (u * (total * one) + total * one + u * count) * one);
        assert(u * (m * count) <= u * (total * one) + total * one + u * count);
        assert((u * (total * one)) * one <= (u * (m * count) + total * one + u * count) * one);
        assert(u * (total * one) <= u * (m * count) + total * one + u * count);
        assert(total * one <= (count * width) * one);
    }
}

/// What a number from zero on is worth.
proof fn lemma_units_of(a: Binary64)
    requires
        at_most(zero(), a),
    ensures
        a.units() == size(a.magnitude()),
{
    lemma_size_small();
}

/// The largest doubles lie far above 2^53.
pub(crate) proof fn lemma_large_units()
    ensures
        size(INFINITY as nat) > (2 * BINADE) * one_in_units(),
        one_in_units() > 32 * (2 * BINADE),
{
    lemma2_to64();
    lemma2_to64_rest();
    lemma_size_of(1076, 0x10_0000_0000_0000);
    lemma_pow2_adds(2, 1074);
    lemma_pow2_pos(1074);
    lemma_size_order(0x4350_0000_0000_0000, INFINITY as nat);
    let one = one_in_units();
    assert(0x10_0000_0000_0000 * (4 * one) > 0x20_0000_0000_0000 * one) by (nonlinear_arith)
        requires
            one > 0,
    ;
    lemma_pow2_adds(58, 1016);
    lemma_pow2_adds(1, 1015);
    lemma_pow2_pos(1015);
}

/// How far the bearing to a mean column may be from the exact one, in the errors of its
/// roundings.
pub(crate) proof fn lemma_bearing_errors(mean: Binary64, width: nat)
    requires
        0 < width < 0x1_0000_0000,
        within(mean, zero(), from_whole(width)),
    ensures
        ({
            let w = from_whole(width);
            let middle = quotient(w, Binary64 { bits: TWO });
            let off = difference(mean, middle);
            let share = quotient(opposite(off), w);
            let b = column_bearing(mean, width);
            let one = one_in_units();
            let u = 2 * BINADE as int;
            &&& 2 * middle.units() == width * one
            &&& -(width * one + u) <= u * (off.units() - (mean.units() - middle.units())) <= width * one + u
            &&& -(width * one + u * width) <= u * (share.units() * width + off.units()) <= width * one + u * width
            &&& -(3 * one + 2 * u) <= u * (2 * b.units() - 3 * share.units()) <= 3 * one + 2 * u
        }),
{
    let w = from_whole(width);
    let middle = quotient(w, Binary64 { bits: TWO });
    let off = difference(mean, middle);
    let share = quotient(opposite(off), w);
    let b = column_bearing(mean, width);
    let one = one_in_units();
    let u = 2 * BINADE as int;
    let view = Binary64 { bits: FIELD_OF_VIEW };
    lemma_whole_is_exact(width);
    lemma_middle(width);
    lemma_size_of_one();
    lemma_large_units();
    lemma_opposite(middle);
    lemma_units_order(zero(), mean);
    lemma_units_order(mean, w);
    lemma_size_small();
    let h = middle.units();
    assert(2 * h == width * one);
    assert(width * one < (2 * BINADE) * one && width * one > 0) by (nonlinear_arith)
        requires
            0 < width < 2 * BINADE,
            one > 0,
    ;
    // the distance from the middle
    let v = mean.units() - h;
    lemma_sum_error(mean, opposite(middle));
    lemma_sum(mean, opposite(middle));
    lemma_rank_keeps_order(opposite(middle).units(), v);
    lemma_rank_keeps_order(v, h);
    lemma_rank_of_double(middle);
    lemma_rank_of_double(opposite(middle));
    assert(off.magnitude() <= middle.magnitude());
    lemma_size_order(middle.magnitude(), off.magnitude());
    lemma_opposite(off);
    let o = size(off.magnitude());
    // its share of the width
    lemma_size_positive(w.magnitude());
    assert(o * one < size(INFINITY as nat) * (width * one)) by (nonlinear_arith)
        requires
            0 <= 2 * o <= width * one,
            size(INFINITY as nat) > one,
            one > 0,
            width > 0,
    {
        assert(o * one <= (width * one) * one);
        assert((width * one) * one < (width * one) * size(INFINITY as nat));
    }
    lemma_quotient(opposite(off), w);
    lemma_quotient_grows(opposite(off), middle, w);
    lemma_half_share(width);
    lemma_quotient_error(opposite(off), w);
    let sh = size(share.magnitude());
    assert(-(width * one + u * width) <= u * (sh * width - o) && u * (sh * width - o) <= width * one + u * width)
        by (nonlinear_arith)
        requires
            u * (sh * (width * one)) <= u * (o * one) + o * one + u * (width * one),
            u * (o * one) <= u * (sh * (width * one)) + o * one + u * (width * one),
            0 <= o <= width * one,
            one > 0,
            width > 0,
            u >= 0,
    {
        assert((u * (sh * width)) * one <= (u * o + o + u * width) * one);
        assert(u * (sh * width) <= u * o + o + u * width);
        assert((u * o) * one <= (u * (sh * width) + o + u * width) * one);
        assert(u * o <= u * (sh * width) + o + u * width);
    }
    // its bearing
    lemma2_to64();
    lemma2_to64_rest();
    lemma_size_over(1022, 0x18_0000_0000_0000, 1021, 2, 0x30_0000_0000_0000);
    lemma_size_over(1021, 0x10_0000_0000_0000, 1021, 1, 0x10_0000_0000_0000);
    lemma_pow2_adds(53, 1021);
    let e = pow2(1021);
    let vs = size(FIELD_OF_VIEW as nat);
    lemma_size_order(HALF as nat, share.magnitude());
    assert(2 * vs == 3 * one && 2 * sh <= one) by (nonlinear_arith)
        requires
            vs == 0x30_0000_0000_0000 * e,
            one == 0x20_0000_0000_0000 * e,
            sh <= 0x10_0000_0000_0000 * e,
    ;
    assert(sh * vs < size(INFINITY as nat) * one) by (nonlinear_arith)
        requires
            2 * vs == 3 * one,
            0 <= 2 * sh <= one,
            size(INFINITY as nat) > one,
            one > 0,
    {
        assert(sh * vs <= one * (2 * one));
        assert((2 * sh) * (2 * vs) <= one * (3 * one));
        assert(one * one < size(INFINITY as nat) * one);
    }
    lemma_product(share, view);
    lemma_product_error(share, view);
    let bs = size(b.magnitude());
    assert(-(3 * one + 2 * u) <= u * (2 * bs - 3 * sh) && u * (2 * bs - 3 * sh) <= 3 * one + 2 * u) by (nonlinear_arith)
        requires
            u * (bs * one) <= u * (sh * vs) + sh * vs + u * one,
            u * (sh * vs) <= u * (bs * one) + sh * vs + u * one,
            2 * vs == 3 * one,
            0 <= 2 * sh <= one,
            one > 0,
            u >= 0,
    {
        assert(2 * (sh * vs) == (3 * sh) * one);
        assert((u * (2 * bs)) * one <= (u * (3 * sh) + 3 * sh + 2 * u) * one);
        assert(u * (2 * bs) <= u * (3 * sh) + 3 * sh + 2 * u);
        assert((u * (3 * sh)) * one <= (u * (2 * bs) + 3 * sh + 2 * u) * one);
        assert(u * (3 * sh) <= u * (2 * bs) + 3 * sh + 2 * u);
    }
    // the signs
    assert(share.negative() == !off.negative() && b.negative() == share.negative());
    if off.negative() {
        assert(off.units() == -o && share.units() == sh && b.units() == bs);
    } else {
        assert(off.units() == o && share.units() == -sh && b.units() == -bs);
        assert((-sh) * width == -(sh * width)) by (nonlinear_arith);
        assert(u * (-(sh * width) + o) == -(u * (sh * width - o))) by (nonlinear_arith);
        assert(u * (2 * (-bs) - 3 * (-sh)) == -(u * (2 * bs - 3 * sh))) by (nonlinear_arith);
    }
}

/// An image and its mirror image either both show too little red, or the same share of it
/// at bearings that add up to 1.5 rad divided by the width, up to 2^-49 rad.  (The middle
/// of the columns 0 to `width - 1` is half a column to the left of the middle of the
/// image; the red columns of either must be few enough to be added up without rounding.)
pub proof fn law_mirrored_image_mirrors_the_bearing(a: Image, b: Image)
    requires
        mirrored(a, b),
        whole_sum(a.red_columns(a.height as nat)) < 2 * BINADE,
        whole_sum(b.red_columns(b.height as nat)) < 2 * BINADE,
    ensures
        red_detection(a) is Some <==> red_detection(b) is Some,
        red_detection(a) is Some ==> {
            let (bearing, share) = red_detection(a).unwrap();
            let (other_bearing, other_share) = red_detection(b).unwrap();
            let error = 2 * a.width * (bearing.units() + other_bearing.units()) - 3 * one_in_units();
            let limit = 32 * a.width * pow2(1021);
            &&& share == other_share
            &&& -limit <= error <= limit
        },
{
    let w = a.width as nat;
    let h = a.height as nat;
    let ca = a.red_columns(h);
    let cb = b.red_columns(h);
    lemma_mirrored_columns(a, b, h);
    if red_detection(a) is Some {
        lemma_exact_columns(a);
        lemma_exact_columns(b);
        let n = ca.len();
        lemma_mean_error(ca, w);
        lemma_mean_error(cb, w);
        let ma = quotient(column_total(ca), from_whole(n));
        let mb = quotient(column_total(cb), from_whole(n));
        lemma_bearing_errors(ma, w);
        lemma_bearing_errors(mb, w);
        let one = one_in_units();
        let u = 2 * BINADE as int;
        let wide = from_whole(w);
        let middle = quotient(wide, Binary64 { bits: TWO });
        let ba = column_bearing(ma, w);
        let bb = column_bearing(mb, w);
        let sa = whole_sum(ca) as int;
        let sb = whole_sum(cb) as int;
        let oa = difference(ma, middle);
        let ob = difference(mb, middle);
        lemma_errors_add_up(
            ba.units(),
            quotient(opposite(oa), wide).units(),
            oa.units(),
            ma.units(),
            middle.units(),
            sa,
            n as int,
            w as int,
            one as int,
            u,
        );
        lemma_errors_add_up(
            bb.units(),
            quotient(opposite(ob), wide).units(),
            ob.units(),
            mb.units(),
            middle.units(),
            sb,
            n as int,
            w as int,
            one as int,
            u,
        );
        lemma_large_units();
        lemma2_to64();
        lemma2_to64_rest();
        lemma_pow2_adds(53, 1021);
        lemma_both_errors(
            ba.units(),
            bb.units(),
            middle.units(),
            sa,
            sb,
            n as int,
            w as int,
            one as int,
            u,
            pow2(1021) as int,
        );
    }
}

/// The errors of both bearings together.
proof fn lemma_both_errors(
    ba: int,
    bb: int,
    half: int,
    sa: int,
    sb: int,
    n: int,
    w: int,
    one: int,
    u: int,
    g: int,
)
    requires
        n >= 1,
        w >= 1,
        one == u * g,
        u > 0,
        one > 32 * u,
        2 * half == w * one,
        sa + sb == n * (w - 1),
        -(12 * (n * w * one) + 12 * (u * n * w)) <= u * (2 * ba * w * n - 3 * (half * n - sa * one)) <= 12 * (n * w * one)
            + 12 * (u * n * w),
        -(12 * (n * w * one) + 12 * (u * n * w)) <= u * (2 * bb * w * n - 3 * (half * n - sb * one)) <= 12 * (n * w * one)
            + 12 * (u * n * w),
    ensures
        -(32 * w * g) <= 2 * w * (ba + bb) - 3 * one <= 32 * w * g,
{
    let x = n * w * one;
    let y = u * n * w;
    let ea = 2 * ba * w * n - 3 * (half * n - sa * one);
    let eb = 2 * bb * w * n - 3 * (half * n - sb * one);
    let e = 2 * w * (ba + bb) - 3 * one;
    let f = 2 * w * (ba + bb);
    assert(2 * ba * w * n + 2 * bb * w * n == n * f) by (nonlinear_arith)
        requires
            f == 2 * w * (ba + bb),
    ;
    assert(2 * (half * n) == (w * one) * n) by (nonlinear_arith)
        requires
            2 * half == w * one,
    ;
    assert(sa * one + sb * one == (n * (w - 1)) * one) by (nonlinear_arith)
        requires
            sa + sb == n * (w - 1),
    ;
    assert((n * (w - 1)) * one == (w * one) * n - n * one) by (nonlinear_arith);
    assert(n * e == n * f - 3 * (n * one)) by (nonlinear_arith)
        requires
            e == f - 3 * one,
    ;
    assert(ea + eb == n * e);
    assert(24 * y <= x) by (nonlinear_arith)
        requires
            x == n * w * one,
            y == u * n * w,
            one > 32 * u,
            n >= 1,
            w >= 1,
            u > 0,
    {
        assert(n * w > 0);
        assert((n * w) * one >= (n * w) * (32 * u));
    }
    assert(-(25 * x) <= u * (ea + eb) <= 25 * x) by (nonlinear_arith)
        requires
            -(12 * x + 12 * y) <= u * ea <= 12 * x + 12 * y,
            -(12 * x + 12 * y) <= u * eb <= 12 * x + 12 * y,
            24 * y <= x,
    ;
    assert(g >= 0) by (nonlinear_arith)
        requires
            one == u * g,
            u > 0,
            one > 32 * u,
    ;
    assert(-(32 * w * g) <= e <= 32 * w * g) by (nonlinear_arith)
        requires
            -(25 * x) <= u * (n * e) <= 25 * x,
            x == n * w * one,
            one == u * g,
            n >= 1,
            u > 0,
            w >= 1,
            g >= 0,
    {
        let k = u * n;
        assert(k > 0);
        assert(u * (n * e) == k * e);
        assert(x == k * (w * g));
        assert(k * e <= k * (25 * (w * g)));
        assert(k * (-(25 * (w * g))) <= k * e);
        assert(e <= 25 * (w * g));
        assert(-(25 * (w * g)) <= e);
        assert(w * g >= 0);
    }
}

} // verus!
