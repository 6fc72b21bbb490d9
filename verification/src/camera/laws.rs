//! What holds of the red detection as a whole.

use vstd::prelude::*;
use vstd::arithmetic::power2::{lemma2_to64, lemma2_to64_rest, lemma_pow2_adds, lemma_pow2_pos, pow2};
use crate::binary64::arithmetic::{lemma_nearest_zero, lemma_size_positive, opposite, product, quotient, sum};
use crate::binary64::convert::{from_whole, one_in_units};
use crate::binary64::facts::{
    at_most, lemma_nearest_keeps, lemma_nearest_keeps_order, lemma_opposite, lemma_product, lemma_product_at_most,
    lemma_product_grows, lemma_quotient, lemma_quotient_grows, lemma_quotient_of_itself, lemma_rank_keeps_order,
    lemma_rank_of_double, lemma_short_is_exact, lemma_size_of_one, lemma_sum, lemma_units_order, lemma_whole_is_exact,
    lemma_whole_keeps_order, lemma_whole_sum, within,
};
use crate::binary64::model::{lemma_size_of, lemma_size_order, lemma_size_small, size, Binary64, BINADE};
use crate::binary64::order::{less, ONE};
use crate::camera::{column_bearing, column_total, lemma_count_bound, red_detection, Image, FIELD_OF_VIEW, TWO};
use crate::geometry::zero;

verus! {

/// The sum of column numbers.
pub open spec fn whole_sum(columns: Seq<nat>) -> nat
    decreases columns.len(),
{
    if columns.len() == 0 {
        0
    } else {
        whole_sum(columns.drop_last()) + columns.last()
    }
}

/// A sum with one more term.
pub(crate) proof fn lemma_one_more_term(s: Seq<nat>, x: nat)
    ensures
        whole_sum(s.push(x)) == whole_sum(s) + x,
{
    assert(s.push(x).drop_last() =~= s);
}

/// The sum of two lists.
pub(crate) proof fn lemma_joined_sum(s: Seq<nat>, t: Seq<nat>)
    ensures
        whole_sum(s + t) == whole_sum(s) + whole_sum(t),
    decreases t.len(),
{
    if t.len() == 0 {
        assert(s + t =~= s);
    } else {
        assert((s + t).drop_last() =~= s + t.drop_last());
        lemma_joined_sum(s, t.drop_last());
    }
}

/// Below 2^53 the sum of the columns needs no rounding.
pub proof fn law_column_total_is_exact(columns: Seq<nat>)
    requires
        whole_sum(columns) < 2 * BINADE,
    ensures
        column_total(columns) == from_whole(whole_sum(columns)),
    decreases columns.len(),
{
    if columns.len() == 0 {
        lemma_nearest_zero(1);
    } else {
        law_column_total_is_exact(columns.drop_last());
        lemma_whole_sum(whole_sum(columns.drop_last()), columns.last());
    }
}

/// Red pixels lie within the image.
proof fn lemma_row_columns(msg: Image, row: nat, cols: nat)
    requires
        cols <= msg.width,
    ensures
        forall|i: int| 0 <= i < msg.red_in_row(row, cols).len() ==> #[trigger] msg.red_in_row(row, cols)[i] < msg.width,
    decreases cols,
{
    if cols > 0 {
        let before = msg.red_in_row(row, (cols - 1) as nat);
        let all = msg.red_in_row(row, cols);
        lemma_row_columns(msg, row, (cols - 1) as nat);
        assert forall|i: int| 0 <= i < all.len() implies #[trigger] all[i] < msg.width by {
            if i < before.len() {
                assert(all[i] == before[i]);
            }
        }
    }
}

pub(crate) proof fn lemma_columns(msg: Image, rows: nat)
    ensures
        forall|i: int| 0 <= i < msg.red_columns(rows).len() ==> #[trigger] msg.red_columns(rows)[i] < msg.width,
    decreases rows,
{
    if rows > 0 {
        let before = msg.red_columns((rows - 1) as nat);
        let row = msg.red_in_row((rows - 1) as nat, msg.width as nat);
        let all = msg.red_columns(rows);
        lemma_columns(msg, (rows - 1) as nat);
        lemma_row_columns(msg, (rows - 1) as nat, msg.width as nat);
        assert forall|i: int| 0 <= i < all.len() implies #[trigger] all[i] < msg.width by {
            if i < before.len() {
                assert(all[i] == before[i]);
            } else {
                assert(all[i] == row[i - before.len()]);
            }
        }
    }
}

/// The sum of columns of an image is no larger than their number times its width.
pub(crate) proof fn lemma_sum_bound(columns: Seq<nat>, width: nat)
    requires
        forall|i: int| 0 <= i < columns.len() ==> #[trigger] columns[i] < width,
    ensures
        whole_sum(columns) <= columns.len() * width,
    decreases columns.len(),
{
    if columns.len() > 0 {
        lemma_sum_bound(columns.drop_last(), width);
        assert(columns[columns.len() - 1] < width);
        assert((columns.len() - 1) * width + width == columns.len() * width) by (nonlinear_arith);
    }
}

/// The share of an image that is red is more than nothing and at most all of it.
pub proof fn law_red_share_is_a_share(msg: Image)
    requires
        red_detection(msg) is Some,
    ensures
        less(zero(), red_detection(msg).unwrap().1),
        at_most(red_detection(msg).unwrap().1, Binary64 { bits: ONE }),
{
    let columns = msg.red_columns(msg.height as nat);
    let pixels = msg.width as nat * msg.height as nat;
    let red = from_whole(columns.len());
    let all = from_whole(pixels);
    let one = one_in_units();
    lemma_count_bound(msg, msg.height as nat);
    assert(columns.len() <= pixels <= 0x1_0000_0000 * 0x1_0000_0000) by (nonlinear_arith)
        requires
            columns.len() <= msg.height * msg.width,
            pixels == msg.width * msg.height,
            msg.width < 0x1_0000_0000,
            msg.height < 0x1_0000_0000,
    ;
    let most: nat = 0x1_0000_0000_0000_0000;
    lemma_whole_keeps_order(columns.len(), pixels);
    lemma_whole_keeps_order(1, columns.len());
    lemma_whole_keeps_order(pixels, most);
    lemma_whole_is_exact(1);
    lemma_power_is_exact();
    lemma_size_of_one();
    lemma_size_positive(all.magnitude());
    lemma_size_order(red.magnitude(), from_whole(1).magnitude());
    lemma_size_order(from_whole(most).magnitude(), all.magnitude());
    lemma_quotient(red, all);
    lemma_quotient_grows(red, all, all);
    lemma_quotient_of_itself(all);
    // even a single pixel of the largest image is more than the smallest double
    let d = size(all.magnitude());
    let n = size(red.magnitude()) * one;
    lemma2_to64();
    lemma2_to64_rest();
    lemma_pow2_adds(64, 1010);
    lemma_pow2_pos(1010);
    assert((1 * d) * d <= n * d) by (nonlinear_arith)
        requires
            d <= most * one,
            size(red.magnitude()) >= one,
            n == size(red.magnitude()) * one,
            one == most * pow2(1010),
            pow2(1010) > 0,
            d > 0,
    {
        assert(one >= most);
        assert(n >= one * one);
        assert(one * one >= most * one);
    }
    lemma_size_small();
    lemma_nearest_keeps_order(1 * d, d, n, d);
    lemma_nearest_keeps(1, d);
}

/// 2^64 is a double.
proof fn lemma_power_is_exact()
    ensures
        size(from_whole(0x1_0000_0000_0000_0000).magnitude()) == 0x1_0000_0000_0000_0000 * one_in_units(),
        from_whole(0x1_0000_0000_0000_0000).finite(),
{
    let n: nat = 0x1_0000_0000_0000_0000 * one_in_units();
    let p: nat = 0x43F0_0000_0000_0000;
    lemma2_to64();
    lemma2_to64_rest();
    lemma_pow2_adds(64, 1074);
    lemma_pow2_adds(52, 1086);
    lemma_size_of(1086, 0x10_0000_0000_0000);
    lemma_nearest_keeps(p, 1);
    assert(size(p) * 1 == n);
}

/// Half the field of view: 0.75.
pub const HALF_VIEW: u64 = 0x3FE8_0000_0000_0000;

/// One half.
pub(crate) const HALF: u64 = 0x3FE0_0000_0000_0000;

/// The middle of an image is exactly half its width.
pub(crate) proof fn lemma_middle(width: nat)
    requires
        0 < width < 0x1_0000_0000,
    ensures
        ({
            let middle = quotient(from_whole(width), Binary64 { bits: TWO });
            &&& middle.finite() && !middle.negative()
            &&& size(middle.magnitude()) + size(middle.magnitude()) == size(from_whole(width).magnitude())
        }),
{
    let w = from_whole(width);
    let two = Binary64 { bits: TWO };
    let one = one_in_units();
    lemma_whole_is_exact(width);
    lemma_size_of_one();
    lemma2_to64();
    lemma2_to64_rest();
    lemma_size_of(1023, 0x10_0000_0000_0000);
    lemma_pow2_adds(1, 1074);
    lemma_pow2_adds(52, 1023);
    lemma_pow2_adds(1, 1073);
    lemma_pow2_pos(1073);
    let d = size(TWO as nat);
    assert(d == 2 * one);
    let p = lemma_short_is_exact(width, 1073);
    let h = size(p);
    assert(h + h == width * one) by (nonlinear_arith)
        requires
            h == width * pow2(1073),
            one == 2 * pow2(1073),
    ;
    assert(h * d == (width * one) * one) by (nonlinear_arith)
        requires
            h + h == width * one,
            d == 2 * one,
    ;
    lemma_size_order(w.magnitude(), p);
    assert(h <= width * one);
    lemma_quotient(w, two);
    lemma_nearest_keeps(p, d);
}

/// The mean column of an image lies between 0 and its width.
pub(crate) proof fn lemma_mean(columns: Seq<nat>, width: nat)
    requires
        columns.len() > 0,
        columns.len() < 2 * BINADE,
        0 < width < 0x1_0000_0000,
        whole_sum(columns) < 2 * BINADE,
        whole_sum(columns) <= columns.len() * width,
    ensures
        within(quotient(column_total(columns), from_whole(columns.len())), zero(), from_whole(width)),
{
    let total = whole_sum(columns);
    let count = columns.len();
    let one = one_in_units();
    let w = from_whole(width);
    law_column_total_is_exact(columns);
    lemma_whole_is_exact(total);
    lemma_whole_is_exact(count);
    lemma_whole_is_exact(width);
    lemma_size_of_one();
    let d = count * one;
    assert(d > 0) by (nonlinear_arith)
        requires
            d == count * one,
            count > 0,
            one > 0,
    ;
    lemma_size_positive(from_whole(count).magnitude());
    lemma_quotient(from_whole(total), from_whole(count));
    let n = (total * one) * one;
    assert(n * d <= ((width * one) * d) * d) by (nonlinear_arith)
        requires
            n == (total * one) * one,
            d == count * one,
            total <= count * width,
            one > 0,
            d > 0,
    {
        assert(total * one <= (count * width) * one);
        assert((count * width) * one == width * d);
        assert((total * one) * one <= (width * d) * one);
        assert((width * d) * one == (width * one) * d);
    }
    lemma_nearest_keeps_order(n, d, (width * one) * d, d);
    lemma_nearest_keeps(w.magnitude(), d);
}

/// The bearing to a mean column within the image lies within the field of view.
proof fn lemma_bearing_in_view(mean: Binary64, width: nat)
    requires
        0 < width < 0x1_0000_0000,
        within(mean, zero(), from_whole(width)),
    ensures
        column_bearing(mean, width).magnitude() <= HALF_VIEW,
        !column_bearing(mean, width).is_nan_spec(),
{
    let w = from_whole(width);
    let middle = quotient(w, Binary64 { bits: TWO });
    let one = one_in_units();
    lemma_whole_is_exact(width);
    lemma_middle(width);
    lemma_size_of_one();
    lemma_opposite(middle);
    lemma_units_order(zero(), mean);
    lemma_units_order(mean, w);
    lemma_size_small();
    // no farther from the middle than the middle from the edge
    let off = sum(mean, opposite(middle));
    lemma_sum(mean, opposite(middle));
    lemma_rank_keeps_order(opposite(middle).units(), mean.units() + opposite(middle).units());
    lemma_rank_keeps_order(mean.units() + opposite(middle).units(), middle.units());
    lemma_rank_of_double(middle);
    lemma_rank_of_double(opposite(middle));
    assert(off.magnitude() <= middle.magnitude());
    lemma_opposite(off);
    assert(width * one > 0) by (nonlinear_arith)
        requires
            width > 0,
            one > 0,
    ;
    lemma_size_positive(w.magnitude());
    let share = quotient(opposite(off), w);
    lemma_quotient(opposite(off), w);
    lemma_quotient_grows(opposite(off), middle, w);
    lemma_half_share(width);
    let half = Binary64 { bits: HALF };
    let view = Binary64 { bits: FIELD_OF_VIEW };
    lemma_product(share, view);
    lemma_product_grows(share, half, view);
    lemma_half_view();
}

/// The middle is one half of the width.
pub(crate) proof fn lemma_half_share(width: nat)
    requires
        0 < width < 0x1_0000_0000,
    ensures
        quotient(quotient(from_whole(width), Binary64 { bits: TWO }), from_whole(width)).magnitude() == HALF,
{
    let w = from_whole(width);
    let middle = quotient(w, Binary64 { bits: TWO });
    let one = one_in_units();
    lemma_whole_is_exact(width);
    lemma_middle(width);
    lemma_size_of_one();
    lemma2_to64();
    lemma2_to64_rest();
    lemma_size_of(1021, 0x10_0000_0000_0000);
    lemma_pow2_adds(52, 1021);
    lemma_pow2_adds(1, 1073);
    let d = size(w.magnitude());
    let h = size(HALF as nat);
    let m = size(middle.magnitude());
    assert(d > 0 && h * d == m * one) by (nonlinear_arith)
        requires
            d == width * one,
            m + m == d,
            one == 2 * h,
            width > 0,
            one > 0,
    ;
    lemma_size_positive(w.magnitude());
    lemma_quotient(middle, w);
    lemma_nearest_keeps(HALF as nat, d);
}

/// Half of the field of view.
proof fn lemma_half_view()
    ensures
        product(Binary64 { bits: HALF }, Binary64 { bits: FIELD_OF_VIEW }).magnitude() <= HALF_VIEW,
{
    let x = size(HALF as nat);
    let y = size(FIELD_OF_VIEW as nat);
    let z = size(HALF_VIEW as nat);
    let one = one_in_units();
    lemma2_to64();
    lemma2_to64_rest();
    lemma_size_of(1021, 0x10_0000_0000_0000);
    lemma_size_of(1022, 0x18_0000_0000_0000);
    lemma_size_of(1021, 0x18_0000_0000_0000);
    lemma_pow2_adds(1021, 1022);
    lemma_pow2_adds(1021, 1074);
    lemma_pow2_adds(52, 2043);
    let e = pow2(2043);
    assert(x * y == (0x10_0000_0000_0000 * 0x18_0000_0000_0000) * e) by (nonlinear_arith)
        requires
            x == 0x10_0000_0000_0000 * pow2(1021),
            y == 0x18_0000_0000_0000 * pow2(1022),
            pow2(1021) * pow2(1022) == e,
    ;
    assert(z * one == (0x18_0000_0000_0000 * 0x10_0000_0000_0000) * e) by (nonlinear_arith)
        requires
            z == 0x18_0000_0000_0000 * pow2(1021),
            pow2(1021) * one == 0x10_0000_0000_0000 * e,
    ;
    lemma_product_at_most(Binary64 { bits: HALF }, Binary64 { bits: FIELD_OF_VIEW }, HALF_VIEW as nat);
}

/// Twice as many red pixels as a row has are no more than its columns add up to, and
/// three.
proof fn lemma_row_count(msg: Image, row: nat, cols: nat)
    ensures
        2 * msg.red_in_row(row, cols).len() <= whole_sum(msg.red_in_row(row, cols)) + if cols == 0 {
            0int
        } else if cols == 1 {
            2
        } else {
            3
        },
    decreases cols,
{
    if cols > 0 {
        let before = msg.red_in_row(row, (cols - 1) as nat);
        lemma_row_count(msg, row, (cols - 1) as nat);
        if msg.red(row, (cols - 1) as nat) {
            lemma_one_more_term(before, (cols - 1) as nat);
        }
    }
}

/// Few red pixels lie in the first columns, so that their number is bounded by what their
/// columns add up to.
proof fn lemma_count_by_sum(msg: Image, rows: nat)
    ensures
        2 * msg.red_columns(rows).len() <= whole_sum(msg.red_columns(rows)) + 3 * rows,
    decreases rows,
{
    if rows > 0 {
        let row = (rows - 1) as nat;
        let w = msg.width as nat;
        lemma_count_by_sum(msg, row);
        lemma_row_count(msg, row, w);
        lemma_joined_sum(msg.red_columns(row), msg.red_in_row(row, w));
    }
}

/// Where the red columns are added up without rounding, the red pixels are counted without
/// rounding too.
pub(crate) proof fn lemma_exact_columns(msg: Image)
    requires
        whole_sum(msg.red_columns(msg.height as nat)) < 2 * BINADE,
    ensures
        msg.red_columns(msg.height as nat).len() < 2 * BINADE,
        whole_sum(msg.red_columns(msg.height as nat)) <= msg.red_columns(msg.height as nat).len() * msg.width,
{
    let h = msg.height as nat;
    lemma_count_by_sum(msg, h);
    lemma_columns(msg, h);
    lemma_sum_bound(msg.red_columns(h), msg.width as nat);
}

/// The bearing to the red lies within the field of view, 0.75 rad to either side.  (The
/// red columns must be few enough to be added up without rounding.)
pub proof fn law_red_is_within_view(msg: Image)
    requires
        red_detection(msg) is Some,
        whole_sum(msg.red_columns(msg.height as nat)) < 2 * BINADE,
    ensures
        within(
            red_detection(msg).unwrap().0,
            opposite(Binary64 { bits: HALF_VIEW }),
            Binary64 { bits: HALF_VIEW },
        ),
{
    let columns = msg.red_columns(msg.height as nat);
    let w = msg.width as nat;
    lemma_exact_columns(msg);
    lemma_mean(columns, w);
    let mean = quotient(column_total(columns), from_whole(columns.len()));
    lemma_bearing_in_view(mean, w);
    lemma_opposite(Binary64 { bits: HALF_VIEW });
}

} // verus!
