//! Every pixel counts alike.

use vstd::prelude::*;
use crate::binary64::arithmetic::{difference, lemma_size_positive, opposite, quotient};
use crate::binary64::convert::{from_whole, one_in_units};
use crate::binary64::facts::lemma_whole_is_exact;
use crate::binary64::model::{Binary64, BINADE};
use crate::binary64::nearness::{close, grain, lemma_bounded_quotient, lemma_grain};
use crate::camera::laws::{lemma_exact_columns, whole_sum};
use crate::camera::mirror::{lemma_bearing_errors, lemma_errors_add_up, lemma_mean_error};
use crate::camera::{column_bearing, column_total, red_detection, Image, TWO};

verus! {

/// A pixel is red exactly where its bytes lie within the data, its red is above 150 and its
/// green and blue are below 100, whatever its place.  A pixel has four bytes in the encodings
/// "rgba8" and "bgra8" and three in all others; blue comes first where the name of the
/// encoding starts with "bgr", red in all others.
pub proof fn law_redness(msg: Image, row: nat, col: nat)
    ensures
        ({
            let four = msg.encoding@ == "rgba8"@ || msg.encoding@ == "bgra8"@;
            let at = row * msg.step + col * (if four { 4int } else { 3 });
            let e = msg.encoding@;
            let blue_first = e.len() >= 3 && e[0] == 'b' && e[1] == 'g' && e[2] == 'r';
            let (first, second, third) = (msg.data@[at], msg.data@[at + 1], msg.data@[at + 2]);
            &&& at + 3 > msg.data@.len() ==> !msg.red(row, col)
            &&& at + 3 <= msg.data@.len() && !blue_first ==> (msg.red(row, col) <==> first > 150 && second < 100 && third
                < 100)
            &&& at + 3 <= msg.data@.len() && blue_first ==> (msg.red(row, col) <==> third > 150 && second < 100 && first
                < 100)
        }),
{
    let e = msg.encoding@;
    reveal_strlit("bgr");
    if e.len() >= 3 && e[0] == 'b' && e[1] == 'g' && e[2] == 'r' {
        assert(e.take(3) =~= "bgr"@);
    } else if e.len() >= 3 && e.take(3) == "bgr"@ {
        assert(e[0] == e.take(3)[0] && e[1] == e.take(3)[1] && e[2] == e.take(3)[2]);
    }
    assert(msg.start_of(row, col) == row * msg.step + col * msg.channels());
}

/// The places of the red pixels of an image.
pub open spec fn red_places(msg: Image) -> Set<(nat, nat)> {
    Set::new(|p: (nat, nat)| p.0 < msg.height && p.1 < msg.width && msg.red(p.0, p.1))
}

/// The places of the red pixels of the first rows and of the first columns of the next.
spec fn places_before(msg: Image, rows: nat, cols: nat) -> Set<(nat, nat)> {
    Set::new(|p: (nat, nat)| (p.0 < rows && p.1 < msg.width || p.0 == rows && p.1 < cols) && msg.red(p.0, p.1))
}

/// As many places as columns are listed.
proof fn lemma_places(msg: Image, rows: nat, cols: nat)
    requires
        cols <= msg.width,
    ensures
        places_before(msg, rows, cols).finite(),
        places_before(msg, rows, cols).len() == msg.red_columns(rows).len() + msg.red_in_row(rows, cols).len(),
    decreases rows, cols,
{
    if cols > 0 {
        let c = (cols - 1) as nat;
        let before = places_before(msg, rows, c);
        lemma_places(msg, rows, c);
        if msg.red(rows, c) {
            assert(places_before(msg, rows, cols) =~= before.insert((rows, c)));
        } else {
            assert(places_before(msg, rows, cols) =~= before);
        }
    } else if rows > 0 {
        let r = (rows - 1) as nat;
        lemma_places(msg, r, msg.width as nat);
        assert(places_before(msg, rows, 0) =~= places_before(msg, r, msg.width as nat));
    } else {
        assert(places_before(msg, 0, 0) =~= Set::<(nat, nat)>::empty());
    }
}

/// Every red pixel of an image is counted once, and nothing else is; there is a detection
/// exactly where there are at least twenty of them.
pub proof fn law_every_red_pixel_counts(msg: Image)
    ensures
        red_places(msg).finite(),
        msg.red_columns(msg.height as nat).len() == red_places(msg).len(),
        msg.data@.len() > 0 ==> (red_detection(msg) is Some <==> red_places(msg).len() >= 20),
        msg.data@.len() == 0 ==> red_detection(msg) is None,
{
    lemma_places(msg, msg.height as nat, 0);
    assert(red_places(msg) =~= places_before(msg, msg.height as nat, 0));
    if msg.width == 0 || msg.height == 0 {
        assert(red_places(msg) =~= Set::<(nat, nat)>::empty());
    }
}

/// The rows in which a column is red.
pub open spec fn red_rows(msg: Image, col: nat, rows: nat) -> Set<nat> {
    Set::new(|row: nat| row < rows && msg.red(row, col))
}

/// How often a column is listed for one row.
proof fn lemma_row_lists_once(msg: Image, row: nat, cols: nat, col: nat)
    ensures
        msg.red_in_row(row, cols).to_multiset().count(col) == if col < cols && msg.red(row, col) { 1nat } else { 0 },
    decreases cols,
{
    broadcast use vstd::seq_lib::group_to_multiset_ensures;

    if cols > 0 {
        lemma_row_lists_once(msg, row, (cols - 1) as nat, col);
    }
}

/// Each column is listed as often as it is red, so that the mean is over all red pixels.
pub proof fn law_columns_are_listed_as_often_as_red(msg: Image, rows: nat, col: nat)
    requires
        col < msg.width,
    ensures
        red_rows(msg, col, rows).finite(),
        msg.red_columns(rows).to_multiset().count(col) == red_rows(msg, col, rows).len(),
    decreases rows,
{
    broadcast use vstd::seq_lib::group_to_multiset_ensures;

    if rows > 0 {
        let r = (rows - 1) as nat;
        let before = red_rows(msg, col, r);
        law_columns_are_listed_as_often_as_red(msg, r, col);
        lemma_row_lists_once(msg, r, msg.width as nat, col);
        vstd::seq_lib::lemma_multiset_commutative(msg.red_columns(r), msg.red_in_row(r, msg.width as nat));
        if msg.red(r, col) {
            assert(red_rows(msg, col, rows) =~= before.insert(r));
        } else {
            assert(red_rows(msg, col, rows) =~= before);
        }
    } else {
        assert(red_rows(msg, col, rows) =~= Set::<nat>::empty());
    }
}

/// The red share is the number of red pixels over the number of pixels, up to rounding.
pub proof fn law_share(msg: Image)
    requires
        red_detection(msg) is Some,
        msg.width * msg.height < 2 * BINADE,
    ensures
        close(
            red_detection(msg).unwrap().1.units() * (msg.width * msg.height),
            (red_places(msg).len() * one_in_units()) as int,
            (2 * grain()) * (msg.width * msg.height),
        ),
{
    let n = msg.red_columns(msg.height as nat).len();
    let m = msg.width as nat * msg.height as nat;
    let one = one_in_units() as int;
    let g = grain() as int;
    law_every_red_pixel_counts(msg);
    crate::camera::lemma_count_bound(msg, msg.height as nat);
    assert(msg.height * msg.width == m) by (nonlinear_arith)
        requires
            m == msg.width * msg.height,
    ;
    lemma_whole_is_exact(n);
    lemma_whole_is_exact(m);
    lemma_grain();
    assert(n * one <= 1 * (m * one) && m * one > 0) by (nonlinear_arith)
        requires
            0 < n <= m,
            one > 0,
    ;
    lemma_size_positive(from_whole(m).magnitude());
    lemma_bounded_quotient(from_whole(n), from_whole(m), 1);
    let q = red_detection(msg).unwrap().1.units();
    assert((q * m - n * one) * one == q * (m * one) - (n * one) * one && ((1 + 1) * g) * (m * one) == ((2 * g) * m) * one)
        by (nonlinear_arith);
    crate::binary64::nearness::lemma_cancel(q * m - n * one, (2 * g) * m, one);
}

/// The bearing is 1.5 rad times how far the mean red column lies to the left of the middle, as
/// a share of the width, up to rounding: 0.75 rad at the left edge, none in the middle.
pub proof fn law_bearing(msg: Image)
    requires
        red_detection(msg) is Some,
        whole_sum(msg.red_columns(msg.height as nat)) < 2 * BINADE,
    ensures
        ({
            let w = msg.width as int;
            let n = red_places(msg).len() as int;
            let total = whole_sum(msg.red_columns(msg.height as nat));
            let b = red_detection(msg).unwrap().0.units();
            close(4 * (b * w * n), 3 * ((w * n - 2 * total) * one_in_units()), 25 * (n * w * grain()))
        }),
{
    let columns = msg.red_columns(msg.height as nat);
    let w = msg.width as nat;
    let n = columns.len();
    let one = one_in_units() as int;
    let g = grain() as int;
    let u = 2 * BINADE as int;
    law_every_red_pixel_counts(msg);
    lemma_exact_columns(msg);
    lemma_mean_error(columns, w);
    let mean = quotient(column_total(columns), from_whole(n));
    lemma_bearing_errors(mean, w);
    lemma_grain();
    let wide = from_whole(w);
    let middle = quotient(wide, Binary64 { bits: TWO });
    let off = difference(mean, middle);
    let b = column_bearing(mean, w).units();
    let total = whole_sum(columns) as int;
    let half = middle.units();
    lemma_errors_add_up(
        b,
        quotient(opposite(off), wide).units(),
        off.units(),
        mean.units(),
        half,
        total,
        n as int,
        w as int,
        one,
        u,
    );
    lemma_bearing_number(b, half, total, n as int, w as int, one, u, g);
}

/// The same in numbers.
proof fn lemma_bearing_number(b: int, half: int, total: int, n: int, w: int, one: int, u: int, g: int)
    requires
        n >= 1,
        w >= 1,
        u == 0x20_0000_0000_0000,
        g >= 0x1_0000_0000,
        one == u * g,
        2 * half == w * one,
        close(u * (2 * b * w * n - 3 * (half * n - total * one)), 0, 12 * (n * w * one) + 12 * (u * n * w)),
    ensures
        close(4 * (b * w * n), 3 * ((w * n - 2 * total) * one), 25 * (n * w * g)),
{
    let e = 2 * b * w * n - 3 * (half * n - total * one);
    let k = n * w;
    assert(12 * (n * w * one) + 12 * (u * n * w) == u * (12 * (k * g) + 12 * k)) by (nonlinear_arith)
        requires
            k == n * w,
            one == u * g,
    ;
    assert(-(12 * (k * g) + 12 * k) <= e <= 12 * (k * g) + 12 * k) by (nonlinear_arith)
        requires
            -(u * (12 * (k * g) + 12 * k)) <= u * e <= u * (12 * (k * g) + 12 * k),
            u > 0,
    ;
    assert(24 * k <= k * g && k > 0) by (nonlinear_arith)
        requires
            k == n * w,
            n >= 1,
            w >= 1,
            g >= 0x1_0000_0000,
    ;
    assert(2 * (half * n) == (w * n) * one) by (nonlinear_arith)
        requires
            2 * half == w * one,
    ;
    assert((w * n - 2 * total) * one == (w * n) * one - 2 * (total * one)) by (nonlinear_arith);
    assert(2 * b * w * n == 2 * (b * w * n) && n * w * g == k * g) by (nonlinear_arith)
        requires
            k == n * w,
    ;
}

} // verus!
