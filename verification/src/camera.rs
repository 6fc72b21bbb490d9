//! Finding the intruder's red in a camera image.

use vstd::prelude::*;
use crate::binary64::arithmetic::{difference, opposite, product, quotient, sum};
use crate::binary64::convert::from_whole;
use crate::binary64::model::Binary64;
use crate::geometry::zero;
use crate::text::same_text;

pub mod laws;
pub mod mirror;
pub mod pixels;

verus! {

/// How much red a red pixel exceeds.
pub const RED_ABOVE: u8 = 150;

/// How much green a red pixel may not reach.
pub const GREEN_BELOW: u8 = 100;

/// How much blue a red pixel may not reach.
pub const BLUE_BELOW: u8 = 100;

/// How many red pixels make a detection.
pub const MIN_RED_PIXELS: u64 = 20;

/// The horizontal field of view (rad): 1.5.
pub const FIELD_OF_VIEW: u64 = 0x3FF8_0000_0000_0000;

/// Two.
pub const TWO: u64 = 0x4000_0000_0000_0000;

/// A camera image as the sensor sends it.
#[derive(Debug)]
pub struct Image {
    pub height: u32,
    pub width: u32,
    pub encoding: String,
    /// Bytes per row.
    pub step: u32,
    pub data: Vec<u8>,
}

/// Whether a text begins with another.
pub open spec fn begins_with(s: Seq<char>, prefix: Seq<char>) -> bool {
    prefix.len() <= s.len() && s.take(prefix.len() as int) == prefix
}

impl Image {
    /// Bytes per pixel; three for an encoding that is not known.
    pub open spec fn channels(self) -> nat {
        if self.encoding@ == "rgba8"@ || self.encoding@ == "bgra8"@ {
            4
        } else {
            3
        }
    }

    /// Whether blue comes first.
    pub open spec fn blue_first(self) -> bool {
        begins_with(self.encoding@, "bgr"@)
    }

    /// Where the bytes of a pixel start.
    pub open spec fn start_of(self, row: nat, col: nat) -> nat {
        row * self.step as nat + col * self.channels()
    }

    /// Whether a pixel lies within the data and is red.
    pub open spec fn red(self, row: nat, col: nat) -> bool {
        let at = self.start_of(row, col) as int;
        &&& at + 2 < self.data@.len()
        &&& (if self.blue_first() { self.data@[at + 2] } else { self.data@[at] }) > RED_ABOVE
        &&& self.data@[at + 1] < GREEN_BELOW
        &&& (if self.blue_first() { self.data@[at] } else { self.data@[at + 2] }) < BLUE_BELOW
    }

    /// The columns of the red pixels among the first `cols` of a row.
    pub open spec fn red_in_row(self, row: nat, cols: nat) -> Seq<nat>
        decreases cols,
    {
        if cols == 0 {
            Seq::empty()
        } else {
            let before = self.red_in_row(row, (cols - 1) as nat);
            if self.red(row, (cols - 1) as nat) {
                before.push((cols - 1) as nat)
            } else {
                before
            }
        }
    }

    /// The columns of the red pixels of the first `rows` rows, row by row.
    pub open spec fn red_columns(self, rows: nat) -> Seq<nat>
        decreases rows,
    {
        if rows == 0 {
            Seq::empty()
        } else {
            self.red_columns((rows - 1) as nat) + self.red_in_row((rows - 1) as nat, self.width as nat)
        }
    }

    /// Whether there are pixels at all.
    pub open spec fn holds_pixels(self) -> bool {
        self.width > 0 && self.height > 0 && self.data@.len() > 0
    }
}

/// The sum of column numbers, added up in doubles.
pub open spec fn column_total(columns: Seq<nat>) -> Binary64
    decreases columns.len(),
{
    if columns.len() == 0 {
        zero()
    } else {
        sum(column_total(columns.drop_last()), from_whole(columns.last()))
    }
}

/// The bearing to a mean column: positive to the left of the middle.
pub open spec fn column_bearing(mean: Binary64, width: nat) -> Binary64 {
    let w = from_whole(width);
    let middle = quotient(w, Binary64 { bits: TWO });
    product(quotient(opposite(difference(mean, middle)), w), Binary64 { bits: FIELD_OF_VIEW })
}

/// The bearing to the red of an image and the share of the image that is red, if enough
/// of it is.
pub open spec fn red_detection(msg: Image) -> Option<(Binary64, Binary64)> {
    let columns = msg.red_columns(msg.height as nat);
    let count = from_whole(columns.len());
    if !msg.holds_pixels() || columns.len() < MIN_RED_PIXELS {
        None
    } else {
        Some(
            (
                column_bearing(quotient(column_total(columns), count), msg.width as nat),
                quotient(count, from_whole(msg.width as nat * msg.height as nat)),
            ),
        )
    }
}

/// Whether a text begins with another.
fn starts_with(s: &str, prefix: &str) -> (r: bool)
    ensures
        r == begins_with(s@, prefix@),
{
    let n: usize = prefix.unicode_len();
    if s.unicode_len() < n {
        return false;
    }
    same_text(s.substring_char(0, n), prefix)
}

proof fn lemma_row_bound(msg: Image, row: nat, cols: nat)
    ensures
        msg.red_in_row(row, cols).len() <= cols,
    decreases cols,
{
    if cols > 0 {
        lemma_row_bound(msg, row, (cols - 1) as nat);
    }
}

/// There are no more red pixels than pixels.
pub(crate) proof fn lemma_count_bound(msg: Image, rows: nat)
    ensures
        msg.red_columns(rows).len() <= rows * msg.width,
    decreases rows,
{
    if rows > 0 {
        lemma_count_bound(msg, (rows - 1) as nat);
        lemma_row_bound(msg, (rows - 1) as nat, msg.width as nat);
        assert((rows - 1) * msg.width + msg.width == rows * msg.width) by (nonlinear_arith);
    }
}

/// The bearing to the red of an image and the share of the image that is red.
pub fn process_camera(msg: &Image) -> (r: Option<(Binary64, Binary64)>)
    ensures
        r == red_detection(*msg),
{
    let width: u32 = msg.width;
    let height: u32 = msg.height;
    let len: usize = msg.data.len();
    if width == 0 || height == 0 || len == 0 {
        return None;
    }
    let encoding: &str = msg.encoding.as_str();
    let channels: u32 = if same_text(encoding, "rgba8") || same_text(encoding, "bgra8") { 4 } else { 3 };
    let blue_first: bool = starts_with(encoding, "bgr");
    let mut total: Binary64 = Binary64::from_bits(0);
    let mut count: u64 = 0;
    let mut row: u32 = 0;
    let ghost mut columns: Seq<nat> = Seq::empty();
    while row < height
        invariant
            width == msg.width,
            height == msg.height,
            len == msg.data@.len(),
            channels == msg.channels(),
            blue_first == msg.blue_first(),
            row <= height,
            columns == msg.red_columns(row as nat),
            count == columns.len(),
            total == column_total(columns),
        decreases height - row,
    {
        let mut col: u32 = 0;
        let ghost earlier = columns;
        assert(earlier + Seq::<nat>::empty() =~= earlier);
        while col < width
            invariant
                width == msg.width,
                height == msg.height,
                len == msg.data@.len(),
                channels == msg.channels(),
                blue_first == msg.blue_first(),
                row < height,
                col <= width,
                earlier == msg.red_columns(row as nat),
                columns == earlier + msg.red_in_row(row as nat, col as nat),
                count == columns.len(),
                total == column_total(columns),
            decreases width - col,
        {
            proof {
                assert(row * msg.step <= 0xFFFF_FFFF * 0xFFFF_FFFF && col * channels <= 0xFFFF_FFFF * 4) by (nonlinear_arith)
                    requires
                        0 <= row <= 0xFFFF_FFFF,
                        0 <= msg.step <= 0xFFFF_FFFF,
                        0 <= col <= 0xFFFF_FFFF,
                        0 <= channels <= 4,
                ;
                assert(msg.red_in_row(row as nat, (col + 1) as nat) == if msg.red(row as nat, col as nat) {
                    msg.red_in_row(row as nat, col as nat).push(col as nat)
                } else {
                    msg.red_in_row(row as nat, col as nat)
                });
            }
            let at: u128 = row as u128 * msg.step as u128 + col as u128 * channels as u128;
            if at + 2 < len as u128 {
                let first: u8 = msg.data[at as usize];
                let second: u8 = msg.data[at as usize + 1];
                let third: u8 = msg.data[at as usize + 2];
                let (r, g, b) = if blue_first { (third, second, first) } else { (first, second, third) };
                if r > RED_ABOVE && g < GREEN_BELOW && b < BLUE_BELOW {
                    proof {
                        lemma_count_bound(*msg, row as nat);
                        lemma_row_bound(*msg, row as nat, col as nat);
                        assert(row * width + col < 0x1_0000_0000 * 0x1_0000_0000 - 1) by (nonlinear_arith)
                            requires
                                0 <= row < 0xFFFF_FFFF,
                                0 <= width <= 0xFFFF_FFFF,
                                0 <= col < 0xFFFF_FFFF,
                        ;
                        assert(columns.push(col as nat).drop_last() =~= columns);
                        assert(columns.push(col as nat) =~= earlier + msg.red_in_row(row as nat, (col + 1) as nat));
                        columns = columns.push(col as nat);
                    }
                    total = total.plus(Binary64::from_u64(col as u64));
                    count = count + 1;
                }
            }
            col = col + 1;
        }
        row = row + 1;
    }
    if count < MIN_RED_PIXELS {
        return None;
    }
    proof {
        assert(width * height <= 0xFFFF_FFFF * 0xFFFF_FFFF) by (nonlinear_arith)
            requires
                0 <= width <= 0xFFFF_FFFF,
                0 <= height <= 0xFFFF_FFFF,
        ;
    }
    let red: Binary64 = Binary64::from_u64(count);
    let ratio: Binary64 = red.over(Binary64::from_u64(width as u64 * height as u64));
    let mean: Binary64 = total.over(red);
    let w: Binary64 = Binary64::from_u64(width as u64);
    let middle: Binary64 = w.over(Binary64::from_bits(TWO));
    let bearing: Binary64 = mean.minus(middle).negated().over(w).times(Binary64::from_bits(FIELD_OF_VIEW));
    Some((bearing, ratio))
}

} // verus!
