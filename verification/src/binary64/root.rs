//! Square roots.

use vstd::prelude::*;
use vstd::arithmetic::power2::{lemma_pow2_adds, lemma_pow2_pos, lemma_pow2_strictly_increases, lemma_pow2_unfold, pow2};
use crate::binary64::arithmetic::{lemma_size_positive, quiet_nan, unpack};
use crate::binary64::convert::one_in_units;
use crate::binary64::model::{
    exponent, lemma_parts, lemma_size_grows, lemma_size_next, lemma_size_of, lemma_size_order, lemma_size_small,
    rounds_to, signed, significand, size, Binary64, BINADE, INFINITY, UNIT_EXPONENT,
};
use crate::binary64::rounding::{approximates, bit_length, lemma_binades, power, round, BIAS};

verus! {

/// Twice the middle between the magnitudes `p` and `p + 1`.
pub open spec fn twice_middle(p: nat) -> nat {
    size(p) + size(p + 1)
}

/// `p` is the magnitude nearest to the square root of `n`; of two that are equally near,
/// the one with the even pattern.
pub open spec fn root_rounds_to(n: nat, p: nat) -> bool {
    &&& p <= INFINITY
    &&& p > 0 ==> {
        let middle = twice_middle((p - 1) as nat);
        4 * n > middle * middle || (4 * n == middle * middle && p % 2 == 0)
    }
    &&& p < INFINITY ==> {
        let middle = twice_middle(p);
        4 * n < middle * middle || (4 * n == middle * middle && p % 2 == 0)
    }
}

/// The magnitude to which the square root of `n` is rounded.
pub open spec fn nearest_root(n: nat) -> nat {
    choose|p: nat| root_rounds_to(n, p)
}

/// The square root of `a`.
pub open spec fn square_root(a: Binary64) -> Binary64 {
    if a.is_nan_spec() {
        quiet_nan()
    } else if a.is_zero() {
        a
    } else if a.negative() {
        quiet_nan()
    } else if a.infinite() {
        a
    } else {
        signed(false, nearest_root(size(a.magnitude()) * one_in_units()))
    }
}

proof fn lemma_root_apart(n: nat, p: nat, q: nat)
    requires
        p < q,
        root_rounds_to(n, p),
    ensures
        !root_rounds_to(n, q),
{
    let r = (q - 1) as nat;
    let low = twice_middle(p);
    let high = twice_middle(r);
    if p < r {
        lemma_size_grows(p, r);
        lemma_size_grows(p + 1, r + 1);
        assert(low * low < high * high) by (nonlinear_arith)
            requires
                low < high,
        ;
    }
}

/// Whatever is found to be the rounded root of `n` is what `nearest_root` names.
pub proof fn lemma_nearest_root_is(n: nat, p: nat)
    requires
        root_rounds_to(n, p),
    ensures
        nearest_root(n) == p,
{
    let q = nearest_root(n);
    if p < q {
        lemma_root_apart(n, p, q);
    } else if q < p {
        lemma_root_apart(n, q, p);
    }
}

proof fn lemma_root_from(n: nat, q: nat)
    requires
        q <= INFINITY,
        size(q) * size(q) <= n,
    ensures
        root_rounds_to(n, nearest_root(n)),
    decreases INFINITY - q,
{
    let here = size(q);
    if q > 0 {
        let before = twice_middle((q - 1) as nat);
        lemma_size_grows((q - 1) as nat, q);
        assert(before * before < 4 * (here * here)) by (nonlinear_arith)
            requires
                0 <= before < 2 * here,
        ;
    }
    if q < INFINITY {
        let next = size(q + 1);
        if n < next * next {
            let after = twice_middle(q + 1);
            lemma_size_grows(q + 1, q + 2);
            assert(4 * (next * next) < after * after) by (nonlinear_arith)
                requires
                    0 <= 2 * next < after,
            ;
            let middle = twice_middle(q);
            if 4 * n < middle * middle || (4 * n == middle * middle && q % 2 == 0) {
                assert(root_rounds_to(n, q));
            } else {
                assert(root_rounds_to(n, q + 1));
            }
        } else {
            lemma_root_from(n, q + 1);
        }
    } else {
        assert(root_rounds_to(n, q));
    }
}

/// Every root is rounded to something.
pub proof fn lemma_root_exists(n: nat)
    ensures
        root_rounds_to(n, nearest_root(n)),
{
    lemma_size_small();
    lemma_root_from(n, 0);
}

/// The weight of one significand step, compared with the number.
proof fn lemma_step(q: nat, s: nat)
    requires
        size(q) <= s,
        BINADE <= s,
    ensures
        BINADE * pow2(exponent(q)) <= s,
{
    lemma_parts(q);
    lemma_binades();
    if exponent(q) > 0 {
        assert(BINADE * pow2(exponent(q)) <= significand(q) * pow2(exponent(q))) by (nonlinear_arith)
            requires
                BINADE <= significand(q),
        ;
    }
}

/// The square of a rounded root is the number, up to one part in 2^51.
pub proof fn lemma_root_error(n: nat)
    requires
        BINADE <= nearest_root(n) < INFINITY,
    ensures
        ({
            let r = size(nearest_root(n));
            &&& BINADE * (r * r) <= BINADE * n + 2 * (r * r)
            &&& BINADE * n <= BINADE * (r * r) + 2 * (r * r)
        }),
{
    let p = nearest_root(n);
    let q = (p - 1) as nat;
    let r = size(p);
    lemma_root_exists(n);
    lemma_size_next(p);
    lemma_size_next(q);
    lemma_binades();
    lemma_size_of(0, BINADE as nat);
    lemma_size_order(BINADE as nat, p);
    lemma_step(p, r);
    lemma_step(q, r);
    let up = pow2(exponent(p));
    let down = pow2(exponent(q));
    let high = 2 * r + up;
    let low = 2 * r - down;
    assert(twice_middle(p) == high && twice_middle(q) == low);
    assert(BINADE * n <= BINADE * (r * r) + 2 * (r * r)) by (nonlinear_arith)
        requires
            4 * n <= high * high,
            high == 2 * r + up,
            BINADE * up <= r,
            up >= 0,
            BINADE == 0x10_0000_0000_0000,
    {
        assert(high * high == 4 * (r * r) + 4 * (r * up) + up * up);
        assert(up * up <= r * up);
        assert(r * (BINADE * up) <= r * r);
        assert(BINADE * (r * up) == r * (BINADE * up));
    }
    assert(BINADE * (r * r) <= BINADE * n + 2 * (r * r)) by (nonlinear_arith)
        requires
            4 * n >= low * low,
            low == 2 * r - down,
            BINADE * down <= r,
            down >= 0,
            BINADE == 0x10_0000_0000_0000,
    {
        assert(low * low == 4 * (r * r) - 4 * (r * down) + down * down);
        assert(r * (BINADE * down) <= r * r);
        assert(BINADE * (r * down) == r * (BINADE * down));
    }
}

/// The root of a number that is at most `c` squared is at most `c`.
pub proof fn lemma_root_at_most(a: Binary64, c: nat)
    requires
        a.finite(),
        !a.negative(),
        c <= INFINITY,
        size(a.magnitude()) * one_in_units() <= size(c) * size(c),
    ensures
        !square_root(a).is_nan_spec(),
        !square_root(a).negative(),
        square_root(a).magnitude() <= c,
{
    if !a.is_zero() {
        let n = size(a.magnitude()) * one_in_units();
        let p = nearest_root(n);
        let here = size(c);
        lemma_root_exists(n);
        if p > c {
            let r = (p - 1) as nat;
            let middle = twice_middle(r);
            lemma_size_grows(r, r + 1);
            if c < r {
                lemma_size_grows(c, r);
            }
            assert(4 * (here * here) < middle * middle) by (nonlinear_arith)
                requires
                    0 <= 2 * here < middle,
            ;
        }
    }
}

/// The root of a number that is at least `c` squared is at least `c`.
pub proof fn lemma_root_at_least(a: Binary64, c: nat)
    requires
        a.finite(),
        !a.negative(),
        c <= INFINITY,
        size(a.magnitude()) * one_in_units() >= size(c) * size(c),
    ensures
        !square_root(a).is_nan_spec(),
        !square_root(a).negative(),
        square_root(a).magnitude() >= c,
{
    let n = size(a.magnitude()) * one_in_units();
    let here = size(c);
    if a.is_zero() {
        lemma_size_small();
        lemma_size_positive(c);
        assert(n == 0) by (nonlinear_arith)
            requires
                n == 0 * one_in_units(),
        ;
        assert(here == 0) by (nonlinear_arith)
            requires
                here * here <= 0,
                here >= 0,
        ;
    } else {
        let p = nearest_root(n);
        lemma_root_exists(n);
        if p < c {
            let middle = twice_middle(p);
            lemma_size_grows(p, p + 1);
            if p + 1 < c {
                lemma_size_grows(p + 1, c);
            }
            assert(middle * middle < 4 * (here * here)) by (nonlinear_arith)
                requires
                    0 <= middle < 2 * here,
            ;
        }
    }
}

/// The whole part of a square root.
fn whole_root(x: u128) -> (r: u128)
    requires
        x < 0x4000_0000_0000_0000_0000_0000_0000_0000,
    ensures
        r < 0x8000_0000_0000_0000,
        r * r <= x < (r + 1) * (r + 1),
{
    let mut r: u128 = 0;
    let mut step: u128 = 0x4000_0000_0000_0000;
    let mut i: u32 = 63;
    proof {
        vstd::arithmetic::power2::lemma2_to64_rest();
    }
    while i > 0
        invariant
            i <= 63,
            i > 0 ==> step == pow2((i - 1) as nat),
            r + pow2(i as nat) <= 0x8000_0000_0000_0000,
            r * r <= x,
            x < (r + pow2(i as nat)) * (r + pow2(i as nat)),
        decreases i,
    {
        proof {
            lemma_pow2_unfold(i as nat);
            lemma_pow2_pos((i - 1) as nat);
        }
        let next: u128 = r + step;
        proof {
            assert(next * next < 0x4000_0000_0000_0000_0000_0000_0000_0000) by (nonlinear_arith)
                requires
                    0 <= next < 0x8000_0000_0000_0000,
            ;
        }
        if next * next <= x {
            r = next;
        }
        i = i - 1;
        proof {
            if i > 0 {
                lemma_pow2_unfold(i as nat);
            }
        }
        step = step / 2;
    }
    proof {
        lemma_binades();
    }
    r
}

/// What is known of a rounded value that has leading bits `m` carries over to the root
/// with those leading bits.
proof fn lemma_root_side(m: nat, k: nat, cut: bool, n: nat, p: nat)
    requires
        p <= INFINITY,
        forall|a: nat, d: nat| d > 0 && #[trigger] approximates(m, k, cut, a, d) ==> rounds_to(a, d, p),
        ({
            let w = pow2(BIAS as nat);
            let low = m * pow2(k);
            let high = (m + 1) * pow2(k);
            if cut {
                low * low < n * (w * w) < high * high
            } else {
                n * (w * w) == low * low
            }
        }),
    ensures
        root_rounds_to(n, p),
{
    let w = pow2(BIAS as nat);
    let e = pow2(k);
    let low = m * e;
    let high = (m + 1) * e;
    lemma_pow2_pos(BIAS as nat);
    lemma_pow2_pos(k);
    if cut {
        // a value just above the lower end, and one just below the upper end
        let d = w * 4;
        let a = low * 4 + 1;
        let b = (high * 4 - 1) as nat;
        let unit = e * d;
        assert(high == low + e) by (nonlinear_arith)
            requires
                low == m * e,
                high == (m + 1) * e,
        ;
        assert(d > 0);
        assert(m * unit < a * w < (m + 1) * unit && m * unit < b * w < (m + 1) * unit) by (nonlinear_arith)
            requires
                unit == e * (w * 4),
                low == m * e,
                high == (m + 1) * e,
                high == low + e,
                a == low * 4 + 1,
                b == high * 4 - 1,
                w > 0,
                e > 0,
        {
            assert(m * (e * (w * 4)) == ((m * e) * 4) * w);
            assert((m + 1) * (e * (w * 4)) == (((m + 1) * e) * 4) * w);
            assert(((m * e) * 4) * w < (low * 4 + 1) * w);
            assert((low * 4 + 1) * w < (high * 4) * w);
            assert(b * w < (high * 4) * w);
            assert((low * 4) * w < b * w);
        }
        assert(approximates(m, k, cut, a, d));
        assert(approximates(m, k, cut, b, d));
        if p > 0 {
            let middle = twice_middle((p - 1) as nat);
            assert(2 * a >= middle * d);
            assert(middle * w <= 2 * low) by (nonlinear_arith)
                requires
                    2 * (low * 4 + 1) >= middle * (w * 4),
            {
                assert(middle * (w * 4) == 4 * (middle * w));
            }
            assert(4 * n > middle * middle) by (nonlinear_arith)
                requires
                    middle * w <= 2 * low,
                    low * low < n * (w * w),
                    w > 0,
            {
                assert((middle * w) * (middle * w) <= (2 * low) * (2 * low));
                assert((middle * w) * (middle * w) == (middle * middle) * (w * w));
                assert((2 * low) * (2 * low) == 4 * (low * low));
                assert((middle * middle) * (w * w) < (4 * n) * (w * w));
            }
        }
        if p < INFINITY {
            let middle = twice_middle(p);
            assert(2 * b <= middle * d);
            assert(middle * w >= 2 * high) by (nonlinear_arith)
                requires
                    2 * (high * 4 - 1) <= middle * (w * 4),
            {
                assert(middle * (w * 4) == 4 * (middle * w));
            }
            assert(4 * n < middle * middle) by (nonlinear_arith)
                requires
                    middle * w >= 2 * high,
                    n * (w * w) < high * high,
                    w > 0,
            {
                assert((middle * w) * (middle * w) >= (2 * high) * (2 * high));
                assert((middle * w) * (middle * w) == (middle * middle) * (w * w));
                assert((2 * high) * (2 * high) == 4 * (high * high));
                assert((4 * n) * (w * w) < (middle * middle) * (w * w));
            }
        }
    } else {
        assert(low * w == m * (e * w)) by (nonlinear_arith)
            requires
                low == m * e,
        ;
        assert(approximates(m, k, cut, low, w));
        if p > 0 {
            lemma_root_compare(n, low, w, twice_middle((p - 1) as nat));
        }
        if p < INFINITY {
            lemma_root_compare(n, low, w, twice_middle(p));
        }
    }
}

/// The exact root `low / w` of `n` stands to a middle as `n` stands to its square.
proof fn lemma_root_compare(n: nat, low: nat, w: nat, middle: nat)
    requires
        w > 0,
        n * (w * w) == low * low,
    ensures
        2 * low > middle * w ==> 4 * n > middle * middle,
        2 * low == middle * w ==> 4 * n == middle * middle,
        2 * low < middle * w ==> 4 * n < middle * middle,
{
    let square = (middle * w) * (middle * w);
    assert(square == (middle * middle) * (w * w)) by (nonlinear_arith)
        requires
            square == (middle * w) * (middle * w),
    ;
    assert((2 * low) * (2 * low) == (4 * n) * (w * w)) by (nonlinear_arith)
        requires
            n * (w * w) == low * low,
    ;
    let ww = w * w;
    assert(ww > 0) by (nonlinear_arith)
        requires
            ww == w * w,
            w > 0,
    ;
    if 2 * low > middle * w {
        assert(square < (2 * low) * (2 * low)) by (nonlinear_arith)
            requires
                square == (middle * w) * (middle * w),
                2 * low > middle * w,
        ;
        assert(4 * n > middle * middle) by (nonlinear_arith)
            requires
                (middle * middle) * ww < (4 * n) * ww,
        ;
    } else if 2 * low == middle * w {
        assert(4 * n == middle * middle) by (nonlinear_arith)
            requires
                (middle * middle) * ww == (4 * n) * ww,
                ww > 0,
        ;
    } else {
        assert(square > (2 * low) * (2 * low)) by (nonlinear_arith)
            requires
                square == (middle * w) * (middle * w),
                2 * low < middle * w,
        ;
        assert(4 * n < middle * middle) by (nonlinear_arith)
            requires
                (middle * middle) * ww > (4 * n) * ww,
        ;
    }
}

impl Binary64 {
    /// The square root.
    #[verifier::rlimit(30)]
    pub fn sqrt(self) -> (r: Binary64)
        ensures
            r == square_root(self),
    {
        let ma: u64 = self.pattern();
        if ma > INFINITY {
            return Self::nan();
        }
        if ma == 0 {
            return self;
        }
        if self.is_negative() {
            return Self::nan();
        }
        if ma == INFINITY {
            return self;
        }
        let (s, t) = unpack(ma);
        let ghost n = size(ma as nat) * one_in_units();
        let l: u32 = bit_length(s as u128);
        proof {
            lemma_binades();
            if l > 54 {
                lemma_pow2_strictly_increases(53, (l - 1) as nat);
            }
        }
        // an even exponent is left for the root to halve
        let z: u32 = if (t + 126 - l) % 2 == 0 { 126 - l } else { 125 - l };
        proof {
            lemma_root_operand(s as nat, l as nat, z as nat);
        }
        let x: u128 = s as u128 * power(z);
        let m: u128 = whole_root(x);
        let h: u32 = (t + UNIT_EXPONENT - z) / 2;
        let k: u32 = h + BIAS;
        let cut: bool = m * m != x;
        proof {
            assert(m >= 4 * BINADE) by (nonlinear_arith)
                requires
                    x < (m + 1) * (m + 1),
                    x >= 0x1000_0000_0000_0000_0000_0000_0000_0000,
            ;
        }
        let p: u64 = round(m, k, cut);
        proof {
            let w = pow2(BIAS as nat);
            let e = pow2(k as nat);
            let g = pow2(h as nat);
            lemma_pow2_pos(k as nat);
            lemma_pow2_adds(h as nat, BIAS as nat);
            lemma_pow2_adds(h as nat, h as nat);
            lemma_pow2_adds(t as nat, UNIT_EXPONENT as nat);
            lemma_pow2_adds(z as nat, (2 * h) as nat);
            assert(n * (w * w) == x * (e * e)) by (nonlinear_arith)
                requires
                    n == (s as nat * pow2(t as nat)) * one_in_units(),
                    x == s * pow2(z as nat),
                    pow2(t as nat) * one_in_units() == pow2(z as nat) * (g * g),
                    e == g * w,
            {
                assert(n == s as nat * (pow2(z as nat) * (g * g)));
                assert(n * (w * w) == (s as nat * pow2(z as nat)) * ((g * w) * (g * w)));
            }
            let low = m as nat * e;
            let high = (m + 1) as nat * e;
            let ee = e * e;
            assert(low * low == (m * m) * ee && high * high == ((m + 1) * (m + 1)) * ee && ee > 0) by (nonlinear_arith)
                requires
                    low == m as nat * e,
                    high == (m + 1) as nat * e,
                    ee == e * e,
                    e > 0,
            ;
            assert(x * ee < ((m + 1) * (m + 1)) * ee && (m * m < x ==> (m * m) * ee < x * ee)) by (nonlinear_arith)
                requires
                    x < (m + 1) * (m + 1),
                    ee > 0,
            ;
            lemma_root_side(m as nat, k as nat, cut, n, p as nat);
            lemma_nearest_root_is(n, p as nat);
        }
        Self::with_sign(false, p)
    }
}

/// A significand moved up to bit 124 or 125.
proof fn lemma_root_operand(s: nat, l: nat, z: nat)
    requires
        1 <= l <= 54,
        pow2((l - 1) as nat) <= s < pow2(l),
        z == 126 - l || z == 125 - l,
    ensures
        0x1000_0000_0000_0000_0000_0000_0000_0000 <= s * pow2(z) < 0x4000_0000_0000_0000_0000_0000_0000_0000,
{
    lemma_binades();
    vstd::arithmetic::power2::lemma2_to64_rest();
    lemma_pow2_adds((l - 1) as nat, z);
    lemma_pow2_adds(l, z);
    lemma_pow2_pos(z);
    lemma_pow2_adds(62, 62);
    lemma_pow2_unfold(125);
    lemma_pow2_unfold(126);
    assert(pow2((l - 1) as nat) * pow2(z) <= s * pow2(z) < pow2(l) * pow2(z)) by (nonlinear_arith)
        requires
            pow2((l - 1) as nat) <= s < pow2(l),
            pow2(z) > 0,
    ;
}

} // verus!
