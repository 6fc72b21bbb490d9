//! Rounding an exact result to the nearest double.

use vstd::prelude::*;
use vstd::arithmetic::power2::{
    lemma2_to64, lemma2_to64_rest, lemma_pow2_adds, lemma_pow2_pos, lemma_pow2_strictly_increases, lemma_pow2_unfold,
    pow2,
};
use crate::binary64::model::{
    above_middle, below_middle, lemma_between, lemma_beyond, lemma_nearest_is, lemma_size_grows, lemma_size_of, nearest,
    on_middle, rounds_to, size, BINADE, INFINITY,
};

verus! {

/// Exponents are held this much too large, so that they are never negative.
pub const BIAS: u32 = 4096;

/// Where `m * 2^(k - BIAS)` stands to the exact value `n / d`: equal to it, or, where
/// something was cut off, below it by less than one step of `m`.
pub open spec fn approximates(m: nat, k: nat, cut: bool, n: nat, d: nat) -> bool {
    let unit = pow2(k) * d;
    let exact = n * pow2(BIAS as nat);
    if cut {
        m * unit < exact < (m + 1) * unit
    } else {
        exact == m * unit
    }
}

/// The powers of two that matter to the layout of a double.
pub proof fn lemma_binades()
    ensures
        pow2(0) == 1,
        pow2(1) == 2,
        pow2(8) == 256,
        pow2(52) == BINADE,
        pow2(53) == 2 * BINADE,
        pow2(54) == 4 * BINADE,
{
    lemma2_to64();
    lemma2_to64_rest();
}

proof fn lemma_shift_is_pow2(k: u32)
    requires
        k < 128,
    ensures
        (1u128 << k) == pow2(k as nat),
    decreases k,
{
    if k == 0 {
        lemma2_to64();
        assert((1u128 << 0u32) == 1) by (bit_vector);
    } else {
        let j = (k - 1) as u32;
        lemma_shift_is_pow2(j);
        lemma_pow2_unfold(k as nat);
        assert((1u128 << k) == 2 * (1u128 << j)) by (bit_vector)
            requires
                k < 128,
                k == j + 1,
        ;
    }
}

/// 2^k.
pub fn power(k: u32) -> (r: u128)
    requires
        k < 128,
    ensures
        r == pow2(k as nat),
{
    proof {
        lemma_shift_is_pow2(k);
    }
    1u128 << k
}

/// The number of bits that a positive integer takes.
pub fn bit_length(m: u128) -> (l: u32)
    requires
        m > 0,
    ensures
        1 <= l <= 128,
        pow2((l - 1) as nat) <= m < pow2(l as nat),
{
    let mut x: u128 = m;
    let mut l: u32 = 0;
    proof {
        lemma2_to64();
    }
    while x >= 256
        invariant
            x > 0,
            l <= 120,
            l % 8 == 0,
            x * pow2(l as nat) <= m < (x + 1) * pow2(l as nat),
            x >= 256 ==> l < 120,
        decreases x,
    {
        let y: u128 = x / 256;
        proof {
            lemma2_to64();
            lemma_pow2_adds(l as nat, 8);
            let w = pow2(l as nat);
            assert(y * (w * 256) <= x * w && (x + 1) * w <= (y + 1) * (w * 256)) by (nonlinear_arith)
                requires
                    y * 256 <= x,
                    x + 1 <= (y + 1) * 256,
            ;
            lemma_fits(m, y, (l + 8) as nat);
        }
        x = y;
        l = l + 8;
    }
    while x > 1
        invariant
            0 < x,
            l <= 127,
            x * pow2(l as nat) <= m < (x + 1) * pow2(l as nat),
            x > 1 ==> l < 127,
        decreases x,
    {
        let y: u128 = x / 2;
        proof {
            lemma2_to64();
            lemma_pow2_adds(l as nat, 1);
            let w = pow2(l as nat);
            assert(y * (w * 2) <= x * w && (x + 1) * w <= (y + 1) * (w * 2)) by (nonlinear_arith)
                requires
                    y * 2 <= x,
                    x + 1 <= (y + 1) * 2,
            ;
            lemma_fits(m, y, (l + 1) as nat);
        }
        x = y;
        l = l + 1;
    }
    proof {
        lemma_pow2_unfold((l + 1) as nat);
    }
    l + 1
}

/// The magnitude nearest to every exact value that has the leading bits `m` at exponent
/// `k`, with or without something cut off below them.
pub fn round(m: u128, k: u32, cut: bool) -> (p: u64)
    requires
        m > 0,
        k <= 3 * BIAS,
        cut ==> m >= 4 * BINADE,
    ensures
        p <= INFINITY,
        forall|n: nat, d: nat| d > 0 && #[trigger] approximates(m as nat, k as nat, cut, n, d) ==> rounds_to(n, d, p as nat),
        forall|n: nat, d: nat| d > 0 && #[trigger] approximates(m as nat, k as nat, cut, n, d) ==> nearest(n, d) == p,
{
    let l: u32 = bit_length(m);
    let high: u32 = if l + k > BIAS + 53 { l + k - 53 } else { BIAS };
    let t: u32 = high - BIAS;
    if t >= 2046 {
        proof {
            assert forall|n: nat, d: nat| d > 0 && #[trigger] approximates(m as nat, k as nat, cut, n, d) implies rounds_to(
                n,
                d,
                INFINITY as nat,
            ) && nearest(n, d) == INFINITY by {
                lemma_large(m as nat, k as nat, l as nat, cut, n, d);
                lemma_nearest_is(n, d, INFINITY as nat);
            }
        }
        return INFINITY;
    }
    proof {
        lemma_binades();
        if cut && l < 54 {
            lemma_pow2_strictly_increases(l as nat, 54);
        }
    }
    let (s, up) = if high <= k {
        let grow: u32 = k - high;
        proof {
            lemma_product_below(m as nat, l as nat, grow as nat);
        }
        (m * power(grow), false)
    } else if high - k > l {
        (0u128, false)
    } else {
        let half: u128 = power(high - k - 1);
        proof {
            lemma_pow2_pos((high - k - 1) as nat);
        }
        let doubled: u128 = m / half;
        let rest: u128 = m % half;
        let s: u128 = doubled / 2;
        (s, doubled % 2 == 1 && (rest > 0 || cut || s % 2 == 1))
    };
    let ghost base = t as nat * BINADE as nat + s as nat;
    let ghost p = if up { base + 1 } else { base };
    proof {
        lemma_short(m as nat, k as nat, l as nat, high as nat, s as nat);
        assert forall|n: nat, d: nat| d > 0 && #[trigger] approximates(m as nat, k as nat, cut, n, d) implies rounds_to(
            n,
            d,
            p,
        ) && nearest(n, d) == p by {
            lemma_position(m as nat, k as nat, l as nat, cut, n, d, high as nat, s as nat, up);
            lemma_nearest_is(n, d, p);
        }
    }
    let base: u64 = t as u64 * BINADE + s as u64;
    if up { base + 1 } else { base }
}

proof fn lemma_product_below(m: nat, l: nat, grow: nat)
    requires
        m < pow2(l),
        l + grow <= 53,
    ensures
        m * pow2(grow) < 2 * BINADE,
{
    lemma_binades();
    lemma_pow2_pos(grow);
    lemma_pow2_adds(l, grow);
    assert(m * pow2(grow) < pow2(l) * pow2(grow)) by (nonlinear_arith)
        requires
            m < pow2(l),
            pow2(grow) > 0,
    ;
    if l + grow < 53 {
        lemma_pow2_strictly_increases(l + grow, 53);
    }
}

/// Comparisons are the same after both sides were multiplied by `w`.
proof fn lemma_scaled(a: nat, b: nat, w: nat)
    requires
        w > 0,
    ensures
        a * w < b * w <==> a < b,
        a * w == b * w <==> a == b,
{
    assert(a * w < b * w <==> a < b) by (nonlinear_arith)
        requires
            w > 0,
    ;
    assert(b * w < a * w <==> b < a) by (nonlinear_arith)
        requires
            w > 0,
    ;
}

/// Too long a number is rounded to infinity.
proof fn lemma_large(m: nat, k: nat, l: nat, cut: bool, n: nat, d: nat)
    requires
        d > 0,
        l > 0,
        pow2((l - 1) as nat) <= m,
        l + k >= BIAS + 53 + 2046,
        approximates(m, k, cut, n, d),
    ensures
        rounds_to(n, d, INFINITY as nat),
{
    let w = pow2(BIAS as nat);
    let unit = pow2(k) * d;
    let top = (l - 1 + k) as nat;
    lemma_binades();
    lemma_pow2_pos(BIAS as nat);
    lemma_pow2_adds((l - 1) as nat, k);
    lemma_size_of(2046, BINADE as nat);
    lemma_pow2_adds(52, 2046);
    lemma_pow2_adds(2098, BIAS as nat);
    if top > 2098 + BIAS {
        lemma_pow2_strictly_increases((2098 + BIAS) as nat, top);
    }
    assert(m * unit >= pow2(top) * d) by (nonlinear_arith)
        requires
            unit == pow2(k) * d,
            m >= pow2((l - 1) as nat),
            pow2(top) == pow2((l - 1) as nat) * pow2(k),
    ;
    assert(pow2(top) * d >= (pow2(2098) * d) * w) by (nonlinear_arith)
        requires
            pow2(top) >= pow2(2098) * w,
    ;
    assert(!(n * w < (pow2(2098) * d) * w));
    lemma_scaled(n, pow2(2098) * d, w);
    lemma_beyond(n, d);
}

/// The significand `s` that is left of `m` at exponent `high` is neither too long nor
/// too short.
proof fn lemma_short(m: nat, k: nat, l: nat, high: nat, s: nat)
    requires
        m > 0,
        l > 0,
        pow2((l - 1) as nat) <= m < pow2(l),
        high == (if l + k > BIAS + 53 { (l + k - 53) as nat } else { BIAS as nat }),
        high <= k ==> s == m * pow2((k - high) as nat),
        high > k && high - k > l ==> s == 0,
        high > k && high - k <= l ==> s == (m / pow2((high - k - 1) as nat)) / 2,
    ensures
        s < 2 * BINADE,
        high > BIAS ==> s >= BINADE,
{
    lemma_binades();
    if high <= k {
        let g = (k - high) as nat;
        lemma_product_below(m, l, g);
        if high > BIAS {
            lemma_pow2_adds((l - 1) as nat, g);
            assert(s >= BINADE) by (nonlinear_arith)
                requires
                    s == m * pow2(g),
                    m >= pow2((l - 1) as nat),
                    pow2((l - 1) as nat) * pow2(g) == BINADE,
            ;
        }
    } else if high - k <= l {
        let drop = (high - k) as nat;
        let half = pow2((drop - 1) as nat);
        let doubled = m / half;
        let rest = m % half;
        let b = doubled % 2;
        let left = (l - drop) as nat;
        lemma_pow2_pos((drop - 1) as nat);
        lemma_pow2_unfold(drop);
        vstd::arithmetic::div_mod::lemma_fundamental_div_mod(m as int, half as int);
        lemma_pow2_adds(left, drop);
        assert(s < pow2(left)) by (nonlinear_arith)
            requires
                m == half * (2 * s + b) + rest,
                m < pow2(left) * (2 * half),
                half > 0,
        ;
        if left < 53 {
            lemma_pow2_strictly_increases(left, 53);
        }
        if high > BIAS {
            lemma_pow2_adds(52, drop);
            assert((l - 1) == 52 + drop);
            assert(s >= BINADE) by (nonlinear_arith)
                requires
                    m == half * (2 * s + b) + rest,
                    m >= BINADE * (2 * half),
                    half > 0,
                    rest < half,
                    b <= 1,
            ;
        }
    }
}

/// The significand `s` that is left of `m` at exponent `high`, and on which side of
/// the middle to the next significand the exact value lies.
proof fn lemma_position(
    m: nat,
    k: nat,
    l: nat,
    cut: bool,
    n: nat,
    d: nat,
    high: nat,
    s: nat,
    up: bool,
)
    requires
        m > 0,
        d > 0,
        l > 0,
        pow2((l - 1) as nat) <= m < pow2(l),
        cut ==> l >= 54,
        approximates(m, k, cut, n, d),
        high == (if l + k > BIAS + 53 { (l + k - 53) as nat } else { BIAS as nat }),
        high - BIAS < 2046,
        high <= k ==> s == m * pow2((k - high) as nat) && !up,
        high > k && high - k > l ==> s == 0 && !up,
        high > k && high - k <= l ==> {
            let half = pow2((high - k - 1) as nat);
            let doubled = m / half;
            &&& s == doubled / 2
            &&& up == (doubled % 2 == 1 && (m % half > 0 || cut || s % 2 == 1))
        },
    ensures
        ({
            let base = (high - BIAS) as nat * BINADE as nat + s;
            rounds_to(n, d, if up { base + 1 } else { base })
        }),
{
    let t = (high - BIAS) as nat;
    let w = pow2(BIAS as nat);
    let kk = pow2(k);
    let unit = kk * d;
    let base = t * BINADE as nat + s;
    let exact = n * w;
    lemma_short(m, k, l, high, s);
    lemma_binades();
    lemma_pow2_pos(k);
    lemma_pow2_pos(BIAS as nat);
    lemma_pow2_pos(high);
    lemma_pow2_adds(t, BIAS as nat);
    assert(pow2(high) == pow2(t) * w);
    assert(unit > 0) by (nonlinear_arith)
        requires
            unit == kk * d,
            kk > 0,
            d > 0,
    ;
    if high <= k {
        let g = (k - high) as nat;
        lemma_pow2_pos(g);
        lemma_pow2_adds(g, high);
        lemma_size_of(t, s);
        lemma_size_of(t, s + 1);
        assert(m * unit == ((s * pow2(t)) * d) * w) by (nonlinear_arith)
            requires
                unit == kk * d,
                kk == pow2(g) * pow2(high),
                pow2(high) == pow2(t) * w,
                s == m * pow2(g),
        ;
        lemma_scaled(n, (s * pow2(t)) * d, w);
        assert(n == size(base) * d);
        lemma_next_sizes(t, s, d);
        lemma_between(n, d, base);
    } else {
        let drop = (high - k) as nat;
        let half = pow2((drop - 1) as nat);
        let doubled = m / half;
        let rest = m % half;
        lemma_pow2_pos((drop - 1) as nat);
        lemma_pow2_unfold(drop);
        lemma_pow2_adds(drop, k);
        vstd::arithmetic::div_mod::lemma_fundamental_div_mod(m as int, half as int);
        if drop > l {
            if drop - 1 > l {
                lemma_pow2_strictly_increases(l, (drop - 1) as nat);
            }
            vstd::arithmetic::div_mod::lemma_basic_div(m as int, half as int);
            vstd::arithmetic::div_mod::lemma_small_mod(m, half);
        }
        assert(m == half * doubled + rest && rest < half);
        let b = doubled % 2;
        assert(doubled == 2 * s + b);
        lemma_size_of(t, s);
        lemma_size_of(t, s + 1);
        lemma_next_sizes(t, s, d);
        // one half of a significand step, in scaled units
        let hu = half * unit;
        assert(hu > 0) by (nonlinear_arith)
            requires
                hu == half * unit,
                half > 0,
                unit > 0,
        ;
        assert((pow2(t) * d) * w == 2 * hu) by (nonlinear_arith)
            requires
                hu == half * unit,
                unit == kk * d,
                pow2(high) == (2 * half) * kk,
                pow2(high) == pow2(t) * w,
        ;
        assert(m * unit == (2 * s + b) * hu + rest * unit) by (nonlinear_arith)
            requires
                m == half * (2 * s + b) + rest,
                hu == half * unit,
        ;
        assert(m + 1 <= half * (2 * s + b + 1)) by (nonlinear_arith)
            requires
                m == half * (2 * s + b) + rest,
                rest < half,
        ;
        assert(m * unit < (m + 1) * unit <= (2 * s + b + 1) * hu) by (nonlinear_arith)
            requires
                m + 1 <= half * (2 * s + b + 1),
                hu == half * unit,
                unit > 0,
        {
            assert((m + 1) * unit <= (half * (2 * s + b + 1)) * unit);
        }
        assert(rest > 0 ==> rest * unit > 0) by (nonlinear_arith)
            requires
                unit > 0,
        ;
        let step = pow2(t) * d;
        assert((size(base) * d) * w == s * (2 * hu)) by (nonlinear_arith)
            requires
                size(base) == s * pow2(t),
                (pow2(t) * d) * w == 2 * hu,
        ;
        assert((size(base + 1) * d) * w == (s + 1) * (2 * hu)) by (nonlinear_arith)
            requires
                size(base + 1) == (s + 1) * pow2(t),
                (pow2(t) * d) * w == 2 * hu,
        ;
        assert(((size(base) + size(base + 1)) * d) * w == (2 * s + 1) * (2 * hu)) by (nonlinear_arith)
            requires
                (size(base) * d) * w == s * (2 * hu),
                (size(base + 1) * d) * w == (s + 1) * (2 * hu),
        ;
        assert((2 * n) * w == 2 * exact) by (nonlinear_arith)
            requires
                exact == n * w,
        ;
        assert(s * (2 * hu) <= (2 * s + b) * hu && (2 * s + b + 1) * hu <= (s + 1) * (2 * hu)) by (nonlinear_arith)
            requires
                b <= 1,
        ;
        assert(2 * ((2 * s + b) * hu) == (2 * s + b) * (2 * hu)) by (nonlinear_arith);
        assert((2 * s + 1) * (2 * hu) == (2 * s) * (2 * hu) + 2 * hu) by (nonlinear_arith);
        assert(2 * ((2 * s + 1) * hu) == (2 * s + 1) * (2 * hu)) by (nonlinear_arith);
        lemma_scaled(n, size(base) * d, w);
        lemma_scaled(n, size(base + 1) * d, w);
        lemma_scaled(2 * n, (size(base) + size(base + 1)) * d, w);
        assert(base % 2 == s % 2);
        lemma_between(n, d, base);
        if b == 0 {
            assert((2 * s + b + 1) * hu == (2 * s + 1) * hu);
            assert(exact < (2 * s + 1) * hu);
            assert(below_middle(n, d, base));
        } else if rest > 0 || cut {
            assert((2 * s + b) * hu == (2 * s + 1) * hu);
            assert(exact > (2 * s + 1) * hu);
            assert(above_middle(n, d, base));
        } else {
            assert((2 * s + b) * hu == (2 * s + 1) * hu);
            assert(rest * unit == 0) by (nonlinear_arith)
                requires
                    rest == 0,
            ;
            assert(on_middle(n, d, base));
        }
    }
}

proof fn lemma_next_sizes(t: nat, s: nat, d: nat)
    requires
        d > 0,
        t < 2046,
        s < 2 * BINADE,
        t > 0 ==> s >= BINADE,
    ensures
        t * BINADE as nat + s < INFINITY,
        size(t * BINADE as nat + s) * d < size(t * BINADE as nat + s + 1) * d,
        below_middle(size(t * BINADE as nat + s) * d, d, t * BINADE as nat + s),
{
    let base = t * BINADE as nat + s;
    lemma_size_grows(base, base + 1);
    assert(size(base) * d < size(base + 1) * d && 2 * (size(base) * d) < (size(base) + size(base + 1)) * d)
        by (nonlinear_arith)
        requires
            size(base) < size(base + 1),
            d > 0,
    ;
}

/// What is left of a 128-bit integer after `l` bits were dropped has at most
/// `128 - l` bits.
proof fn lemma_fits(m: u128, x: u128, l: nat)
    requires
        x > 0,
        x * pow2(l) <= m,
    ensures
        l <= 127,
        x > 1 ==> l < 127,
        x >= 256 ==> l < 120,
{
    lemma2_to64();
    lemma_pow2_adds(64, 64);
    assert(m < pow2(128));
    lemma_pow2_pos(l);
    assert(pow2(l) <= x * pow2(l)) by (nonlinear_arith)
        requires
            x > 0,
    ;
    if l >= 128 {
        if l > 128 {
            lemma_pow2_strictly_increases(128, l);
        }
        assert(false);
    }
    if x > 1 && l == 127 {
        lemma_pow2_unfold(128);
        assert(x * pow2(127) >= 2 * pow2(127)) by (nonlinear_arith)
            requires
                x >= 2,
        ;
    }
    if x >= 256 && l >= 120 {
        lemma_pow2_adds(120, 8);
        if l > 120 {
            lemma_pow2_strictly_increases(120, l);
        }
        assert(x * pow2(l) >= 256 * pow2(120)) by (nonlinear_arith)
            requires
                x >= 256,
                pow2(l) >= pow2(120),
        ;
    }
}

} // verus!
