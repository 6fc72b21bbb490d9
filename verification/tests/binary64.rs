use crazydog::binary64::model::Binary64;

fn b(x: f64) -> Binary64 {
    Binary64::from_bits(x.to_bits())
}

fn f(x: Binary64) -> f64 {
    f64::from_bits(x.bits)
}

/// The two results are the same double; any NaN will do for a NaN.
fn agree(ours: Binary64, native: f64) -> bool {
    if native.is_nan() {
        ours.is_nan()
    } else {
        ours.bits == native.to_bits()
    }
}

struct Patterns {
    state: u64,
}

impl Patterns {
    fn next(&mut self) -> u64 {
        self.state = self.state.wrapping_mul(6364136223846793005).wrapping_add(1442695040888963407);
        let x = self.state;
        (x ^ (x >> 29)).wrapping_mul(0xBF58476D1CE4E5B9) ^ (x >> 32)
    }

    /// Any pattern, often a special one or one with a moderate exponent.
    fn double(&mut self) -> f64 {
        let r = self.next();
        let special = [
            0u64,
            1,
            0x000F_FFFF_FFFF_FFFF,
            0x0010_0000_0000_0000,
            0x0010_0000_0000_0001,
            0x3FF0_0000_0000_0000,
            0x3FEF_FFFF_FFFF_FFFF,
            0x4340_0000_0000_0000,
            0x7FEF_FFFF_FFFF_FFFF,
            0x7FF0_0000_0000_0000,
            0x7FF8_0000_0000_0000,
        ];
        let pattern = match r % 8 {
            0 => special[(self.next() % 11) as usize] | (self.next() & (1 << 63)),
            1 => self.next(),
            2 => self.next() & 0x800F_FFFF_FFFF_FFFF,
            3 => (self.next() & 0x8000_0000_0000_000F) | (0x3F0 + self.next() % 32) << 52,
            _ => (self.next() & 0x800F_FFFF_FFFF_FFFF) | (0x3C0 + self.next() % 128) << 52,
        };
        f64::from_bits(pattern)
    }
}

#[test]
fn arithmetic_agrees_with_the_hardware() {
    let mut p = Patterns { state: 1 };
    for _ in 0..200_000 {
        let x = p.double();
        let y = p.double();
        assert!(agree(b(x).plus(b(y)), x + y), "{:e} + {:e}", x, y);
        assert!(agree(b(x).minus(b(y)), x - y), "{:e} - {:e}", x, y);
        assert!(agree(b(x).times(b(y)), x * y), "{:e} * {:e}", x, y);
        assert!(agree(b(x).over(b(y)), x / y), "{:e} / {:e}", x, y);
        assert!(agree(b(x).sqrt(), x.sqrt()), "sqrt {:e}", x);
        assert!(agree(b(x).fract(), x % 1.0), "{:e} % 1", x);
    }
}

#[test]
fn near_neighbours_agree_with_the_hardware() {
    let mut p = Patterns { state: 7 };
    for _ in 0..100_000 {
        let x = p.double();
        let y = f64::from_bits(x.to_bits() ^ (p.next() % 8) ^ ((p.next() % 2) << 63));
        assert!(agree(b(x).plus(b(y)), x + y), "{:e} + {:e}", x, y);
        assert!(agree(b(x).minus(b(y)), x - y), "{:e} - {:e}", x, y);
        assert!(agree(b(x).over(b(y)), x / y), "{:e} / {:e}", x, y);
        assert_eq!(b(x).lt(b(y)), x < y);
        assert_eq!(b(x).equal(b(y)), x == y);
    }
}

#[test]
fn comparison_agrees_with_the_hardware() {
    let mut p = Patterns { state: 3 };
    for _ in 0..200_000 {
        let x = p.double();
        let y = p.double();
        assert_eq!(b(x).lt(b(y)), x < y);
        assert_eq!(b(x).gt(b(y)), x > y);
        assert_eq!(b(x).equal(b(y)), x == y);
        assert_eq!(b(x).is_nan(), x.is_nan());
        assert!(agree(b(x).abs(), x.abs()));
        assert!(agree(b(x).negated(), -x));
        assert!(agree(b(x).signum(), x.signum()));
        if x != y {
            assert!(agree(b(x).min(b(y)), x.min(y)));
            assert!(agree(b(x).max(b(y)), x.max(y)));
        }
        assert!(agree(b(x).clamp(b(-0.3), b(0.3)), x.clamp(-0.3, 0.3)));
    }
}

#[test]
fn conversions_agree_with_the_hardware() {
    let mut p = Patterns { state: 11 };
    for _ in 0..200_000 {
        let n = p.next() >> (p.next() % 64);
        assert!(agree(Binary64::from_u64(n), n as f64), "{}", n);
        let s = (p.next() >> (p.next() % 40)) as u32;
        assert!(agree(Binary64::from_single_bits(s), f32::from_bits(s) as f64), "{:x}", s);
        let x = p.double();
        assert_eq!(b(x).to_u64(), x as u64, "{:e}", x);
        let y = (p.next() >> (p.next() % 64)) as f64 + (p.next() % 1000) as f64 / 1000.0;
        assert_eq!(b(y).to_u64(), y as u64, "{:e}", y);
    }
    for n in [0u64, 1, 2, (1 << 53) - 1, 1 << 53, (1 << 53) + 1, (1 << 53) + 3, u64::MAX, u64::MAX - 1024] {
        assert_eq!(Binary64::from_u64(n).bits, (n as f64).to_bits());
    }
}

#[test]
fn known_results() {
    assert_eq!(f(b(0.1).plus(b(0.2))), 0.30000000000000004);
    assert_eq!(f(b(1.0).over(b(3.0))), 0.3333333333333333);
    assert_eq!(f(b(2.0).sqrt()), 1.4142135623730951);
    assert_eq!(f(b(2.75).fract()), 0.75);
    assert_eq!(b(-0.0).plus(b(-0.0)).bits, (-0.0f64).to_bits());
    assert_eq!(b(1.5).minus(b(1.5)).bits, 0);
    assert_eq!(b(f64::MAX).plus(b(f64::MAX)).bits, f64::INFINITY.to_bits());
    assert!(b(f64::INFINITY).minus(b(f64::INFINITY)).is_nan());
    assert!(b(0.0).over(b(0.0)).is_nan());
    assert!(b(-1.0).sqrt().is_nan());
    assert!(b(-3.0).is_negative() && !b(3.0).is_negative());
}
