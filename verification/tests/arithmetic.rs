//! The arithmetic agrees with the processor's, bit for bit.

use nav_scene::{next_u64, Real};

fn r(x: f64) -> Real {
    Real { bits: x.to_bits() }
}

fn f(x: Real) -> f64 {
    f64::from_bits(x.bits)
}

fn same(left: Real, right: f64) -> bool {
    (f(left).is_nan() && right.is_nan()) || left.bits == right.to_bits()
}

/// Ordinary magnitudes, raw encodings, and edge cases, by turns.
fn sample(state: &mut u64, turn: usize) -> f64 {
    let raw = next_u64(state);
    let edges = [
        0.0,
        -0.0,
        1.0,
        -1.0,
        0.5,
        f64::INFINITY,
        f64::NEG_INFINITY,
        f64::NAN,
        f64::MAX,
        f64::MIN_POSITIVE,
        5e-324,
        4503599627370496.5,
        9007199254740993.0,
        1e-9,
        16777217.0,
        3.4028235677973366e38,
        1e-45,
    ];
    match turn % 4 {
        0 => (raw as f64 / u64::MAX as f64 - 0.5) * 200.0,
        1 => f64::from_bits(raw),
        2 => edges[(raw % edges.len() as u64) as usize],
        _ => ((raw % 4001) as f64 - 2000.0) * 0.25,
    }
}

#[test]
fn arithmetic_matches_the_processor() {
    let mut state = 0x2545_F491_4F6C_DD1D_u64;
    for turn in 0..200_000 {
        let a = sample(&mut state, turn);
        let b = sample(&mut state, turn / 4);
        assert!(same(r(a).add(r(b)), a + b), "{a:e} + {b:e}");
        assert!(same(r(a).sub(r(b)), a - b), "{a:e} - {b:e}");
        assert!(same(r(a).mul(r(b)), a * b), "{a:e} * {b:e}");
        assert!(same(r(a).div(r(b)), a / b), "{a:e} / {b:e}");
        assert!(same(r(a).sqrt(), a.sqrt()), "sqrt {a:e}");
        assert_eq!(r(a).lt(r(b)), a < b);
        assert_eq!(r(a).le(r(b)), a <= b);
        assert_eq!(r(a).num_eq(r(b)), a == b);
        assert_eq!(r(a).floor_int(), a.floor() as isize, "floor {a:e}");
        assert_eq!(r(a).ceil_int(), a.ceil() as isize, "ceil {a:e}");
        assert_eq!(r(a).round_usize(), a.round() as usize, "round {a:e}");
        assert!(same(r(a).to_single(), a as f32 as f64), "single {a:e}");
        assert_eq!(r(a).total_key() < r(b).total_key(), a.total_cmp(&b).is_lt());
        let n = next_u64(&mut state) >> (turn % 64);
        assert!(same(Real::from_count(n), n as f64));
        assert!(same(Real::from_int(-(n as i64 as isize / 2)), -(n as i64 / 2) as f64 + 0.0));
    }
}

#[test]
fn single_precision_sums_and_products_round_once() {
    let mut state = 99_u64;
    for _ in 0..200_000 {
        let a = f32::from_bits(next_u64(&mut state) as u32);
        let b = f32::from_bits(next_u64(&mut state) as u32);
        let (x, y) = (r(a as f64), r(b as f64));
        assert!(same(x.add(y).to_single(), (a + b) as f64), "{a:e} + {b:e}");
        assert!(same(x.mul(y).to_single(), (a * b) as f64), "{a:e} * {b:e}");
        assert!(same(x.div(y).to_single(), (a / b) as f64), "{a:e} / {b:e}");
    }
}

