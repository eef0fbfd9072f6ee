//! Rates against the arithmetic of the machine.

use std::time::Duration;

use jam::app::{measure_frames, measure_millis};
use jam::float::{round_half_even, Soft, DOUBLE, SINGLE};
use jam::rate::{
    seconds_of_interval, seconds_of_millis, seconds_of_nanos, short_seconds_of_millis,
    short_seconds_of_nanos, Rate,
};

struct Random(u64);

impl Random {
    fn next(&mut self) -> u64 {
        self.0 ^= self.0 << 13;
        self.0 ^= self.0 >> 7;
        self.0 ^= self.0 << 17;
        self.0
    }

    /// A number with a random number of bits.
    fn sized(&mut self) -> u64 {
        let bits = self.next() % 65;
        if bits == 64 { self.next() } else { self.next() & ((1u64 << bits) - 1) }
    }
}

fn rate(x: f32) -> Rate {
    Rate::from_bits(x.to_bits())
}

fn double(s: Soft) -> f64 {
    s.mant as f64 * 2f64.powi(s.exp)
}

#[test]
fn integers_become_floats_as_on_the_machine() {
    let mut r = Random(0x9e37_79b9_7f4a_7c15);
    let mut cases: Vec<u64> = vec![0, 1, 2, 3, u64::MAX, u64::MAX - 1, 1 << 53, (1 << 53) + 1,
        (1 << 53) + 3, (1 << 24) + 1, (1 << 24) + 3, (1 << 25) + 2, 16777219];
    for _ in 0..2000 {
        cases.push(r.sized());
    }
    for n in cases {
        assert_eq!(double(Soft::of(n, DOUBLE)), n as f64);
        assert_eq!(double(Soft::of(n, SINGLE)) as f32, n as f32);
    }
}

#[test]
fn quotients_and_products_are_those_of_the_machine() {
    let mut r = Random(12345);
    for _ in 0..2000 {
        let (a, b) = (r.sized(), r.sized().max(1));
        let (x, y) = (Soft::of(a, DOUBLE), Soft::of(b, DOUBLE));
        assert_eq!(double(x.div(y, DOUBLE)), a as f64 / b as f64);
        assert_eq!(double(x.mul(y, DOUBLE)), a as f64 * b as f64);
        assert_eq!(double(x.plus(y, DOUBLE)), a as f64 + b as f64);
        let (x, y) = (Soft::of(a, SINGLE), Soft::of(b, SINGLE));
        assert_eq!(Rate::of_quotient(x, y).bits, (a as f32 / b as f32).to_bits());
    }
}

#[test]
fn rates_add_and_multiply_as_on_the_machine() {
    let mut r = Random(777);
    let mut values: Vec<f32> = vec![0.0, f32::MIN_POSITIVE, f32::MAX, f32::INFINITY, 1.0, 0.1, 0.3,
        f32::from_bits(1), f32::from_bits(0x7f_ffff), f32::from_bits(0x80_0000), 16777216.0];
    for _ in 0..60 {
        values.push(f32::from_bits(r.next() as u32 % 0x7f80_0000));
    }
    for &a in &values {
        for &b in &values {
            assert_eq!(rate(a).plus(rate(b)).bits, (a + b).to_bits(), "{} + {}", a, b);
            let product = rate(a).times(rate(b));
            if (a * b).is_nan() {
                assert!(product.is_pending());
            } else {
                assert_eq!(product.bits, (a * b).to_bits(), "{} * {}", a, b);
            }
        }
        assert!(rate(a).plus(rate(f32::NAN)).is_pending());
        assert!(rate(f32::NAN).times(rate(a)).is_pending());
        let alpha: f32 = 0.3;
        for &b in &values[..20] {
            let want = alpha * b + (1.0 - alpha) * a;
            assert_eq!(rate(a).blend(rate(b)).bits, want.to_bits());
        }
    }
}

#[test]
fn cpu_shares_and_byte_rates_are_those_of_the_machine() {
    let mut r = Random(4711);
    for _ in 0..2000 {
        let used = r.sized();
        let nanos = r.sized().max(1);
        let elapsed = Duration::from_nanos(nanos).as_secs_f64();
        let seconds = seconds_of_nanos(nanos);
        assert_eq!(double(seconds), elapsed);
        for per_second in [100u64, 1_000_000] {
            let want = (used as f64 / per_second as f64 / elapsed * 100.0) as f32;
            assert_eq!(Rate::of_cpu(used, per_second, seconds).bits, want.to_bits());
        }
        let want = (used as f64 / elapsed) as f32;
        assert_eq!(Rate::of_bytes(used, seconds).bits, want.to_bits());
    }
}

#[test]
fn times_in_seconds_are_those_of_the_machine() {
    let mut r = Random(99);
    for _ in 0..2000 {
        let n = r.sized();
        assert_eq!(double(seconds_of_millis(n)), n as f64 / 1000.0);
        assert_eq!(double(short_seconds_of_millis(n)) as f32, n as f32 / 1000.0);
        assert_eq!(double(seconds_of_interval(n)) as f32, Duration::from_millis(n).as_secs_f32());
        assert_eq!(
            double(short_seconds_of_nanos(n)) as f32,
            Duration::from_nanos(n).as_secs_f32()
        );
        assert_eq!(
            measure_millis(n).bits,
            (Duration::from_nanos(n).as_secs_f32() * 1000.0).to_bits()
        );
    }
}

#[test]
fn frames_are_counted_over_a_second() {
    let mut r = Random(31);
    for _ in 0..500 {
        let (frames, n) = (r.next() % 1000, r.next() % 3_000_000_000);
        let elapsed = Duration::from_nanos(n).as_secs_f32();
        let want = if elapsed >= 1.0 { Some(frames as f32 / elapsed) } else { None };
        assert_eq!(measure_frames(frames, n).map(|x| x.bits), want.map(|x| x.to_bits()));
    }
    assert_eq!(measure_frames(30, 999_000_000), None);
    // In single precision this is a whole second already.
    assert!(measure_frames(30, 999_999_999).is_some());
    assert_eq!(measure_frames(30, 1_000_000_000), Some(rate(30.0)));
}

#[test]
fn halves_are_rounded_to_even() {
    assert_eq!(round_half_even(5, 2), 2);
    assert_eq!(round_half_even(7, 2), 4);
    assert_eq!(round_half_even(8, 3), 3);
    assert_eq!(round_half_even(7, 3), 2);
    assert_eq!(round_half_even(0, 3), 0);
}

#[test]
fn no_rate_is_pending() {
    assert!(Rate::from_bits(f32::NAN.to_bits()).is_pending());
    assert!(!rate(0.0).is_pending());
    assert!(!rate(f32::INFINITY).is_pending());
}
