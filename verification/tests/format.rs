//! Numbers as they are shown.

use jam::format::{
    bytes_text, format_bytes, format_cpu, format_data_rate, format_rate, rate_text,
};
use jam::rate::Rate;
use jam::ui::title::{refreshes_text, round_rate};

fn rate(x: f32) -> Rate {
    Rate::from_bits(x.to_bits())
}

#[test]
fn test_format_bytes() {
    assert_eq!(format_bytes(0), "0B");
    assert_eq!(format_bytes(512), "512B");
    assert_eq!(format_bytes(1024), "1Ki");
    assert_eq!(format_bytes(1024 * 1024), "1.0Mi");
    assert_eq!(format_bytes(1024 * 1024 * 1024), "1.0Gi");
}

#[test]
fn test_format_rate() {
    assert_eq!(format_rate(rate(0.0)), "-");
    assert_eq!(format_rate(rate(0.05)), "-");
    assert_eq!(format_rate(rate(100.0)), "100B");
    assert_eq!(format_rate(rate(1024.0)), "1Ki");
}

fn expected_bytes(bytes: u64) -> String {
    const KIB: u64 = 1024;
    const MIB: u64 = KIB * 1024;
    const GIB: u64 = MIB * 1024;
    if bytes >= GIB {
        format!("{:.1}Gi", bytes as f64 / GIB as f64)
    } else if bytes >= MIB {
        format!("{:.1}Mi", bytes as f64 / MIB as f64)
    } else if bytes >= KIB {
        format!("{:.0}Ki", bytes as f64 / KIB as f64)
    } else {
        format!("{}B", bytes)
    }
}

fn expected_rate(rate: f32) -> String {
    const KIB: f32 = 1024.0;
    const MIB: f32 = KIB * 1024.0;
    const GIB: f32 = MIB * 1024.0;
    if rate.is_nan() || rate < 0.1 {
        "-".to_string()
    } else if rate >= GIB {
        format!("{:.1}Gi", rate / GIB)
    } else if rate >= MIB {
        format!("{:.1}Mi", rate / MIB)
    } else if rate >= KIB {
        format!("{:.0}Ki", rate / KIB)
    } else {
        format!("{:.0}B", rate)
    }
}

fn sample(n: u64) -> u64 {
    n.wrapping_mul(0x9e37_79b9_7f4a_7c15).rotate_left(31).wrapping_mul(0xbf58_476d_1ce4_e5b9)
}

fn rates() -> Vec<f32> {
    let mut all: Vec<f32> = vec![0.0, 0.05, 0.1, 0.099999994, 0.5, 1.5, 2.5, 0.25, 0.35, 1023.5,
        1024.0, 1535.0, 1536.0, 2560.0, 1048575.9, 1048576.0, 1073741824.0, f32::MAX,
        f32::INFINITY, f32::MIN_POSITIVE, f32::from_bits(1), 99.95, 100.05, 0.05000001];
    for n in 0..1500u64 {
        all.push(f32::from_bits((sample(n) % 0x7f80_0000) as u32));
        all.push((sample(n) % 100_000) as f32 / 64.0);
        all.push((sample(n) % 10_000_000) as f32 / 20.0);
    }
    all
}

#[test]
fn bytes_are_shown_as_the_formatter_does() {
    let mut all: Vec<u64> = vec![1, 1023, 1536, 2560, 1535, 1048575, 1048576 + 52428, u64::MAX];
    for n in 0..1500u64 {
        all.push(sample(n) >> (n % 64));
    }
    for b in all {
        assert_eq!(format_bytes(b), expected_bytes(b), "{}", b);
        assert_eq!(bytes_text(b, 20, true), format!("{:.1}", b as f64 / (1024.0 * 1024.0)));
    }
}

#[test]
fn rates_are_shown_as_the_formatter_does() {
    for r in rates() {
        assert_eq!(format_rate(rate(r)), expected_rate(r), "{}", r);
        assert_eq!(rate_text(rate(r), 0, true), format!("{:.1}", r));
        assert_eq!(rate_text(rate(r), 0, false), format!("{:.0}", r));
        assert_eq!(format_cpu(rate(r)), format!("{:.1}", r));
    }
}

#[test]
fn a_pending_rate_is_a_dash() {
    assert_eq!(format_rate(rate(f32::NAN)), "-");
    assert_eq!(format_cpu(rate(f32::NAN)), "-");
    assert_eq!(format_cpu(rate(0.0)), "0.0");
    assert_eq!(rate_text(rate(f32::NAN), 0, true), "NaN");
}

#[test]
fn data_rates_have_their_units() {
    assert_eq!(format_data_rate(rate(0.0)), "0B/s");
    assert_eq!(format_data_rate(rate(1023.4)), "1023B/s");
    assert_eq!(format_data_rate(rate(1024.0)), "1.0Ki/s");
    assert_eq!(format_data_rate(rate(1536.0 * 1024.0)), "1.5Mi/s");
    assert_eq!(format_data_rate(rate(f32::NAN)), "NaNB/s");
    assert_eq!(format_data_rate(rate(f32::INFINITY)), "infMi/s");
}

#[test]
fn refreshes_per_second_are_rounded() {
    for ms in [0u64, 1, 3, 100, 333, 400, 500, 666, 667, 1000, 1999, 2000, 2001, 60_000, u64::MAX] {
        let secs = std::time::Duration::from_millis(ms).as_secs_f64();
        assert_eq!(refreshes_text(ms), format!("{:.0}", 1.0 / secs), "{}", ms);
    }
}

#[test]
fn frames_per_second_are_rounded_up_at_the_half() {
    for r in rates() {
        assert_eq!(round_rate(rate(r)), r.round() as u32, "{}", r);
    }
    assert_eq!(round_rate(rate(f32::NAN)), 0);
    assert_eq!(round_rate(rate(2.5)), 3);
}
