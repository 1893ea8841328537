//! What is computed on the bits of numbers and on characters, held against the machine.

use speakrs::rng::SplitMix64;
use speakrs::score::{
    greater, is_finite, is_less, is_less_wide, is_not_a_number, is_same, rounded_count,
    scaled_count, smaller_wide, total_order_key,
};
use speakrs::text::{
    decimal, is_white_space, joined, parse_u32, split, split_once, strip_suffix, trim, trim_end,
    trim_start,
};

fn some_bits() -> Vec<u32> {
    let mut rng = SplitMix64(7);
    let mut bits: Vec<u32> = vec![
        0,
        0x8000_0000,
        1,
        0x8000_0001,
        0x7f80_0000,
        0xff80_0000,
        0x7fc0_0000,
        0xffc0_0000,
        0x7f7f_ffff,
        0x3f00_0000,
        0x3f80_0000,
        0xbf80_0000,
    ];
    for _ in 0..60 {
        bits.push(rng.next() as u32);
    }
    for tenth in 0..60 {
        bits.push((tenth as f32 * 0.25).to_bits());
    }
    bits
}

/// The nearest whole number, with a margin for what counts as half-way.
fn round_ties_even(value: f32) -> f32 {
    let lower = value.floor();
    let fraction = value - lower;
    let epsilon = 1e-6;
    if fraction < 0.5 - epsilon {
        return lower;
    }
    if fraction > 0.5 + epsilon {
        return value.ceil();
    }
    if lower as i64 % 2 == 0 {
        lower
    } else {
        lower + 1.0
    }
}

#[test]
fn scores_are_ordered_as_the_machine_orders_them() {
    let bits = some_bits();
    for &a in &bits {
        let x = f32::from_bits(a);
        assert_eq!(is_not_a_number(a), x.is_nan());
        assert_eq!(is_finite(a), x.is_finite());
        for &b in &bits {
            let y = f32::from_bits(b);
            assert_eq!(is_less(a, b), x < y, "{x} < {y}");
            assert_eq!(is_same(a, b), x == y, "{x} == {y}");
            assert_eq!(
                total_order_key(a) < total_order_key(b),
                x.total_cmp(&y) == std::cmp::Ordering::Less,
                "{x} and {y}"
            );
            let most = f32::from_bits(greater(a, b));
            let machine = x.max(y);
            assert!(
                most == machine || (most.is_nan() && machine.is_nan()),
                "{x} max {y}"
            );
        }
    }
}

#[test]
fn wide_numbers_are_ordered_as_the_machine_orders_them() {
    let mut rng = SplitMix64(11);
    let mut bits: Vec<u64> = vec![
        0,
        1 << 63,
        f64::INFINITY.to_bits(),
        f64::NEG_INFINITY.to_bits(),
        f64::NAN.to_bits(),
        1.0f64.to_bits(),
        (-1.0f64).to_bits(),
    ];
    for _ in 0..80 {
        bits.push(rng.next());
    }
    for &a in &bits {
        for &b in &bits {
            let (x, y) = (f64::from_bits(a), f64::from_bits(b));
            assert_eq!(is_less_wide(a, b), x < y);
            let least = f64::from_bits(smaller_wide(a, b));
            let machine = x.min(y);
            assert!(least == machine || (least.is_nan() && machine.is_nan()));
        }
    }
}

#[test]
fn counts_are_rounded_with_a_margin_for_halves() {
    let mut bits = some_bits();
    for whole in 0..40 {
        let half = whole as f32 + 0.5;
        for step in 0..60 {
            bits.push(half.to_bits() + step);
            bits.push(half.to_bits() - step);
        }
    }
    for b in bits {
        let x = f32::from_bits(b);
        assert_eq!(
            rounded_count(b),
            round_ties_even(x).max(0.0) as usize,
            "{x:?}"
        );
    }
    assert_eq!(rounded_count(0.5f32.to_bits()), 0);
    assert_eq!(rounded_count(1.5f32.to_bits()), 2);
    assert_eq!(rounded_count(2.5f32.to_bits()), 2);
    assert_eq!(rounded_count((-3.0f32).to_bits()), 0);
}

#[test]
fn durations_become_samples() {
    for b in some_bits() {
        let x = f32::from_bits(b);
        assert_eq!(scaled_count(b, 16000), (x * 16000f32) as usize, "{x:?}");
    }
    assert_eq!(scaled_count(1.0f32.to_bits(), 16000), 16000);
    assert_eq!(scaled_count(0.1f32.to_bits(), 16000), 1600);
    assert_eq!(scaled_count(2.5f32.to_bits(), 16000), 40000);
}

#[test]
fn random_numbers_are_splitmix() {
    let mut rng = SplitMix64(1234567);
    assert_eq!(rng.next(), 6457827717110365317);
    assert_eq!(rng.next(), 3203168211198807973);
    assert_eq!(rng.next(), 9817491932198370423);

    for n in [0, 1, 2, 3, 10, 1000, usize::MAX] {
        let (mut ours, mut theirs) = (SplitMix64(n as u64), SplitMix64(n as u64));
        for _ in 0..200 {
            let unit = (theirs.next() >> 11) as f64 / (1u64 << 53) as f64;
            assert_eq!(ours.below(n), (unit * n as f64) as usize % n.max(1));
        }
    }
    let (mut ours, mut theirs) = (SplitMix64(3), SplitMix64(3));
    assert_eq!(ours.unit(), theirs.next() >> 11);
}

#[test]
fn white_space_is_unicodes() {
    for code in 0..=0x10ffff {
        if let Some(c) = char::from_u32(code) {
            assert_eq!(is_white_space(c), c.is_whitespace(), "{code:x}");
        }
    }
}

#[test]
fn strings_are_taken_apart_as_std_does() {
    for s in [
        "", " ", "GPU", " GPU\t", "a:b:c", ":", "a,b,,c", ",", "é(ü)", "x.onnx", ".onnx", "onnx",
        "1.24.0",
    ] {
        assert_eq!(trim(s), s.trim());
        assert_eq!(trim_start(s), s.trim_start());
        assert_eq!(trim_end(s), s.trim_end());
        assert_eq!(strip_suffix(s, ".onnx"), s.strip_suffix(".onnx"));
        for c in [':', ',', '.', '('] {
            assert_eq!(split_once(s, c), s.split_once(c));
            assert_eq!(split(s, c), s.split(c).collect::<Vec<_>>());
        }
    }
    for s in [
        "0", "24", "+7", "-7", "", "+", "4294967295", "4294967296", "00012", "1x", " 1", "٣",
    ] {
        assert_eq!(parse_u32(s), s.parse::<u32>().ok(), "{s:?}");
    }
    for n in [0, 9, 10, 32, 64, 1001, usize::MAX] {
        assert_eq!(decimal(n), n.to_string());
    }
    assert_eq!(joined("openvino:", "GPU"), "openvino:GPU");
}
