//! End-to-end scenarios over the container entry points.

use neur::container::{decode, encode, Mode};

fn sine_signal() -> Vec<i32> {
    let mut out = Vec::new();
    for i in 0..4096u32 {
        let phase = 2.0 * std::f64::consts::PI * 7.0 * (i as f64) / 1000.0;
        out.push((20000.0 * phase.sin()) as i32);
    }
    out
}

fn lcg_signal() -> Vec<i32> {
    let mut s: u32 = 0x12345678;
    let mut out = Vec::new();
    for _ in 0..4096 {
        s = s.wrapping_mul(1664525).wrapping_add(1013904223);
        let v = (s >> 16) as u16 as i16 as i32;
        out.push(v.clamp(-30000, 30000));
    }
    out
}

fn spikes_signal() -> Vec<i32> {
    let mut out = vec![0i32; 4096];
    let mut k = 0;
    while 101 * k < 4096 {
        out[101 * k] = 28000;
        k += 1;
    }
    out
}

#[test]
fn sine_lossless_roundtrip() {
    let x = sine_signal();
    let c = encode(&x, 1000, 1, 16, Mode::Lossless, 8, 32, 600).unwrap();
    let d = decode(&c).unwrap();
    assert_eq!(d.version, 1);
    assert_eq!(d.total_samples, 4096);
    assert_eq!(d.samples, x);
}

#[test]
fn noise_lossless_roundtrip() {
    let x = lcg_signal();
    let c = encode(&x, 1000, 1, 16, Mode::Lossless, 8, 128, 600).unwrap();
    let d = decode(&c).unwrap();
    assert_eq!(d.samples, x);
}

#[test]
fn spikes_events_roundtrip_length() {
    let x = spikes_signal();
    let c = encode(&x, 1000, 1, 16, Mode::Events, 8, 32, 400).unwrap();
    assert!(c.len() > 24);
    let d = decode(&c).unwrap();
    assert_eq!(d.version, 4);
    assert_eq!(d.samples.len(), 4096);
}

#[test]
fn noise_elite_roundtrip() {
    let x = lcg_signal();
    let c = encode(&x, 1000, 1, 16, Mode::Elite, 8, 32, 600).unwrap();
    let d = decode(&c).unwrap();
    assert_eq!(d.version, 5);
    assert_eq!(d.samples, x);
}

#[test]
fn sine_elite_roundtrip() {
    let x = sine_signal();
    let c = encode(&x, 1000, 1, 16, Mode::Elite, 8, 32, 600).unwrap();
    let d = decode(&c).unwrap();
    assert_eq!(d.samples, x);
}

#[test]
fn events_length_preserved_on_noise() {
    let x = lcg_signal();
    let c = encode(&x, 1000, 1, 16, Mode::Events, 8, 32, 600).unwrap();
    let d = decode(&c).unwrap();
    assert_eq!(d.samples.len(), x.len());
}

#[test]
fn events_ratio_monotone_in_threshold() {
    let x = lcg_signal();
    let mut sizes = Vec::new();
    for centi in [400u32, 600, 800, 1000] {
        let c = encode(&x, 1000, 1, 16, Mode::Events, 8, 32, centi).unwrap();
        sizes.push(c.len());
    }
    for w in sizes.windows(2) {
        assert!(w[0] >= w[1], "compressed size grew as the threshold rose");
    }
}

#[test]
fn header_fields_come_back() {
    let x = sine_signal();
    let c = encode(&x, 30000, 2, 16, Mode::Lossless, 4, 64, 600).unwrap();
    let d = decode(&c).unwrap();
    assert_eq!(d.sample_rate, 30000);
    assert_eq!(d.channels, 2);
    assert_eq!(d.bits_per_sample, 16);
    assert_eq!(d.total_samples, 4096);
}

#[test]
fn empty_input_roundtrips() {
    let x: Vec<i32> = Vec::new();
    let c = encode(&x, 1000, 1, 16, Mode::Lossless, 8, 32, 600).unwrap();
    let d = decode(&c).unwrap();
    assert_eq!(d.samples.len(), 0);
}

#[test]
fn short_block_tail_roundtrips() {
    let x: Vec<i32> = (0..77).map(|i| (i * 37 % 501) - 250).collect();
    let c = encode(&x, 1000, 1, 16, Mode::Lossless, 8, 32, 600).unwrap();
    let d = decode(&c).unwrap();
    assert_eq!(d.samples, x);
}
