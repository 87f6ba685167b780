use xls::format::human_size;

fn reference(n: u64) -> String {
    const UNITS: [&str; 5] = ["B", "K", "M", "G", "T"];
    let mut v = n as f64;
    let mut i = 0;
    while v >= 1024.0 && i < UNITS.len() - 1 {
        v /= 1024.0;
        i += 1;
    }
    if i == 0 {
        format!("{n}{}", UNITS[0])
    } else if v >= 10.0 {
        format!("{v:.0}{}", UNITS[i])
    } else {
        format!("{v:.1}{}", UNITS[i])
    }
}

#[test]
fn human_size_matches_double_formatting() {
    let mut samples: Vec<u64> = Vec::new();
    for n in 0..5000u64 {
        samples.push(n);
    }
    for k in 0..64u32 {
        let base = 1u64 << k;
        for d in 0..64u64 {
            samples.push(base.wrapping_add(d));
            samples.push(base.wrapping_sub(d));
            samples.push(base.wrapping_mul(3).wrapping_add(d));
            samples.push(base.wrapping_mul(5) / 4);
        }
    }
    for t in 1..4000u64 {
        samples.push(t * 1024 / 20);
        samples.push(t * 1024 * 1024 / 20);
        samples.push(t * 1024 * 1024 * 1024 / 20);
        samples.push(t * 1280);
        samples.push(t * 128 * 1024);
    }
    let mut x: u64 = 0x9E37_79B9_7F4A_7C15;
    for _ in 0..200000 {
        x ^= x << 13;
        x ^= x >> 7;
        x ^= x << 17;
        samples.push(x);
        samples.push(x >> (x % 64));
    }
    samples.push(u64::MAX);
    samples.push(u64::MAX - 1);
    for n in samples {
        assert_eq!(human_size(n), reference(n), "n = {n}");
    }
}

#[test]
fn human_size_examples() {
    assert_eq!(human_size(0), "0B");
    assert_eq!(human_size(1023), "1023B");
    assert_eq!(human_size(1024), "1.0K");
    assert_eq!(human_size(1280), "1.2K");
    assert_eq!(human_size(1536), "1.5K");
    assert_eq!(human_size(10 * 1024), "10K");
    assert_eq!(human_size(u64::MAX), "16777216T");
}

/// The size a human-readable size stands for, in tenths of a byte.
fn tenths(s: &str) -> u128 {
    let (num, unit) = s.split_at(s.len() - 1);
    let scale: u128 = match unit {
        "B" => 1,
        "K" => 1 << 10,
        "M" => 1 << 20,
        "G" => 1 << 30,
        "T" => 1 << 40,
        _ => panic!("unknown unit in {s}"),
    };
    let value: u128 = match num.split_once('.') {
        Some((whole, frac)) => whole.parse::<u128>().unwrap() * 10 + frac.parse::<u128>().unwrap(),
        None => num.parse::<u128>().unwrap() * 10,
    };
    value * scale
}

#[test]
fn human_size_never_reads_smaller_for_a_larger_size() {
    let mut samples: Vec<u64> = Vec::new();
    for n in 0..3000u64 {
        samples.push(n);
        samples.push(n * 37);
    }
    for k in 9..64u32 {
        let base = 1u64 << k;
        for d in 0..40u64 {
            samples.push(base.saturating_add(d * (base / 64)));
            samples.push(base - d.min(base));
            samples.push(base.saturating_mul(10).saturating_sub(d));
        }
    }
    samples.push(u64::MAX);
    samples.push(9008848522182655);
    samples.sort_unstable();
    let mut last = 0u128;
    for n in samples {
        let v = tenths(&human_size(n));
        assert!(v >= last, "human_size({n}) = {} reads smaller than a smaller size", human_size(n));
        last = v;
    }
}

#[test]
fn human_size_unit_boundaries_read_the_same() {
    assert_eq!(tenths(&human_size(1023)), 10230);
    assert_eq!(tenths(&human_size(1024)), 10240);
    assert_eq!(human_size(1048575), "1024K");
    assert_eq!(human_size(1048576), "1.0M");
    assert_eq!(tenths(&human_size(1048575)), tenths(&human_size(1048576)));
}
