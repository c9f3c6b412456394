use rdu::format::format_size;

/// What one-decimal formatting of a double division gives.
fn float_text(bytes: u64) -> String {
    const KB: u64 = 1_024;
    const MB: u64 = 1_024 * KB;
    const GB: u64 = 1_024 * MB;
    const TB: u64 = 1_024 * GB;
    const PB: u64 = 1_024 * TB;
    if bytes < KB {
        format!("{} B", bytes)
    } else if bytes < MB {
        format!("{:.1} KB", bytes as f64 / KB as f64)
    } else if bytes < GB {
        format!("{:.1} MB", bytes as f64 / MB as f64)
    } else if bytes < TB {
        format!("{:.1} GB", bytes as f64 / GB as f64)
    } else if bytes < PB {
        format!("{:.1} TB", bytes as f64 / TB as f64)
    } else {
        format!("{:.1} PB", bytes as f64 / PB as f64)
    }
}

#[test]
fn bytes() {
    assert_eq!(format_size(0), "0 B");
    assert_eq!(format_size(512), "512 B");
    assert_eq!(format_size(1023), "1023 B");
}

#[test]
fn kilobytes() {
    assert_eq!(format_size(1_024), "1.0 KB");
    assert_eq!(format_size(1_536), "1.5 KB");
    assert_eq!(format_size(1_048_575), "1024.0 KB");
}

#[test]
fn megabytes() {
    assert_eq!(format_size(1_048_576), "1.0 MB");
    assert_eq!(format_size(3_251_634), "3.1 MB");
}

#[test]
fn gigabytes() {
    assert_eq!(format_size(1_073_741_824), "1.0 GB");
    assert_eq!(format_size(5_368_709_120), "5.0 GB");
}

#[test]
fn terabytes() {
    assert_eq!(format_size(1_099_511_627_776), "1.0 TB");
    assert_eq!(format_size(1_200_273_234_234), "1.1 TB");
}

#[test]
fn petabytes() {
    assert_eq!(format_size(1_125_899_906_842_624), "1.0 PB");
    assert_eq!(format_size(2_251_799_813_685_248), "2.0 PB");
}

#[test]
fn ties_round_to_even_tenth() {
    // 1.25 KB and 1.75 KB lie exactly between two tenths.
    assert_eq!(format_size(1_280), "1.2 KB");
    assert_eq!(format_size(1_792), "1.8 KB");
    assert_eq!(format_size(1_281), "1.3 KB");
}

#[test]
fn largest_counts() {
    // u64::MAX becomes 2^64 as a double: 16384 PB.
    assert_eq!(format_size(u64::MAX), "16384.0 PB");
    assert_eq!(format_size(9_007_199_254_740_993), "8.0 PB");
}

#[test]
fn agrees_with_float_formatting() {
    let mut samples: Vec<u64> = Vec::new();
    for k in 0..64u32 {
        let p = 1u64 << k;
        for d in [0u64, 1, 2, 3, 5, 7, 100, 511, 512, 513] {
            samples.push(p.wrapping_add(d));
            samples.push(p.wrapping_sub(d));
        }
    }
    let mut x: u64 = 0x9e37_79b9_7f4a_7c15;
    for _ in 0..20_000 {
        x ^= x << 13;
        x ^= x >> 7;
        x ^= x << 17;
        samples.push(x);
        samples.push(x >> (x % 64));
    }
    for unit in [1_024u64, 1_048_576, 1_073_741_824, 1_099_511_627_776, 1_125_899_906_842_624] {
        for q in 1..2_000u64 {
            // multiples of a twentieth of the unit hit the ties
            samples.push(unit / 20 * q);
            samples.push((unit / 20).wrapping_mul(q).wrapping_add(unit / 40));
        }
    }
    for b in samples {
        assert_eq!(format_size(b), float_text(b), "bytes = {}", b);
    }
}

/// Ten times the amount a size text reads as, in bytes.
fn read_tenths(text: &str) -> u128 {
    let (number, unit) = text.split_once(' ').unwrap();
    let scale: u128 = match unit {
        "B" => 1,
        "KB" => 1 << 10,
        "MB" => 1 << 20,
        "GB" => 1 << 30,
        "TB" => 1 << 40,
        _ => 1 << 50,
    };
    let tenths: u128 = match number.split_once('.') {
        Some((whole, frac)) => whole.parse::<u128>().unwrap() * 10 + frac.parse::<u128>().unwrap(),
        None => number.parse::<u128>().unwrap() * 10,
    };
    tenths * scale
}

#[test]
fn shown_amount_never_decreases() {
    assert_eq!(read_tenths(&format_size(1_048_575)), read_tenths(&format_size(1_048_576)));
    assert_eq!(read_tenths(&format_size(1_023)), 10_230);
    assert_eq!(read_tenths(&format_size(1_024)), 10_240);
    let mut last = 0u128;
    let mut b: u64 = 0;
    while b < u64::MAX / 2 {
        let shown = read_tenths(&format_size(b));
        assert!(shown >= last, "bytes = {}", b);
        last = shown;
        b = b + 1 + b / 97;
    }
}
