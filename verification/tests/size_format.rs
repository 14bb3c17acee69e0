use tree::size::format_size;

fn float_reference(bytes: u64) -> String {
    const KB: u64 = 1024;
    const MB: u64 = KB * 1024;
    const GB: u64 = MB * 1024;
    if bytes >= GB {
        format!("{:.2} GB", bytes as f64 / GB as f64)
    } else if bytes >= MB {
        format!("{:.2} MB", bytes as f64 / MB as f64)
    } else if bytes >= KB {
        format!("{:.2} KB", bytes as f64 / KB as f64)
    } else {
        format!("{} B", bytes)
    }
}

#[test]
fn bytes_below_one_kilobyte_are_exact() {
    assert_eq!(format_size(0), "0 B");
    assert_eq!(format_size(1), "1 B");
    assert_eq!(format_size(1023), "1023 B");
}

#[test]
fn units_and_two_decimals() {
    assert_eq!(format_size(1024), "1.00 KB");
    assert_eq!(format_size(1536), "1.50 KB");
    assert_eq!(format_size(1048576), "1.00 MB");
    assert_eq!(format_size(1073741824), "1.00 GB");
    assert_eq!(format_size(2147483648), "2.00 GB");
    assert_eq!(format_size(1048575), "1024.00 KB");
}

#[test]
fn ties_round_to_even() {
    // 1152 / 1024 = 1.125 exactly
    assert_eq!(format_size(1152), "1.12 KB");
    // 1408 / 1024 = 1.375 exactly
    assert_eq!(format_size(1408), "1.38 KB");
}

#[test]
fn largest_counts_go_through_the_nearest_double() {
    assert_eq!(format_size(u64::MAX), "17179869184.00 GB");
    assert_eq!(format_size(u64::MAX), float_reference(u64::MAX));
    let big = (1u64 << 60) + 12345;
    assert_eq!(format_size(big), float_reference(big));
}

#[test]
fn agrees_with_double_formatting() {
    let mut x: u64 = 0x9E37_79B9_7F4A_7C15;
    for i in 0..200_000u64 {
        x = x.wrapping_mul(6364136223846793005).wrapping_add(1442695040888963407);
        let shift = (x >> 58) as u32;
        let v = x >> shift;
        assert_eq!(format_size(v), float_reference(v), "value {}", v);
        assert_eq!(format_size(i), float_reference(i), "value {}", i);
        let tie = i.wrapping_mul(128) | 1024;
        assert_eq!(format_size(tie), float_reference(tie), "value {}", tie);
    }
}

#[test]
fn larger_counts_never_show_smaller_sizes() {
    fn rank(s: &str) -> u32 {
        if s.ends_with(" GB") { 3 } else if s.ends_with(" MB") { 2 } else if s.ends_with(" KB") { 1 } else { 0 }
    }
    fn num(s: &str) -> f64 {
        s.split(' ').next().unwrap().parse().unwrap()
    }
    let mut values = vec![0u64, u64::MAX];
    let mut x: u64 = 1;
    while x < u64::MAX / 3 {
        values.extend([x, x + 1, x * 2 - 1, x + x / 2]);
        x = x * 2;
    }
    values.sort();
    for w in values.windows(2) {
        let (a, b) = (format_size(w[0]), format_size(w[1]));
        assert!(rank(&a) <= rank(&b), "{} then {}", a, b);
        if rank(&a) == rank(&b) {
            assert!(num(&a) <= num(&b), "{} then {}", a, b);
        }
    }
}

fn read_back(text: &str) -> (u32, u128) {
    let (number, unit) = text.split_once(' ').unwrap();
    let rank = match unit {
        "GB" => 3,
        "MB" => 2,
        "KB" => 1,
        _ => 0,
    };
    let hundredths = match number.split_once('.') {
        Some((whole, frac)) => whole.parse::<u128>().unwrap() * 100 + frac.parse::<u128>().unwrap(),
        None => number.parse::<u128>().unwrap() * 100,
    };
    (rank, hundredths)
}

#[test]
fn shown_sizes_are_within_half_a_hundredth() {
    let samples: [u64; 9] = [0, 1023, 1024, 1535, 1029, 1_048_575, 5_000_000, 3_221_225_472, 123_456_789_012];
    for n in samples {
        let (rank, h) = read_back(&format_size(n));
        let unit: i128 = 1i128 << (10 * rank);
        let error = 2 * (h as i128 * unit - 100 * n as i128);
        assert!(-unit <= error && error <= unit, "{} gives {}", n, format_size(n));
    }
}

#[test]
fn read_back_size_texts_grow_with_the_count() {
    let samples: [u64; 10] = [0, 9, 1023, 1024, 1030, 1_048_575, 1_048_576, 1_073_741_823, 1_073_741_824, u64::MAX];
    for w in samples.windows(2) {
        let (ra, ha) = read_back(&format_size(w[0]));
        let (rb, hb) = read_back(&format_size(w[1]));
        assert!(ra <= rb);
        assert!(ra < rb || ha <= hb, "{} and {}", w[0], w[1]);
    }
}
