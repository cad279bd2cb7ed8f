use alloyfang::metrics::format_bytes;

#[test]
fn test_format_bytes() {
    assert_eq!(format_bytes(500), "500 B");
    assert_eq!(format_bytes(1536), "1.5 KB");
    assert_eq!(format_bytes(1048576), "1.0 MB");
}

fn float_format(bytes: u64) -> String {
    if bytes < 1024 {
        format!("{} B", bytes)
    } else if bytes < 1024 * 1024 {
        format!("{:.1} KB", bytes as f64 / 1024.0)
    } else if bytes < 1024 * 1024 * 1024 {
        format!("{:.1} MB", bytes as f64 / (1024.0 * 1024.0))
    } else {
        format!("{:.1} GB", bytes as f64 / (1024.0 * 1024.0 * 1024.0))
    }
}

#[test]
fn format_bytes_matches_floating_point_rendering() {
    let mut samples: Vec<u64> = vec![
        0, 1, 9, 10, 1023, 1024, 1025, 1126, 1127, 1280, 1331, 1792, 2304, 10239, 10240,
        1048575, 1048576, 1048577, 1310720, 1572864, 1073741823, 1073741824, 1073741825,
        1181116006, 1288490188, 1288490189, 1342177280,
        (1u64 << 53) - 1, 1u64 << 53, (1u64 << 53) + 1, (1u64 << 53) + 3,
        u64::MAX, u64::MAX - 1, u64::MAX - 2048, u64::MAX - 4096, 1u64 << 63, (1u64 << 63) + 1024,
    ];
    let mut x: u64 = 0x9E37_79B9_7F4A_7C15;
    for _ in 0..20000 {
        x ^= x << 13;
        x ^= x >> 7;
        x ^= x << 17;
        let shift = (x % 64) as u32;
        samples.push(x >> shift);
    }
    for b in 0..5000u64 {
        samples.push(b * 256);
    }
    for b in samples {
        assert_eq!(format_bytes(b), float_format(b), "bytes = {}", b);
    }
}

#[test]
fn format_bytes_ties_round_to_even() {
    // 1280 bytes are exactly 1.25 KiB; 1.25 KiB * 3 = 3840 bytes = 3.75 KiB.
    assert_eq!(format_bytes(1280), float_format(1280));
    assert_eq!(format_bytes(3840), float_format(3840));
    assert_eq!(format_bytes(1048575), "1024.0 KB");
    assert_eq!(format_bytes(5 * 1024 * 1024 * 1024), "5.0 GB");
}
