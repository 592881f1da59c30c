use lib::size::human_size;

fn reference(size: u64) -> String {
    const KB: f64 = 1024.0;
    const MB: f64 = KB * 1024.0;
    if size as f64 >= MB {
        format!("{:.1} MB", size as f64 / MB)
    } else if size as f64 >= KB {
        format!("{:.1} KB", size as f64 / KB)
    } else {
        format!("{} B", size)
    }
}

#[test]
fn human_size_bytes() {
    assert_eq!(human_size(0), "0 B");
    assert_eq!(human_size(7), "7 B");
    assert_eq!(human_size(1023), "1023 B");
}

#[test]
fn human_size_kilobytes() {
    assert_eq!(human_size(1024), "1.0 KB");
    assert_eq!(human_size(1536), "1.5 KB");
    assert_eq!(human_size(10 * 1024 + 512), "10.5 KB");
    assert_eq!(human_size(1048575), "1024.0 KB");
}

#[test]
fn human_size_ties_round_to_even() {
    // 1280 / 1024 = 1.25 exactly, 1792 / 1024 = 1.75 exactly
    assert_eq!(human_size(1280), "1.2 KB");
    assert_eq!(human_size(1792), "1.8 KB");
}

#[test]
fn human_size_megabytes() {
    assert_eq!(human_size(1048576), "1.0 MB");
    assert_eq!(human_size(5 * 1048576 + 524288), "5.5 MB");
    assert_eq!(human_size(u64::MAX), "17592186044416.0 MB");
}

#[test]
fn human_size_matches_float_formatting() {
    let mut specials: Vec<u64> = vec![
        0, 1, 1023, 1024, 1025, 1280, 1792, 2047, 2048, 1048575, 1048576, 1048577,
        (1u64 << 53) - 1, 1u64 << 53, (1u64 << 53) + 1, (1u64 << 53) + 3, (1u64 << 54) + 2,
        (1u64 << 54) + 6, u64::MAX - 1, u64::MAX, 1u64 << 63, (1u64 << 63) + 1024,
    ];
    let mut x: u64 = 0x9e37_79b9_7f4a_7c15;
    for i in 0..20000u64 {
        x = x.wrapping_mul(6364136223846793005).wrapping_add(1442695040888963407);
        let shift = (i % 64) as u32;
        specials.push(x >> shift);
        specials.push(i * 1024 / 8);
    }
    for s in specials {
        assert_eq!(human_size(s), reference(s), "size {}", s);
    }
}
