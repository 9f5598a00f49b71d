use diskview::threshold::is_minor;
use diskview::size_text::format_size;

#[test]
fn test_format_size() {
    assert_eq!(format_size(0), "0 B");
    assert_eq!(format_size(1023), "1023 B");
    assert_eq!(format_size(1024), "1.00 KB");
    assert_eq!(format_size(1_048_576), "1.00 MB");
    assert_eq!(format_size(1_073_741_824), "1.00 GB");
}

fn float_reference(bytes: u64) -> String {
    const KB: u64 = 1024;
    const MB: u64 = 1024 * KB;
    const GB: u64 = 1024 * MB;
    const TB: u64 = 1024 * GB;
    if bytes >= TB {
        format!("{:.2} TB", bytes as f64 / TB as f64)
    } else if bytes >= GB {
        format!("{:.2} GB", bytes as f64 / GB as f64)
    } else if bytes >= MB {
        format!("{:.2} MB", bytes as f64 / MB as f64)
    } else if bytes >= KB {
        format!("{:.2} KB", bytes as f64 / KB as f64)
    } else {
        format!("{bytes} B")
    }
}

fn samples() -> Vec<u64> {
    let mut v: Vec<u64> = vec![
        0,
        1,
        9,
        10,
        99,
        100,
        999,
        1000,
        1023,
        1024,
        1025,
        1029,
        1030,
        1152,
        1126,
        1075,
        10_240,
        1_048_575,
        1_048_576,
        5_242_880,
        1_073_741_823,
        1_073_741_824,
        1_099_511_627_775,
        1_099_511_627_776,
        (1u64 << 53) - 1,
        1u64 << 53,
        (1u64 << 53) + 1,
        (1u64 << 53) + 3,
        (1u64 << 54) + 2,
        (1u64 << 54) + 6,
        u64::MAX - 1,
        u64::MAX,
    ];
    let mut x: u64 = 0x9E37_79B9_7F4A_7C15;
    for i in 0..4000u64 {
        x ^= x << 13;
        x ^= x >> 7;
        x ^= x << 17;
        let shift = (i % 64) as u32;
        v.push(x >> shift);
    }
    for k in 10..64u32 {
        let base = 1u64 << k;
        for d in 0..8u64 {
            v.push(base.wrapping_add(d * (base / 800).max(1)));
            v.push(base.wrapping_sub(d));
        }
    }
    v
}

#[test]
fn format_size_matches_float_formatting() {
    for b in samples() {
        assert_eq!(format_size(b), float_reference(b), "bytes = {b}");
    }
}

#[test]
fn format_size_rounds_ties_to_even() {
    assert_eq!(format_size(1152), "1.12 KB");
    assert_eq!(format_size(1152), float_reference(1152));
    assert_eq!(format_size(1_048_575), "1024.00 KB");
}

#[test]
fn is_minor_matches_float_threshold() {
    let values = samples();
    for (i, t) in values.iter().enumerate() {
        let total = *t;
        if total == 0 {
            continue;
        }
        let threshold = total as f64 * 0.01;
        let mut candidates: Vec<u64> = vec![0, total / 100, total / 100 + 1, total / 100 - (total / 100).min(1), total];
        candidates.push(values[(i * 7 + 3) % values.len()] % (total / 50 + 1));
        for s in candidates {
            assert_eq!(is_minor(s, total), (s as f64) < threshold, "size = {s}, total = {total}");
        }
    }
}

#[test]
fn minor_is_under_one_percent_of_exact_totals() {
    let totals: [u64; 9] = [1, 99, 100, 101, 1000, 12_345, 1 << 40, 1 << 52, (1 << 53) - 1];
    for &t in totals.iter() {
        let hundredth = t / 100;
        let mut sizes = vec![0, hundredth, hundredth + 1, t];
        if hundredth > 0 {
            sizes.push(hundredth - 1);
        }
        for s in sizes {
            if s <= t {
                assert_eq!(is_minor(s, t), 100 * (s as u128) < t as u128, "size = {s}, total = {t}");
            }
        }
    }
}
