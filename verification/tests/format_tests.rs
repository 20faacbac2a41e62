use clean_code::format::{decimal_text, display_rel_path, format_bytes};
use clean_code::path::FsPath;

fn by_float(bytes: u64) -> String {
    const UNITS: [&str; 7] = ["B", "KiB", "MiB", "GiB", "TiB", "PiB", "EiB"];
    if bytes < 1024 {
        return format!("{bytes} B");
    }
    let mut size = bytes as f64;
    let mut unit_index = 0usize;
    while size >= 1024.0 && unit_index < UNITS.len() - 1 {
        size /= 1024.0;
        unit_index += 1;
    }
    format!("{size:.1} {}", UNITS[unit_index])
}

#[test]
fn format_bytes_below_one_kib_is_plain() {
    assert_eq!(format_bytes(0), "0 B");
    assert_eq!(format_bytes(7), "7 B");
    assert_eq!(format_bytes(1023), "1023 B");
}

#[test]
fn format_bytes_exact_units() {
    assert_eq!(format_bytes(1024), "1.0 KiB");
    assert_eq!(format_bytes(1536), "1.5 KiB");
    assert_eq!(format_bytes(10 * 1024 * 1024), "10.0 MiB");
    assert_eq!(format_bytes(5 * 1024 * 1024 * 1024 / 2), "2.5 GiB");
    assert_eq!(format_bytes(1u64 << 40), "1.0 TiB");
    assert_eq!(format_bytes(1u64 << 50), "1.0 PiB");
    assert_eq!(format_bytes(1u64 << 60), "1.0 EiB");
    assert_eq!(format_bytes(u64::MAX), "16.0 EiB");
}

#[test]
fn format_bytes_ties_go_to_the_even_digit() {
    assert_eq!(format_bytes(1280), "1.2 KiB");
    assert_eq!(format_bytes(1280 + 512), "1.8 KiB");
    assert_eq!(format_bytes(1024 + 154), "1.2 KiB");
}

#[test]
fn format_bytes_rounds_up_into_the_next_thousand() {
    assert_eq!(format_bytes(1024 * 1024 - 1), "1024.0 KiB");
    assert_eq!(format_bytes((1u64 << 60) - 1), "1.0 EiB");
}

#[test]
fn format_bytes_agrees_with_floating_point() {
    let mut samples: Vec<u64> = vec![
        1024, 1025, 1279, 1280, 1281, 1791, 1792, 1793, 2047, 2048, 1048575, 1048576, 1048577,
        u64::MAX, u64::MAX - 1, u64::MAX - 1024, (1u64 << 53) - 1, 1u64 << 53, (1u64 << 53) + 1,
        (1u64 << 60) - 1, (1u64 << 60) - 64, (1u64 << 60) - 65, 1u64 << 60, (1u64 << 60) + 1,
    ];
    for shift in 10..64u32 {
        let base = 1u64 << shift;
        for odd in [1u64, 3, 5, 7, 9, 11, 13, 15, 25, 41, 51, 77, 99, 101, 205, 1023] {
            let step = base / 20;
            let around = base.wrapping_add(step.wrapping_mul(odd));
            for delta in [0u64, 1, 2, 3, 63, 64, 65, 127, 128, 129, 255, 256, 257, 511, 512, 513] {
                samples.push(around.wrapping_add(delta));
                samples.push(around.wrapping_sub(delta));
            }
        }
    }
    let mut state: u64 = 0x9e37_79b9_7f4a_7c15;
    for _ in 0..20000 {
        state = state.wrapping_mul(6364136223846793005).wrapping_add(1442695040888963407);
        samples.push(state);
        samples.push(state >> (state % 54));
    }
    for bytes in samples {
        assert_eq!(format_bytes(bytes), by_float(bytes), "for {bytes}");
    }
}

#[test]
fn decimal_text_writes_numbers() {
    assert_eq!(decimal_text(0), "0");
    assert_eq!(decimal_text(9), "9");
    assert_eq!(decimal_text(10), "10");
    assert_eq!(decimal_text(1234567890), "1234567890");
    assert_eq!(decimal_text(u64::MAX), "18446744073709551615");
}

#[test]
fn display_rel_path_of_the_base_is_a_dot() {
    let base = FsPath::from_text("/work/repo");
    assert_eq!(display_rel_path(&base, &base), ".");
}

#[test]
fn display_rel_path_strips_the_base() {
    let base = FsPath::from_text("/work");
    let path = FsPath::from_text("/work/repo/target");
    assert_eq!(display_rel_path(&base, &path), "repo/target");
    let root = FsPath::from_text("/");
    assert_eq!(display_rel_path(&root, &path), "work/repo/target");
}

#[test]
fn display_rel_path_outside_the_base_is_whole() {
    let base = FsPath::from_text("/work/repo");
    let sibling = FsPath::from_text("/work/repository");
    assert_eq!(display_rel_path(&base, &sibling), "/work/repository");
    let other = FsPath::from_text("/elsewhere");
    assert_eq!(display_rel_path(&base, &other), "/elsewhere");
}

#[test]
fn display_rel_path_replaces_what_is_not_text() {
    let base = FsPath::from_text("/work");
    let path = FsPath::new(vec![47, 119, 111, 114, 107, 47, 0xff, 97]);
    assert_eq!(display_rel_path(&base, &path), "\u{fffd}a");
}
