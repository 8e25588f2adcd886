use filelist::display::{format_size, push_decimal, round_to_double, text_or_empty};
use filelist::record::Timestamp;
use filelist::scanner::FileInfo;

fn float_size(size: u64) -> String {
    let units = ["B", "KB", "MB", "GB", "TB"];
    let mut size = size as f64;
    let mut unit_index = 0;
    while size >= 1024.0 && unit_index < units.len() - 1 {
        size /= 1024.0;
        unit_index += 1;
    }
    if unit_index == 0 {
        format!("{} {}", size as u64, units[unit_index])
    } else {
        format!("{:.1} {}", size, units[unit_index])
    }
}

#[test]
fn sizes_below_a_kilobyte_are_whole_bytes() {
    assert_eq!(format_size(0), "0 B");
    assert_eq!(format_size(1), "1 B");
    assert_eq!(format_size(10), "10 B");
    assert_eq!(format_size(999), "999 B");
    assert_eq!(format_size(1023), "1023 B");
}

#[test]
fn larger_sizes_have_one_decimal_of_their_unit() {
    assert_eq!(format_size(1024), "1.0 KB");
    assert_eq!(format_size(1536), "1.5 KB");
    assert_eq!(format_size(1048576), "1.0 MB");
    assert_eq!(format_size(5 * 1048576 + 524288), "5.5 MB");
    assert_eq!(format_size(1073741824), "1.0 GB");
    assert_eq!(format_size(1099511627776), "1.0 TB");
    assert_eq!(format_size(1024 * 1099511627776), "1024.0 TB");
    assert_eq!(format_size(u64::MAX), "16777216.0 TB");
}

#[test]
fn decimal_is_rounded_with_ties_to_even() {
    assert_eq!(format_size(1280), "1.2 KB");
    assert_eq!(format_size(1792), "1.8 KB");
    assert_eq!(format_size(1075), "1.0 KB");
    assert_eq!(format_size(1076), "1.1 KB");
    assert_eq!(format_size(1048575), "1024.0 KB");
    assert_eq!(format_size(1048524), "1023.9 KB");
}

#[test]
fn size_text_agrees_with_floating_point() {
    for size in 0..20000u64 {
        assert_eq!(format_size(size), float_size(size), "size {}", size);
    }
    for shift in 10..64u32 {
        let p = 1u64 << shift;
        for d in 0..40u64 {
            for size in [p - d, p + d, p + p / 2 + d, p + p / 4 - d, p / 5 * 8 + d] {
                assert_eq!(format_size(size), float_size(size), "size {}", size);
            }
        }
    }
    for k in 1..5u32 {
        let unit = 1u64 << (10 * k);
        for twentieths in 0..400u64 {
            let size = unit * twentieths / 20;
            for d in 0..3u64 {
                assert_eq!(format_size(size + d), float_size(size + d), "size {}", size + d);
                if size >= d {
                    assert_eq!(format_size(size - d), float_size(size - d), "size {}", size - d);
                }
            }
        }
    }
    let mut seed: u64 = 0x9E3779B97F4A7C15;
    for _ in 0..200000 {
        seed ^= seed << 13;
        seed ^= seed >> 7;
        seed ^= seed << 17;
        let size = seed >> (seed % 64);
        assert_eq!(format_size(size), float_size(size), "size {}", size);
    }
    for size in [u64::MAX, u64::MAX - 1, u64::MAX - 1023, u64::MAX - 1024, u64::MAX - 1025, u64::MAX - 2048] {
        assert_eq!(format_size(size), float_size(size), "size {}", size);
    }
}

#[test]
fn nearest_double_agrees_with_the_cast() {
    let mut seed: u64 = 0xD1B54A32D192ED03;
    for _ in 0..200000 {
        seed ^= seed << 13;
        seed ^= seed >> 7;
        seed ^= seed << 17;
        let size = seed >> (seed % 12);
        assert_eq!(round_to_double(size), (size as f64) as u128, "size {}", size);
    }
    for size in [0, 1, (1u64 << 53) - 1, 1u64 << 53, (1u64 << 53) + 1, (1u64 << 53) + 2,
        (1u64 << 53) + 3, (1u64 << 54) + 2, (1u64 << 54) + 6, u64::MAX, u64::MAX - 1024, u64::MAX - 1023]
    {
        assert_eq!(round_to_double(size), (size as f64) as u128, "size {}", size);
    }
    assert_eq!(round_to_double((1u64 << 53) + 1), 1u128 << 53);
    assert_eq!(round_to_double((1u64 << 53) + 3), (1u128 << 53) + 4);
    assert_eq!(round_to_double(u64::MAX), 1u128 << 64);
}

#[test]
fn decimal_digits_are_written_behind_the_text() {
    let mut text = String::from("n=");
    push_decimal(&mut text, 0);
    assert_eq!(text, "n=0");
    push_decimal(&mut text, 907);
    assert_eq!(text, "n=0907");
    let mut text = String::new();
    push_decimal(&mut text, u64::MAX);
    assert_eq!(text, "18446744073709551615");
    for n in [1u64, 9, 10, 11, 99, 100, 101, 1000, 123456789, 1 << 40] {
        let mut text = String::new();
        push_decimal(&mut text, n);
        assert_eq!(text, n.to_string());
    }
}

#[test]
fn directory_shows_no_size() {
    let mut f = FileInfo {
        path: "/r/d".to_string(),
        parent: "/r".to_string(),
        name: "d".to_string(),
        is_dir: true,
        is_shortcut: false,
        size: 2048,
        modified: None,
        extension: None,
    };
    assert_eq!(f.size_formatted(), "");
    f.is_dir = false;
    assert_eq!(f.size_formatted(), "2.0 KB");
    f.size = 0;
    assert_eq!(f.size_formatted(), "0 B");
}

fn changed_at(secs: i64, nanos: u32) -> FileInfo {
    FileInfo {
        path: "/r/f".to_string(),
        parent: "/r".to_string(),
        name: "f".to_string(),
        is_dir: false,
        is_shortcut: false,
        size: 1,
        modified: Some(Timestamp { secs, nanos }),
        extension: None,
    }
}

#[test]
fn change_is_shown_to_the_minute() {
    assert_eq!(changed_at(1431648000, 0).modified_formatted(0), "2015-05-15 00:00");
    assert_eq!(changed_at(1431648059, 999_999_999).modified_formatted(0), "2015-05-15 00:00");
    assert_eq!(changed_at(1431648060, 0).modified_formatted(0), "2015-05-15 00:01");
    assert_eq!(changed_at(0, 0).modified_formatted(0), "1970-01-01 00:00");
    assert_eq!(changed_at(951782400, 0).modified_formatted(0), "2000-02-29 00:00");
    assert_eq!(changed_at(1700000000, 0).modified_formatted(0), "2023-11-14 22:13");
}

#[test]
fn change_is_shown_on_the_clock_of_the_offset() {
    assert_eq!(changed_at(1431648000, 0).modified_formatted(3600), "2015-05-15 01:00");
    assert_eq!(changed_at(1431648000, 0).modified_formatted(-3600), "2015-05-14 23:00");
    assert_eq!(changed_at(1431648000, 0).modified_formatted(19800), "2015-05-15 05:30");
    assert_eq!(changed_at(0, 0).modified_formatted(-60), "1969-12-31 23:59");
}

#[test]
fn change_without_a_date_shows_nothing() {
    let mut f = changed_at(0, 0);
    f.modified = None;
    assert_eq!(f.modified_formatted(0), "");
    assert_eq!(changed_at(-1, 0).modified_formatted(0), "");
    assert_eq!(changed_at(-1, 0).modified_formatted(3600), "");
    assert_eq!(changed_at(i64::MAX, 0).modified_formatted(0), "");
    assert_eq!(changed_at(i64::MAX, 0).modified_formatted(1), "");
    assert_eq!(changed_at(i64::MAX, 0).modified_formatted(-1), "");
    assert_eq!(changed_at(i64::MAX - 5, 0).modified_formatted(10), "");
}

#[test]
fn missing_text_is_shown_empty() {
    assert_eq!(text_or_empty(None), "");
    assert_eq!(text_or_empty(Some("x".to_string())), "x");
}
