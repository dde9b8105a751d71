use hush::text::{config_server, decimal, fmt_time, is_white, total};

#[test]
fn totals_and_rates_read_the_way_a_person_says_them() {
    assert_eq!(total(900), "900 B");
    assert_eq!(total(2048), "2.0 kB");
    assert_eq!(total(3 * 1024 * 1024), "3.0 MB");
}

#[test]
fn the_clock_counts_in_minutes_and_seconds() {
    assert_eq!(fmt_time(0), "00:00");
    assert_eq!(fmt_time(65), "01:05");
    assert_eq!(fmt_time(3600), "60:00");
}

#[test]
fn a_long_call_needs_more_figures() {
    assert_eq!(fmt_time(59), "00:59");
    assert_eq!(fmt_time(6000), "100:00");
    assert_eq!(fmt_time(u64::MAX), "307445734561825860:15");
}

/// A total by way of std's own formatting.
fn total_by_std(bytes: u64) -> String {
    if bytes < 1024 {
        format!("{bytes} B")
    } else if bytes < 1024 * 1024 {
        format!("{:.1} kB", bytes as f64 / 1024.0)
    } else {
        format!("{:.1} MB", bytes as f64 / (1024.0 * 1024.0))
    }
}

#[test]
fn totals_round_as_std_rounds_them() {
    for bytes in 0..200_000u64 {
        assert_eq!(total(bytes), total_by_std(bytes));
    }
    for bytes in 1_040_000..1_060_000u64 {
        assert_eq!(total(bytes), total_by_std(bytes));
    }
    // Halfway between two tenths.
    for k in 1..2000u64 {
        let bytes = 1024 * 1024 + k * 52_428 + 26_214;
        assert_eq!(total(bytes), total_by_std(bytes));
        assert_eq!(total(1024 * 1024 / 4 * k), total_by_std(1024 * 1024 / 4 * k));
    }
    // Too great to be held to the last byte.
    for k in 0..64u64 {
        for bits in 53..64 {
            let base = 1u64 << bits;
            for bytes in [base + k, base - 1 - k, base / 3 * 4 + k, u64::MAX - k] {
                assert_eq!(total(bytes), total_by_std(bytes));
            }
        }
    }
    let mut n: u64 = 88172645463325252;
    for _ in 0..20_000 {
        n ^= n << 13;
        n ^= n >> 7;
        n ^= n << 17;
        for shift in [0, 8, 16, 30, 40] {
            assert_eq!(total(n >> shift), total_by_std(n >> shift));
        }
    }
}

#[test]
fn numbers_are_written_in_decimal() {
    for n in [0, 7, 10, 99, 100, 48_000, u64::MAX] {
        assert_eq!(decimal(n), n.to_string());
    }
}

#[test]
fn white_space_is_what_std_says_it_is() {
    for c in '\0'..=char::MAX {
        assert_eq!(is_white(c), c.is_whitespace(), "{:?}", c);
    }
}

#[test]
fn the_setting_is_the_first_line_that_says_something() {
    assert_eq!(config_server(""), "");
    assert_eq!(config_server("host:7777"), "host:7777");
    assert_eq!(config_server("host:7777\n"), "host:7777");
    assert_eq!(config_server("\n\n  # mine\n\t host:7777 \r\nother:1\n"), "host:7777");
    assert_eq!(config_server("# only this\n   \n"), "");
    assert_eq!(config_server("a # b"), "a # b");
    assert_eq!(config_server("\u{3000}host:1\u{a0}"), "host:1");
}
