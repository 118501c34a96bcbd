use kissat::format::{format_bytes, format_count_str, format_ordinal, format_signs, format_time_secs, format_value, Format};

#[test]
fn count_matches_c() {
    assert_eq!(format_count_str(0), "0");
    assert_eq!(format_count_str(127), "127");
    assert_eq!(format_count_str(999), "999");
    assert_eq!(format_count_str(1001), "1001");
    assert_eq!(format_count_str(128), "2^7");
    assert_eq!(format_count_str(64), "64");
    assert_eq!(format_count_str(1 << 20), "2^20");
    assert_eq!(format_count_str(1000), "1e3");
    assert_eq!(format_count_str(1500000), "15e5");
    assert_eq!(format_count_str(2000), "2e3");
}

#[test]
fn bytes_matches_c() {
    let mut f = Format::default();
    assert_eq!(format_bytes(&mut f, 1023), "1023 bytes");
    assert_eq!(format_bytes(&mut f, 1024), "1024 bytes (1 KB)");
    assert_eq!(format_bytes(&mut f, 1536), "1536 bytes (2 KB)");
    assert_eq!(format_bytes(&mut f, 1 << 20), "1048576 bytes (1 MB)");
    assert_eq!(format_bytes(&mut f, 1 << 30), "1073741824 bytes (1 GB)");
}

#[test]
fn ordinal_matches_c() {
    let mut f = Format::default();
    assert_eq!(format_ordinal(&mut f, 1), "1st");
    assert_eq!(format_ordinal(&mut f, 2), "2nd");
    assert_eq!(format_ordinal(&mut f, 3), "3rd");
    assert_eq!(format_ordinal(&mut f, 4), "4th");
    assert_eq!(format_ordinal(&mut f, 11), "11th");
    assert_eq!(format_ordinal(&mut f, 12), "12th");
    assert_eq!(format_ordinal(&mut f, 21), "21st");
    assert_eq!(format_ordinal(&mut f, 111), "111th");
}

#[test]
fn value_matches_c() {
    let mut f = Format::default();
    assert_eq!(format_value(&mut f, true, 1), "true");
    assert_eq!(format_value(&mut f, true, 0), "false");
    assert_eq!(format_value(&mut f, false, i32::MAX), "INT_MAX");
    assert_eq!(format_value(&mut f, false, i32::MIN), "INT_MIN");
    assert_eq!(format_value(&mut f, false, -2000), "-2e3");
    assert_eq!(format_value(&mut f, false, 42), "42");
}

#[test]
fn ring_rotates_through_sixteen_slots() {
    let mut f = Format::default();
    for i in 0..16 {
        assert_eq!(f.pos, i);
        format_signs(&mut f, 3, 5);
    }
    assert_eq!(f.pos, 0);
    assert_eq!(f.str_[15], "101");
}

#[test]
fn constant_values_leave_the_ring_alone() {
    let mut f = Format::default();
    format_value(&mut f, true, 7);
    format_value(&mut f, false, i32::MIN);
    assert_eq!(f.pos, 0);
    format_value(&mut f, false, -5);
    assert_eq!(f.pos, 1);
    assert_eq!(f.str_[0], "-5");
}

#[test]
fn whole_seconds_in_days_hours_minutes_seconds() {
    let mut f = Format::default();
    assert_eq!(format_time_secs(&mut f, 61), "1m 1s");
    assert_eq!(format_time_secs(&mut f, 3600), "1h");
    assert_eq!(format_time_secs(&mut f, 90061), "1d 1h 1m 1s");
    assert_eq!(format_time_secs(&mut f, 86400 + 5), "1d 5s");
    assert_eq!(format_time_secs(&mut f, 0), "");
}

#[test]
fn value_texts_read_back() {
    let mut f = Format::default();
    for v in [0, 1, -1, 7, 127, 128, -128, 999, 1000, -1000, 1001, 4096, 12000, -65536, 1 << 30, -(1 << 30),
              1_000_000_000, -2_000_000_000, i32::MAX - 1, i32::MIN + 1] {
        let text = format_value(&mut f, false, v);
        assert_eq!(kissat::options::parse_option_value(&text), Some(v), "{}", text);
    }
}
