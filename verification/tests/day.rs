use tally_terminal::day::{civil_from_days, unix_to_ymd_string, Day};

#[test]
fn day_from_timestamp() {
    assert_eq!(Day::new_from_timestamp(0), Day(0));
    assert_eq!(Day::new_from_timestamp(86399), Day(0));
    assert_eq!(Day::new_from_timestamp(86400), Day(1));
    assert_eq!(Day::new_from_timestamp(5 * 86400 + 3), Day(5));
}

#[test]
fn far_future_is_capped() {
    assert_eq!(Day::new_from_timestamp(u64::MAX), Day(u32::MAX));
}

#[test]
fn timestamp_round_trip() {
    let d = Day::new(20000);
    assert_eq!(d.to_timestamp(), 20000 * 86400);
    assert_eq!(Day::new_from_timestamp(d.to_timestamp()), d);
}

#[test]
fn canonical_key_is_fixed_width_hex() {
    assert_eq!(Day::new(5).to_string(), "00000005");
    assert_eq!(Day::new(0x1A2B3C4D).to_string(), "1A2B3C4D");
    assert_eq!(Day::new(u32::MAX).to_string(), "FFFFFFFF");
}

#[test]
fn key_parses_back() {
    assert_eq!(Day::from_hex_str("00000005"), Ok(Day(5)));
    assert_eq!(Day::from_hex_str("1a2b3c4d"), Ok(Day(0x1A2B3C4D)));
    assert_eq!(Day::from_hex_str("5"), Ok(Day(5)));
}

#[test]
fn bad_keys_are_rejected() {
    assert!(Day::from_hex_str("").is_err());
    assert!(Day::from_hex_str("123456789").is_err());
    assert!(Day::from_hex_str("XYZ").is_err());
    assert!(Day::from_hex_str("+5").is_err());
}

#[test]
fn per_day_filename() {
    assert_eq!(Day::new(5).filename(), "00000005.js");
}

#[test]
fn civil_dates() {
    // day 60 opens year zero's March; the era wraps a leap year zero
    assert_eq!(civil_from_days(60), (0, 3, 1));
    assert_eq!(civil_from_days(59), (0, 2, 29));
    assert_eq!(civil_from_days(0), (0, 1, 1));
    assert_eq!(civil_from_days(719163), (1969, 1, 1));
    // one (non-leap) year later
    assert_eq!(civil_from_days(719528), (1970, 1, 1));
}

#[test]
fn timestamp_to_date() {
    assert_eq!(unix_to_ymd_string(0), (1969, 1, 1));
    assert_eq!(unix_to_ymd_string(19782 * 86400), (2023, 3, 1));
    // one hour before midnight rolls into the next (shifted) day
    assert_eq!(unix_to_ymd_string(86400 - 3600), (1969, 1, 2));
}
