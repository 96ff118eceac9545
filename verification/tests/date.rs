use crs_core::date::{unix_secs_to_date_str, unix_secs_to_ymd, unix_secs_to_ymd_hms};

#[test]
fn epoch_zero_is_1970_01_01() {
    assert_eq!(unix_secs_to_ymd(0), (1970, 1, 1));
}

#[test]
fn known_date_2024_03_15() {
    // 2024-03-15 00:00:00 UTC = 1710460800
    assert_eq!(unix_secs_to_ymd(1_710_460_800), (2024, 3, 15));
}

#[test]
fn hms_decomposition() {
    // 1970-01-01 01:02:03
    let secs = 3600 + 120 + 3;
    let (y, mo, d, h, mi, s) = unix_secs_to_ymd_hms(secs);
    assert_eq!((y, mo, d), (1970, 1, 1));
    assert_eq!((h, mi, s), (1, 2, 3));
}

#[test]
fn date_str_format() {
    assert_eq!(unix_secs_to_date_str(0), "1970-01-01");
    assert_eq!(unix_secs_to_date_str(1_710_460_800), "2024-03-15");
}

#[test]
fn leap_year_feb_29() {
    // 2000-02-29 is valid (Y2K leap year)
    // 2000-02-29 00:00:00 UTC = 951782400
    assert_eq!(unix_secs_to_ymd(951_782_400), (2000, 2, 29));
}
