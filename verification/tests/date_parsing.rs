use bckpcln::dates::creation_date_from_filename;
use bckpcln::dates::date_before;
use bckpcln::dates::BackupDate;

fn utc_timestamp(name: &str) -> i64 {
    chrono::NaiveDateTime::parse_from_str(name, "%Y-%m-%d_%H%M_%S")
        .unwrap()
        .and_utc()
        .timestamp()
}

#[test]
fn parses_canonical_name() {
    let d = creation_date_from_filename("2024-01-02_1534_09").unwrap();
    assert_eq!(
        d,
        BackupDate { year: 2024, month: 1, day: 2, hour: 15, minute: 34, second: 9 }
    );
}

#[test]
fn rejects_free_form_names() {
    for name in [
        "random_name",
        "",
        "2024-01-02",
        "2024-01-02_1534_090",
        "2024_01_02_1534_09",
        "2024-01-02 1534 09",
        "yyyy-mm-dd_hhmm_ss",
    ] {
        assert_eq!(creation_date_from_filename(name), None, "input {:?}", name);
    }
}

#[test]
fn rejects_impossible_dates() {
    for name in [
        "2024-00-01_0000_00",
        "2024-13-01_0000_00",
        "2024-01-00_0000_00",
        "2024-01-32_0000_00",
        "2024-04-31_0000_00",
        "2023-02-29_0000_00",
        "2024-01-01_2400_00",
        "2024-01-01_0060_00",
        "2024-01-01_0000_60",
    ] {
        assert_eq!(creation_date_from_filename(name), None, "input {:?}", name);
    }
}

#[test]
fn accepts_leap_day_in_leap_years() {
    assert!(creation_date_from_filename("2024-02-29_0000_00").is_some());
    assert!(creation_date_from_filename("2000-02-29_0000_00").is_some());
    assert_eq!(creation_date_from_filename("1900-02-29_0000_00"), None);
}

#[test]
fn seconds_axis_matches_utc_gaps() {
    // The engine's second axis must measure the same gaps as UTC timestamps.
    let names = [
        "1970-01-01_0000_00",
        "1999-12-31_2359_59",
        "2000-03-01_0000_00",
        "2024-02-29_1230_45",
        "2100-01-01_0101_01",
    ];
    for pair in names.windows(2) {
        let older = creation_date_from_filename(pair[0]).unwrap();
        let newer = creation_date_from_filename(pair[1]).unwrap();
        let gap = newer.to_seconds() - older.to_seconds();
        let expected = (utc_timestamp(pair[1]) - utc_timestamp(pair[0])) as u64;
        assert_eq!(gap, expected, "between {:?} and {:?}", pair[0], pair[1]);
    }
}

#[test]
fn year_zero_starts_the_axis() {
    let d = creation_date_from_filename("0000-01-01_0000_00").unwrap();
    assert_eq!(d.to_seconds(), 0);
    let next = creation_date_from_filename("0000-01-01_0000_01").unwrap();
    assert_eq!(next.to_seconds(), 1);
}

#[test]
fn date_order_is_chronological() {
    let a = creation_date_from_filename("2023-12-31_2359_59").unwrap();
    let b = creation_date_from_filename("2024-01-01_0000_00").unwrap();
    assert!(date_before(&a, &b));
    assert!(!date_before(&b, &a));
    assert!(!date_before(&a, &a));
    assert!(a.to_seconds() < b.to_seconds());
}
