use bckpcln::human_size::HumanSize;

#[test]
fn parse_kilo_short() {
    assert_eq!(u64::from_human_size("5k"), Some(5120));
}

#[test]
fn parse_mega_short() {
    assert_eq!(u64::from_human_size("10M"), Some(10485760));
}

#[test]
fn parse_giga_short() {
    assert_eq!(u64::from_human_size("6G"), Some(6442450944));
}

#[test]
fn parse_missing_unit_fails() {
    assert_eq!(u64::from_human_size("12345"), None);
}

#[test]
fn parse_unknown_unit_fails() {
    assert_eq!(u64::from_human_size("7X"), None);
}

#[test]
fn parse_empty_fails() {
    assert_eq!(u64::from_human_size(""), None);
}

#[test]
fn parse_unit_without_digits_fails() {
    assert_eq!(u64::from_human_size("k"), None);
}

#[test]
fn parse_all_kilo_spellings() {
    for s in ["1k", "1K", "1kb", "1KB", "1kib", "1KiB", "1KIB"] {
        assert_eq!(u64::from_human_size(s), Some(1024), "input {:?}", s);
    }
}

#[test]
fn parse_all_units_round_trip() {
    // The round-trip law on concrete values: parse("<m><U>") == m * factor(U).
    let units: [(&str, u64); 4] = [
        ("KiB", 1024),
        ("MiB", 1048576),
        ("GiB", 1073741824),
        ("TiB", 1099511627776),
    ];
    for (unit, factor) in units {
        for m in [0u64, 1, 7, 1023, 1024, 999999] {
            let text = format!("{}{}", m, unit);
            assert_eq!(u64::from_human_size(&text), Some(m * factor), "input {:?}", text);
            let spaced = format!("{} {}", m, unit);
            assert_eq!(u64::from_human_size(&spaced), Some(m * factor), "input {:?}", spaced);
        }
    }
}

#[test]
fn parse_overflow_fails() {
    // 2^64 / 1024 == 18014398509481984, so one more cannot fit.
    assert_eq!(u64::from_human_size("18014398509481984k"), None);
    assert_eq!(u64::from_human_size("18014398509481983k"), Some(18014398509481983 * 1024));
    // A digit run past 2^64 fails whatever the unit.
    assert_eq!(u64::from_human_size("99999999999999999999999k"), None);
}

#[test]
fn parse_tera() {
    assert_eq!(u64::from_human_size("2t"), Some(2199023255552));
}

#[test]
fn format_bytes() {
    assert_eq!(0u64.to_human_size(), "0 bytes");
    assert_eq!(1023u64.to_human_size(), "1023 bytes");
}

#[test]
fn format_kib() {
    assert_eq!(1024u64.to_human_size(), "1 KiB");
    assert_eq!(1048575u64.to_human_size(), "1023 KiB");
}

#[test]
fn format_mib() {
    assert_eq!(1048576u64.to_human_size(), "1 MiB");
}

#[test]
fn format_gib() {
    assert_eq!(1073741824u64.to_human_size(), "1 GiB");
    // Beyond GiB no further scaling: large counts stay in GiB.
    assert_eq!(2199023255552u64.to_human_size(), "2048 GiB");
}

#[test]
fn format_truncates() {
    assert_eq!(1536u64.to_human_size(), "1 KiB");
    assert_eq!(2047u64.to_human_size(), "1 KiB");
}
