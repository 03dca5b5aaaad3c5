use datavalue::datetime::{DataDateTime, DataDuration};

#[test]
fn parse_iso_z_fast_path() {
    let d = DataDateTime::parse("2024-01-15T12:30:45Z").unwrap();
    assert_eq!(d.original_offset(), Some(0));
    assert_eq!(d.to_iso_string(), "2024-01-15T12:30:45Z");
}

#[test]
fn parse_rfc3339_with_offset_preserves_offset() {
    let d = DataDateTime::parse("2024-01-15T12:30:45+05:30").unwrap();
    assert_eq!(d.original_offset(), Some(5 * 3600 + 30 * 60));
    assert_eq!(d.format("z"), "+0530");
}

#[test]
fn parse_naive_assumes_utc() {
    let d = DataDateTime::parse("2024-01-15T12:30:45").unwrap();
    assert_eq!(d.original_offset(), None);
    assert_eq!(d.format("z"), "+0000");
}

#[test]
fn duration_parse_colon_form() {
    let d = DataDuration::parse("1d:2h:3m:4s").unwrap();
    assert_eq!(d.num_seconds(), 86_400 + 7_200 + 180 + 4);
}

#[test]
fn duration_parse_compact_form() {
    let d = DataDuration::parse("1d2h30m").unwrap();
    assert_eq!(d.num_seconds(), 86_400 + 7_200 + 1_800);
}

#[test]
fn duration_display_round_trips_through_parse() {
    let d = DataDuration::parse("3d:5h:7m:11s").unwrap();
    assert_eq!(d.to_string(), "3d:5h:7m:11s");
    let r = DataDuration::parse(&d.to_string()).unwrap();
    assert_eq!(d, r);
}

#[test]
fn datetime_arith() {
    let a = DataDateTime::parse("2024-01-15T00:00:00Z").unwrap();
    let dur = DataDuration::parse("1d").unwrap();
    let b = a.add_duration(&dur);
    assert_eq!(b.to_iso_string(), "2024-01-16T00:00:00Z");
    assert_eq!(b.sub_duration(&dur), a);
}

#[test]
fn datetime_eq_compares_instants() {
    let a = DataDateTime::parse("2024-01-15T12:00:00Z").unwrap();
    let b = DataDateTime::parse("2024-01-15T17:30:00+05:30").unwrap();
    assert_eq!(a, b);
}

#[test]
fn duration_parse_edge_cases() {
    assert_eq!(DataDuration::parse("45s").unwrap().num_seconds(), 45);
    assert_eq!(DataDuration::parse("-1d:2h").unwrap().num_seconds(), -86_400 + 7_200);
    assert_eq!(DataDuration::parse("1d2").unwrap().num_seconds(), 86_400);
    assert_eq!(DataDuration::parse("0s").unwrap().num_seconds(), 0);
    assert!(DataDuration::parse("12").is_none());
    assert!(DataDuration::parse("").is_none());
    assert!(DataDuration::parse("1x").is_none());
    assert!(DataDuration::parse("-1d").is_none());
    assert!(DataDuration::parse("xd:1h").is_none());
    let max = DataDuration::parse("9223372036854775807s").unwrap();
    assert_eq!(max.num_seconds(), i64::MAX / 1000);
    let min = DataDuration::parse("-9223372036854775807s:0h").unwrap();
    assert_eq!(min.num_seconds(), -(i64::MAX / 1000));
    assert!(DataDuration::parse("9223372036854775807d").is_none());
}

#[test]
fn duration_text_and_arithmetic() {
    let d = DataDuration::parse("1d:2h").unwrap();
    assert_eq!(d.to_string(), "1d:2h:0m:0s");
    let neg = DataDuration::parse("-1h:-1s").unwrap();
    assert_eq!(neg.to_string(), "0d:-1h:0m:-1s");
    assert_eq!(d.add(&neg).num_seconds(), 93_600 - 3_601);
    assert_eq!(d.sub(&neg).num_seconds(), 93_600 + 3_601);
    let max = DataDuration::try_seconds(i64::MAX / 1000).unwrap();
    assert_eq!(max.add(&d).num_seconds(), i64::MAX / 1000);
    assert!(max.checked_add(&d).is_none());
    assert_eq!(max.checked_sub(&d).unwrap().num_seconds(), i64::MAX / 1000 - 93_600);
    assert!(DataDuration::try_seconds(i64::MAX).is_none());
    let r = DataDuration::parse(&neg.to_string()).unwrap();
    assert_eq!(r, neg);
}

#[test]
fn datetime_parsing_variants() {
    let d = DataDateTime::parse("2024-02-29T23:59:60Z");
    assert!(d.is_none() || d.unwrap().timestamp() > 0);
    assert!(DataDateTime::parse("2023-02-29T00:00:00Z").is_none());
    assert!(DataDateTime::parse("not a date").is_none());
    let frac = DataDateTime::parse("2024-01-15T12:30:45.250Z").unwrap();
    assert_eq!(frac.timestamp_subsec_nanos(), 250_000_000);
    assert_eq!(frac.original_offset(), Some(0));
    let west = DataDateTime::parse("2024-01-15T12:30:45-08:00").unwrap();
    assert_eq!(west.original_offset(), Some(-8 * 3600));
    assert_eq!(west.format_offset(), "-0800");
    assert_eq!(west.to_iso_string(), "2024-01-15T20:30:45Z");
    let epoch = DataDateTime::parse("1970-01-01T00:00:00Z").unwrap();
    assert_eq!(epoch.timestamp(), 0);
    assert_eq!(DataDateTime::parse("2024-01-15T12:30:45Z").unwrap().timestamp(), 1_705_321_845);
}

#[test]
fn datetime_with_format_and_diff() {
    let a = DataDateTime::parse_with_format("2024-01-15 12:30", "%Y-%m-%d %H:%M").unwrap();
    assert_eq!(a.to_iso_string(), "2024-01-15T12:30:00Z");
    assert_eq!(a.original_offset(), None);
    let b = DataDateTime::parse_with_format("15/01/2024", "%d/%m/%Y").unwrap();
    assert_eq!(b.to_iso_string(), "2024-01-15T00:00:00Z");
    assert!(DataDateTime::parse_with_format("2024-01-15", "%H:%M").is_none());
    assert_eq!(a.diff(&b).num_seconds(), 12 * 3600 + 30 * 60);
    assert_eq!(b.diff(&a).num_seconds(), -(12 * 3600 + 30 * 60));
    let later = b.add_duration(&a.diff(&b));
    assert_eq!(later, a);
}

#[test]
fn datetime_far_years_use_rfc3339() {
    let d = DataDateTime::parse("9999-12-31T23:59:59Z").unwrap();
    let one = DataDuration::parse("1s").unwrap();
    let next = d.add_duration(&one);
    assert_eq!(next.to_iso_string(), "+10000-01-01T00:00:00Z");
}

#[test]
fn datetimes_order_by_instant() {
    let a = DataDateTime::parse("2024-01-15T12:00:00Z").unwrap();
    let b = DataDateTime::parse("2024-01-15T17:30:00+05:30").unwrap();
    let c = DataDateTime::parse("2024-01-15T12:00:00.5Z").unwrap();
    assert_eq!(a.partial_cmp(&b), Some(std::cmp::Ordering::Equal));
    assert!(a < c);
    assert!(c > b);
    let d1 = DataDuration::parse("1h").unwrap();
    let d2 = DataDuration::parse("61m").unwrap();
    assert!(d1 < d2);
}

#[test]
fn datetime_arithmetic_saturates() {
    let a = DataDateTime::parse("2024-01-15T00:00:00Z").unwrap();
    let max = DataDuration::span_max();
    let min = DataDuration::span_min();
    let late = a.add_duration(&max);
    assert_eq!(late.to_iso_string(), "+262142-12-31T23:59:59Z");
    let early = a.sub_duration(&max);
    assert_eq!(early.to_iso_string(), "-262143-01-01T00:00:00Z");
    assert_eq!(a.add_duration(&min), early);
    assert_eq!(late.original_offset(), Some(0));
}

#[test]
fn chrono_formats_and_unknown_specifiers() {
    let d = DataDateTime::parse("2024-01-15T12:30:45+05:30").unwrap();
    assert_eq!(d.format("%Y/%m/%d %H:%M"), "2024/01/15 07:00");
    assert_eq!(d.format("%Z"), "UTC");
    assert_eq!(d.format_offset(), "+0530");
    assert_eq!(d.try_format("z"), Some(String::from("+0530")));
    assert_eq!(d.try_format("%d"), Some(String::from("15")));
    assert_eq!(d.try_format("%Q"), None);
    let n = DataDateTime::parse("2024-01-15T12:30:45-00:30").unwrap();
    assert_eq!(n.format("z"), "-0030");
}

#[test]
fn sub_duration_undoes_add_duration() {
    let a = DataDateTime::parse("2024-02-28T23:59:59.250+01:00").unwrap();
    for text in ["1d", "-3h:15m", "90s", "400d:5h"] {
        let d = DataDuration::parse(text).unwrap();
        let b = a.add_duration(&d);
        let back = b.sub_duration(&d);
        assert_eq!(back, a);
        assert_eq!(back.original_offset(), a.original_offset());
        assert_eq!(back.to_iso_string(), a.to_iso_string());
        let c = a.sub_duration(&d);
        assert_eq!(c.add_duration(&d), a);
    }
}
