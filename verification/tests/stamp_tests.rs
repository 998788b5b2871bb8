use simlogtail::stamp::{format_stamp, join_stamped, split_stamp, stamp_millis, stamp_seconds};

#[test]
fn split_a_stamped_line() {
    let p = split_stamp("INFO [1700000000123] started").unwrap();
    assert_eq!(p.before, "INFO ");
    assert_eq!(p.millis, 1700000000123);
    assert_eq!(p.tail, " started");
    let p = split_stamp("[-5]").unwrap();
    assert_eq!((p.before.as_str(), p.millis, p.tail.as_str()), ("", -5, ""));
}

#[test]
fn lines_without_a_timestamp() {
    assert!(split_stamp("no brackets").is_none());
    assert!(split_stamp("open [123 only").is_none());
    assert!(split_stamp("text [abc] more").is_none());
    assert!(split_stamp("[] empty").is_none());
    assert!(split_stamp("a ] [12").is_none());
    // only the first bracket pair counts
    assert!(split_stamp("[x] [123]").is_none());
    let p = split_stamp("a [1] [2]").unwrap();
    assert_eq!(p.millis, 1);
    assert_eq!(p.tail, " [2]");
}

#[test]
fn seconds_and_milliseconds() {
    assert_eq!(stamp_seconds(1700000000123, 0), 1700000000);
    assert_eq!(stamp_seconds(1700000000123, -420), 1700000000 - 25200);
    assert_eq!(stamp_seconds(-1500, 0), u64::MAX);
    assert_eq!(stamp_seconds(999, 1), 60);
    assert_eq!(stamp_millis(1700000000123), 123);
    assert_eq!(stamp_millis(-1500), -500);
    assert_eq!(stamp_millis(5), 5);
}

#[test]
fn stamp_text_format() {
    assert_eq!(format_stamp(2023, 11, 5, 9, 3, 7, 42), "11-05-2023 9:03:07.042");
    assert_eq!(format_stamp(1999, 1, 31, 23, 59, 59, 999), "1-31-1999 23:59:59.999");
    assert_eq!(format_stamp(2024, 2, 29, 0, 0, 0, -5), "2-29-2024 0:00:00.-05");
    let (m, d, y, h, mm, s, ms) = (3u64, 4u64, 2020u64, 10u64, 5u64, 6u64, 7i64);
    assert_eq!(format_stamp(y, m, d, h, mm, s, ms), format!("{m}-{d:02}-{y} {h}:{mm:02}:{s:02}.{ms:03}"));
}

#[test]
fn stamped_line_is_joined_with_spaces() {
    assert_eq!(join_stamped("INFO ", "STAMP", " started"), "INFO  STAMP  started");
    assert_eq!(join_stamped("", "", ""), "  ");
}

#[test]
fn stamped_line_rebuilds_from_its_parts() {
    for line in ["INFO [1700000000123] started", "x[-42]y", "[0]"].iter() {
        let p = split_stamp(line).unwrap();
        assert_eq!(format!("{}[{}]{}", p.before, p.millis, p.tail), *line);
        assert!(!p.before.contains('['));
    }
}
