use simlogtail::clock::{year_from_elapsed, year_from_secs, year_now};

#[test]
fn years_from_seconds() {
    assert_eq!(year_from_secs(0), 1970);
    assert_eq!(year_from_secs(31556951), 1970);
    assert_eq!(year_from_secs(31556952), 1971);
    assert_eq!(year_from_secs(1700000000), 2023);
    assert_eq!(year_from_secs(u64::MAX), u64::MAX / 31556952 + 1970);
}

#[test]
fn current_year_is_recent() {
    let y = year_now();
    assert!(y >= 2024 && y < 3000);
}

#[test]
fn years_from_clock_readings() {
    assert_eq!(year_from_elapsed(None), 1970);
    assert_eq!(year_from_elapsed(Some(1688169600)), 2023); // 2023-07-01T00:00:00Z
    assert_eq!(year_from_elapsed(Some(4102444800 - 172801)), 2099);
    // within two days of a new year the count of mean years can be off by one
    assert_eq!(year_from_secs(1704067200), 2023); // 2024-01-01T00:00:00Z
}
