use daybook::clock::local_time;

#[test]
fn local_time_is_written_in_the_chicago_zone() {
    assert_eq!(local_time(1672552800).as_deref(), Some("2023-01-01 00:00:00 CST"));
    assert_eq!(local_time(0).as_deref(), Some("1969-12-31 18:00:00 CST"));
    assert_eq!(local_time(1688187600).as_deref(), Some("2023-07-01 00:00:00 CDT"));
}

#[test]
fn local_time_out_of_range_is_none() {
    assert_eq!(local_time(u64::MAX), None);
    assert_eq!(local_time(i64::MAX as u64), None);
    assert_eq!(local_time(i64::MAX as u64 + 1), None);
}
