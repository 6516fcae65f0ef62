use daybook::util::format_time;

#[test]
fn format_time_pads_minutes_and_seconds() {
    assert_eq!(format_time(0), "0:00:00");
    assert_eq!(format_time(59), "0:00:59");
    assert_eq!(format_time(3661), "1:01:01");
    assert_eq!(format_time(43200), "12:00:00");
    assert_eq!(format_time(360000 + 59 * 60 + 7), "100:59:07");
}

#[test]
fn format_time_of_the_largest_duration() {
    assert_eq!(format_time(u64::MAX), "5124095576030431:00:15");
}
