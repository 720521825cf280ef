use fs_sync::local::format_host_string;

#[test]
fn format_host_string_correctly() {
    let host = "random.host".to_owned();
    let formatted_result = format_host_string(&host, 22);
    assert_eq!(formatted_result, "random.host:22")
}

#[test]
fn format_host_string_with_other_ports() {
    assert_eq!(format_host_string("h", 42), "h:42");
    assert_eq!(format_host_string("h", 0), "h:0");
    assert_eq!(format_host_string("h", 65535), "h:65535");
    assert_eq!(format_host_string("h", -7), "h:-7");
    assert_eq!(format_host_string("", 10), ":10");
    assert_eq!(
        format_host_string("h", i64::MIN),
        "h:-9223372036854775808"
    );
    assert_eq!(format_host_string("h", i64::MAX), "h:9223372036854775807");
}
