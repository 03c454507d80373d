use torrenter::duration::format_duration;

#[test]
fn test_format_duration_unknown() {
    assert_eq!(format_duration(-1), "N/A");
    assert_eq!(format_duration(i64::MIN), "N/A");
}

#[test]
fn test_format_duration_seconds() {
    assert_eq!(format_duration(0), "0s");
    assert_eq!(format_duration(7), "7s");
    assert_eq!(format_duration(59), "59s");
}

#[test]
fn test_format_duration_minutes() {
    assert_eq!(format_duration(60), "1m");
    assert_eq!(format_duration(89), "1m");
    assert_eq!(format_duration(91), "2m");
    assert_eq!(format_duration(3599), "60m");
}

#[test]
fn test_format_duration_ties_round_to_even() {
    // a remainder of exactly half a unit rounds to the even neighbour
    assert_eq!(format_duration(90), "2m");
    assert_eq!(format_duration(150), "2m");
    assert_eq!(format_duration(270), "4m");
    assert_eq!(format_duration(9000), "2h");
    assert_eq!(format_duration(12600), "4h");
    assert_eq!(format_duration(216000), "2d");
    assert_eq!(format_duration(302400), "4d");
}

#[test]
fn test_format_duration_hours() {
    assert_eq!(format_duration(3600), "1h");
    assert_eq!(format_duration(3600 * 5 + 100), "5h");
    assert_eq!(format_duration(86399), "24h");
}

#[test]
fn test_format_duration_days() {
    assert_eq!(format_duration(86400), "1d");
    assert_eq!(format_duration(86400 * 2 + 10), "2d");
    assert_eq!(format_duration(i64::MAX), "106751991167301d");
}
