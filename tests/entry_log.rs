use timetrack::entry::{entries_from_log, ActivityEntry, ActivityStart, ParseEntryError};
use timetrack::timestamp::{Timestamp, TimestampError};

fn ts(s: &str) -> Timestamp {
    Timestamp::parse(s).unwrap()
}

fn start(at: &str, name: &str, attendance: &str, wbs: &str, description: &str) -> ActivityEntry {
    ActivityEntry::Start(ActivityStart {
        start: ts(at),
        activity_name: name.to_string(),
        attendance_type: attendance.to_string(),
        description: description.to_string(),
        wbs: wbs.to_string(),
    })
}

#[test]
fn timestamp_reads_rfc3339_parts() {
    let t = ts("2024-05-06T09:00:00+02:00");
    assert_eq!(t.secs, 1_714_978_800);
    assert_eq!(t.nanos, 0);
    assert_eq!(t.offset, 7200);
    assert_eq!(t.local_day(), 19_849);
    assert_eq!(t.instant_nanos(), 1_714_978_800_000_000_000);
}

#[test]
fn timestamp_writes_rfc3339() {
    let t = Timestamp { secs: 1_714_978_800, nanos: 500_000_000, offset: 7200 };
    assert_eq!(t.format(), "2024-05-06T09:00:00.500+02:00");
    assert_eq!(Timestamp::parse(&t.format()).unwrap(), t);
}

#[test]
fn timestamp_accepts_space_separator() {
    let t = ts("2024-05-06 09:00:00 +02:00");
    assert_eq!(t, ts("2024-05-06T09:00:00+02:00"));
}

#[test]
fn timestamp_local_day_before_epoch() {
    let t = Timestamp { secs: -1, nanos: 0, offset: 0 };
    assert_eq!(t.local_day(), -1);
    let t = Timestamp { secs: 86_399, nanos: 0, offset: 60 };
    assert_eq!(t.local_day(), 1);
}

#[test]
fn timestamp_rejects_garbage() {
    assert!(matches!(Timestamp::parse("yesterday"), Err(TimestampError::Unreadable(_))));
}

#[test]
fn timestamp_rejects_leap_second() {
    assert!(matches!(
        Timestamp::parse("2016-12-31T23:59:60+00:00"),
        Err(TimestampError::Unsupported)
    ));
}

#[test]
fn parse_start_line() {
    let e = ActivityEntry::from_str("2024-05-06T09:00:00+02:00\tWritingDocs\tOffice\tCC1\tDraft")
        .unwrap();
    match e {
        ActivityEntry::Start(s) => {
            assert_eq!(s.start, ts("2024-05-06T09:00:00+02:00"));
            assert_eq!(s.activity_name, "WritingDocs");
            assert_eq!(s.attendance(), "Office");
            assert_eq!(s.wbs(), "CC1");
            assert_eq!(s.description(), "Draft");
        }
        ActivityEntry::End(_) => panic!("expected a start"),
    }
}

#[test]
fn parse_start_line_without_description() {
    let e = ActivityEntry::from_str("2024-05-06T09:00:00+02:00\tA\tRemote\tW1").unwrap();
    match e {
        ActivityEntry::Start(s) => assert_eq!(s.description(), ""),
        ActivityEntry::End(_) => panic!("expected a start"),
    }
}

#[test]
fn parse_end_line_ignores_rest() {
    let e = ActivityEntry::from_str("2024-05-06T10:00:00+02:00\t__END\tleft\tover").unwrap();
    match e {
        ActivityEntry::End(t) => assert_eq!(t, ts("2024-05-06T10:00:00+02:00")),
        ActivityEntry::Start(_) => panic!("expected an end"),
    }
}

#[test]
fn parse_errors() {
    assert!(matches!(
        ActivityEntry::from_str("2024-05-06T10:00:00+02:00"),
        Err(ParseEntryError::MissingName)
    ));
    assert!(matches!(ActivityEntry::from_str(""), Err(ParseEntryError::MissingName)));
    assert!(matches!(
        ActivityEntry::from_str("nonsense\tA\tOffice\tW"),
        Err(ParseEntryError::ParseDatetime(TimestampError::Unreadable(_)))
    ));
    assert!(matches!(
        ActivityEntry::from_str("2024-05-06T10:00:00+02:00\tA"),
        Err(ParseEntryError::MissingAttendance)
    ));
    assert!(matches!(
        ActivityEntry::from_str("2024-05-06T10:00:00+02:00\tA\tOffice"),
        Err(ParseEntryError::MissingWbs)
    ));
}

#[test]
fn error_messages() {
    assert_eq!(ParseEntryError::MissingWbs.message(), "missing wbs");
    assert_eq!(ParseEntryError::MissingTime.message(), "missing time stamp");
}

#[test]
fn format_lines() {
    let e = start("2024-05-06T09:00:00+02:00", "Docs/Write", "Office", "CC1", "");
    assert_eq!(e.to_line(), "2024-05-06T09:00:00+02:00\tDocs/Write\tOffice\tCC1\t");
    let end = ActivityEntry::End(ts("2024-05-06T10:00:00+02:00"));
    assert_eq!(end.to_line(), "2024-05-06T10:00:00+02:00\t__END");
}

#[test]
fn line_round_trip() {
    let entries = vec![
        start("2024-05-06T09:00:00.123+02:00", "A/B", "Office", "CC1", "Draft"),
        start("2024-05-06T09:00:00-05:30", "", "", "", ""),
        ActivityEntry::End(ts("1999-12-31T23:59:59Z")),
    ];
    for e in entries {
        let back = ActivityEntry::from_str(&e.to_line()).unwrap();
        assert_eq!(back.to_line(), e.to_line());
        assert_eq!(back.time_stamp(), e.time_stamp());
    }
}

#[test]
fn missing_log_is_empty() {
    let entries = entries_from_log(None).unwrap();
    assert!(entries.is_empty());
}

#[test]
fn empty_log_is_empty() {
    assert!(entries_from_log(Some("")).unwrap().is_empty());
}

#[test]
fn log_reads_lines_in_order() {
    let text = "2024-05-06T09:00:00+02:00\tA\tOffice\tW\tD\r\n2024-05-06T10:00:00+02:00\t__END\n";
    let entries = entries_from_log(Some(text)).unwrap();
    assert_eq!(entries.len(), 2);
    assert!(matches!(entries[0], ActivityEntry::Start(_)));
    match &entries[0] {
        ActivityEntry::Start(s) => assert_eq!(s.description(), "D"),
        ActivityEntry::End(_) => panic!("expected a start"),
    }
    assert!(matches!(entries[1], ActivityEntry::End(_)));
}

#[test]
fn log_reports_first_bad_line() {
    let text = "2024-05-06T09:00:00+02:00\t__END\nbroken\n2024-05-06T09:00:00+02:00\tA\n";
    let err = entries_from_log(Some(text)).unwrap_err();
    assert_eq!(err.line, 2);
    assert!(matches!(err.error, ParseEntryError::MissingName));
}

#[test]
fn timestamp_round_trip_at_range_edges() {
    let edges = [
        Timestamp { secs: -62_167_219_200 - 86_340, nanos: 0, offset: 86_340 },
        Timestamp { secs: 253_402_300_799 + 86_340, nanos: 999_999_999, offset: -86_340 },
        Timestamp { secs: 0, nanos: 1, offset: -1_800 },
        Timestamp { secs: 1_714_978_800, nanos: 120_000, offset: 0 },
    ];
    for t in edges {
        assert!(t.is_valid());
        assert_eq!(Timestamp::parse(&t.format()).unwrap(), t);
    }
    assert!(!Timestamp { secs: 0, nanos: 0, offset: 30 }.is_valid());
    assert!(!Timestamp { secs: 0, nanos: 1_000_000_000, offset: 0 }.is_valid());
    assert!(!Timestamp { secs: 253_402_300_800, nanos: 0, offset: 0 }.is_valid());
}
