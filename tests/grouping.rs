use timetrack::entry::{entries_from_log, ActivityEntry};
use timetrack::grouping::group_activities;
use timetrack::timestamp::Timestamp;

const MINUTE: i128 = 60_000_000_000;

fn ts(s: &str) -> Timestamp {
    Timestamp::parse(s).unwrap()
}

fn log(lines: &[&str]) -> Vec<ActivityEntry> {
    entries_from_log(Some(&lines.join("\n"))).unwrap()
}

fn scenario() -> Vec<ActivityEntry> {
    log(&[
        "2024-05-06T09:00:00+02:00\tWritingDocs\tOffice\tCC1\tDraft",
        "2024-05-06T09:30:00+02:00\tWritingDocs\tOffice\tCC1\tDraft",
        "2024-05-06T10:00:00+02:00\t__END",
    ])
}

#[test]
fn two_intervals_merge_into_one_row() {
    let rows = group_activities(
        &scenario(),
        &ts("2024-05-06T09:00:00+02:00"),
        &ts("2024-05-06T11:00:00+02:00"),
    );
    assert_eq!(rows.len(), 1);
    assert_eq!(rows[0].duration, 60 * MINUTE);
    assert_eq!(rows[0].wbs, "CC1");
    assert_eq!(rows[0].attendance_type, "Office");
    assert_eq!(rows[0].description, "Draft");
    assert_eq!(rows[0].start_of_first, ts("2024-05-06T09:00:00+02:00"));
    assert_eq!(rows[0].start_of_first.local_day(), 19_849);
}

#[test]
fn open_tail_is_not_counted() {
    let rows = group_activities(
        &scenario(),
        &ts("2024-05-06T09:00:00+02:00"),
        &ts("2024-05-06T09:45:00+02:00"),
    );
    assert_eq!(rows.len(), 1);
    assert_eq!(rows[0].duration, 30 * MINUTE);
}

#[test]
fn empty_input_and_empty_window() {
    let none: Vec<ActivityEntry> = Vec::new();
    let from = ts("2024-05-06T09:00:00+02:00");
    let to = ts("2024-05-06T11:00:00+02:00");
    assert!(group_activities(&none, &from, &to).is_empty());
    assert!(group_activities(&scenario(), &to, &from).is_empty());
    assert!(group_activities(&scenario(), &from, &from).is_empty());
}

#[test]
fn interrupted_work_on_one_day_merges() {
    let events = log(&[
        "2024-05-06T08:00:00+02:00\tA\tOffice\tW1\tX",
        "2024-05-06T09:00:00+02:00\tB\tOffice\tW2\tY",
        "2024-05-06T09:15:00+02:00\tA\tOffice\tW1\tX",
        "2024-05-06T09:45:00+02:00\t__END",
    ]);
    let rows = group_activities(
        &events,
        &ts("2024-05-06T00:00:00+02:00"),
        &ts("2024-05-07T00:00:00+02:00"),
    );
    assert_eq!(rows.len(), 2);
    assert_eq!(rows[0].wbs, "W1");
    assert_eq!(rows[0].duration, 90 * MINUTE);
    assert_eq!(rows[1].wbs, "W2");
    assert_eq!(rows[1].duration, 15 * MINUTE);
}

#[test]
fn different_days_and_attendance_split_rows() {
    let events = log(&[
        "2024-05-06T23:00:00+02:00\tA\tOffice\tW1\tX",
        "2024-05-07T01:00:00+02:00\tA\tOffice\tW1\tX",
        "2024-05-07T02:00:00+02:00\tA\tRemote\tW1\tX",
        "2024-05-07T03:00:00+02:00\t__END",
    ]);
    let rows = group_activities(
        &events,
        &ts("2024-05-06T00:00:00+02:00"),
        &ts("2024-05-08T00:00:00+02:00"),
    );
    assert_eq!(rows.len(), 3);
    assert_eq!(rows[0].duration, 120 * MINUTE);
    assert_eq!(rows[0].start_of_first, ts("2024-05-06T23:00:00+02:00"));
    assert_eq!(rows[1].duration, 60 * MINUTE);
    assert_eq!(rows[1].attendance_type, "Office");
    assert_eq!(rows[2].attendance_type, "Remote");
}

#[test]
fn events_outside_window_add_nothing() {
    let inside = log(&[
        "2024-05-06T09:00:00+02:00\tA\tOffice\tW1\tX",
        "2024-05-06T09:20:00+02:00\t__END",
    ]);
    let all = log(&[
        "2024-05-06T07:00:00+02:00\tB\tOffice\tW9\tZ",
        "2024-05-06T08:59:00+02:00\tB\tOffice\tW9\tZ",
        "2024-05-06T09:00:00+02:00\tA\tOffice\tW1\tX",
        "2024-05-06T09:20:00+02:00\t__END",
        "2024-05-06T12:00:00+02:00\tC\tOffice\tW8\tZ",
        "2024-05-06T13:00:00+02:00\t__END",
    ]);
    let from = ts("2024-05-06T09:00:00+02:00");
    let to = ts("2024-05-06T12:00:00+02:00");
    let a = group_activities(&all, &from, &to);
    let b = group_activities(&inside, &from, &to);
    assert_eq!(a.len(), 1);
    assert_eq!(b.len(), 1);
    assert_eq!(a[0].duration, 20 * MINUTE);
    assert_eq!(a[0].duration, b[0].duration);
    assert_eq!(a[0].wbs, b[0].wbs);
}

#[test]
fn repeated_calls_agree() {
    let from = ts("2024-05-06T09:00:00+02:00");
    let to = ts("2024-05-06T11:00:00+02:00");
    let a = group_activities(&scenario(), &from, &to);
    let b = group_activities(&scenario(), &from, &to);
    assert_eq!(a.len(), b.len());
    for (x, y) in a.iter().zip(b.iter()) {
        assert_eq!(x.duration, y.duration);
        assert_eq!(x.start_of_first, y.start_of_first);
        assert_eq!(x.wbs, y.wbs);
    }
}

#[test]
fn rows_are_ordered_by_first_start() {
    let events = log(&[
        "2024-05-06T10:00:00+02:00\tA\tOffice\tLATE\tX",
        "2024-05-06T10:30:00+02:00\t__END",
        "2024-05-06T08:00:00+02:00\tB\tOffice\tEARLY\tX",
        "2024-05-06T09:00:00+02:00\t__END",
    ]);
    let rows = group_activities(
        &events,
        &ts("2024-05-06T00:00:00+02:00"),
        &ts("2024-05-07T00:00:00+02:00"),
    );
    assert_eq!(rows.len(), 2);
    assert_eq!(rows[0].wbs, "EARLY");
    assert_eq!(rows[0].duration, 60 * MINUTE);
    assert_eq!(rows[1].wbs, "LATE");
}

#[test]
fn sub_second_durations_are_exact() {
    let events = log(&[
        "2024-05-06T09:00:00.250+02:00\tA\tOffice\tW\tX",
        "2024-05-06T09:00:01.000+02:00\t__END",
    ]);
    let rows = group_activities(
        &events,
        &ts("2024-05-06T00:00:00+02:00"),
        &ts("2024-05-07T00:00:00+02:00"),
    );
    assert_eq!(rows[0].duration, 750_000_000);
}
