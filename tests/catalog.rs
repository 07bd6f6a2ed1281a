use timetrack::catalog::{
    activities_from_catalog, add, catalog_text, remove, resolve, start_entry, CatalogError,
};
use timetrack::entry::ActivityEntry;
use timetrack::listing::{collapsed_rows, expanded_rows};
use timetrack::text::LineError;
use timetrack::timestamp::Timestamp;
use timetrack::trackable::{Activity, ActivityCategory, ActivityLeaf, ParseActivityErr};

fn act(line: &str) -> Activity {
    Activity::from_str(line).unwrap()
}

fn catalog(lines: &[&str]) -> Vec<Activity> {
    let text = lines.join("\n");
    activities_from_catalog(Some(&text)).unwrap()
}

fn paths(list: &[Activity]) -> Vec<String> {
    list.iter().map(|a| a.full_path()).collect()
}

#[test]
fn parse_activity_line() {
    let a = act("Work/Docs/Write\tWBS-1\tWriting docs");
    assert_eq!(a.full_path(), "Work/Docs/Write");
    assert_eq!(a.leaf_name(), "Write");
    assert_eq!(a.wbs(), "WBS-1");
    assert_eq!(a.description(), Some("Writing docs"));
    assert_eq!(a.path_len(), 2);
    assert_eq!(a.segment(0), "Work");
    assert_eq!(a.leaf().name(), "Write");
    assert_eq!(a.leaf().wbs(), "WBS-1");
    assert_eq!(a.leaf().description(), Some("Writing docs"));
}

#[test]
fn empty_description_is_absent() {
    assert_eq!(act("Meet\tW2\t").description(), None);
    assert_eq!(act("Meet\tW2").description(), None);
}

#[test]
fn activity_line_errors() {
    assert!(matches!(Activity::from_str("Meet"), Err(ParseActivityErr::NoWbs)));
    assert!(matches!(Activity::from_str(""), Err(ParseActivityErr::NoWbs)));
    assert!(matches!(Activity::from_str("Work/\tW"), Err(ParseActivityErr::NoName)));
    assert!(matches!(Activity::from_str("\tW"), Err(ParseActivityErr::NoName)));
    assert_eq!(ParseActivityErr::NoName.message(), "path doesn't end in a name");
}

#[test]
fn activity_line_round_trip() {
    for line in ["Work/Docs/Write\tWBS-1\tWriting docs", "Meet\tW2\t", "a//b\t\t"] {
        assert_eq!(act(line).to_line(), line);
    }
}

#[test]
fn builtin_idle() {
    let idle = Activity::builtin_idle();
    assert_eq!(idle.full_path(), "Idle");
    assert_eq!(idle.wbs(), "Idle");
    assert_eq!(idle.description(), None);
}

#[test]
fn missing_catalog_holds_idle() {
    let list = activities_from_catalog(None).unwrap();
    assert_eq!(paths(&list), vec!["Idle"]);
}

#[test]
fn catalog_appends_idle() {
    let list = catalog(&["A\tW1\t", "B/C\tW2\tDesc"]);
    assert_eq!(paths(&list), vec!["A", "B/C", "Idle"]);
}

#[test]
fn catalog_reports_bad_line() {
    let err: LineError<ParseActivityErr> =
        activities_from_catalog(Some("A\tW1\nbad\n")).unwrap_err();
    assert_eq!(err.line, 2);
    assert_eq!(err.error, ParseActivityErr::NoWbs);
}

#[test]
fn catalog_text_leaves_out_idle() {
    let list = catalog(&["A\tW1\t", "B/C\tW2\tDesc"]);
    assert_eq!(catalog_text(&list), "A\tW1\t\nB/C\tW2\tDesc\n");
    let again = activities_from_catalog(Some(&catalog_text(&list))).unwrap();
    assert_eq!(paths(&again), paths(&list));
}

#[test]
fn add_twice_is_duplicate() {
    let mut list = catalog(&["A\tW1\t"]);
    assert_eq!(add(&mut list, act("B/C\tW2\t")), Ok(()));
    assert_eq!(paths(&list), vec!["A", "Idle", "B/C"]);
    assert_eq!(add(&mut list, act("B/C\tW3\t")), Err(CatalogError::Duplicate));
    assert_eq!(add(&mut list, act("Idle\tX\t")), Err(CatalogError::Duplicate));
    assert_eq!(list.len(), 3);
}

#[test]
fn resolve_exact_path() {
    let list = catalog(&["A\tW1\t", "B/C\tW2\tDesc"]);
    assert_eq!(resolve(&list, "B/C").unwrap().wbs(), "W2");
    assert_eq!(resolve(&list, "Idle").unwrap().wbs(), "Idle");
    assert!(matches!(resolve(&list, "C"), Err(CatalogError::NotFound)));
    assert!(matches!(resolve(&list, "B"), Err(CatalogError::NotFound)));
    assert!(matches!(resolve(&list, "b/c"), Err(CatalogError::NotFound)));
}

#[test]
fn remove_then_resolve_fails() {
    let mut list = catalog(&["A\tW1\t", "B/C\tW2\tDesc"]);
    assert_eq!(remove(&mut list, "B/C"), Ok(()));
    assert_eq!(paths(&list), vec!["A", "Idle"]);
    assert!(matches!(resolve(&list, "B/C"), Err(CatalogError::NotFound)));
    assert_eq!(remove(&mut list, "B/C"), Err(CatalogError::NotFound));
}

#[test]
fn idle_cannot_be_removed() {
    let mut list = catalog(&["A\tW1\t"]);
    assert_eq!(remove(&mut list, "Idle"), Err(CatalogError::Builtin));
    assert_eq!(list.len(), 2);
}

#[test]
fn start_entry_captures_catalog_fields() {
    let list = catalog(&["Work/Docs\tW7\tWriting"]);
    let now = Timestamp::parse("2024-05-06T09:00:00+02:00").unwrap();
    match start_entry(&list, "Work/Docs", "Office", now).unwrap() {
        ActivityEntry::Start(s) => {
            assert_eq!(s.activity_name, "Work/Docs");
            assert_eq!(s.wbs(), "W7");
            assert_eq!(s.description(), "Writing");
            assert_eq!(s.attendance(), "Office");
            assert_eq!(s.start, now);
        }
        ActivityEntry::End(_) => panic!("expected a start"),
    }
    assert!(matches!(start_entry(&list, "Nope", "Office", now), Err(CatalogError::NotFound)));
}

#[test]
fn tree_holds_every_activity() {
    let list = catalog(&["Work/Docs/Write\tW1\t", "Work/Meet\tW2\t", "Zed\tW3\t", "Alpha\tW4\t"]);
    let tree = ActivityCategory::from_activities(list);
    assert_eq!(tree.branches.len(), 1);
    assert_eq!(tree.leafs.len(), 3);
    let mut all = paths(&tree.as_activities());
    all.sort();
    assert_eq!(all, vec!["Alpha", "Idle", "Work/Docs/Write", "Work/Meet", "Zed"]);
}

#[test]
fn later_activity_replaces_earlier() {
    let list = vec![act("A/B\tOLD\t"), act("A/B\tNEW\t")];
    let all = ActivityCategory::from_activities(list).as_activities();
    assert_eq!(all.len(), 1);
    assert_eq!(all[0].wbs(), "NEW");
}

#[test]
fn sorted_by_full_path() {
    let list = catalog(&["b/x\tW1\t", "a\tW2\t", "b-c\tW3\t", "b/a/z\tW4\t"]);
    let sorted = ActivityCategory::from_activities(list).as_activities_sorted();
    assert_eq!(paths(&sorted), vec!["Idle", "a", "b-c", "b/a/z", "b/x"]);
}

#[test]
fn listing_rows() {
    let list = catalog(&["Work/Docs\tW1\tD1", "Zed\tW3\t", "Home/Cook\tW5\t"]);
    let expanded = expanded_rows(ActivityCategory::from_activities(list.clone()));
    let names: Vec<&str> = expanded.iter().map(|r| r.name.as_str()).collect();
    assert_eq!(names, vec!["Home/Cook", "Idle", "Work/Docs", "Zed"]);
    assert_eq!(expanded[2].wbs.as_deref(), Some("W1"));
    assert_eq!(expanded[2].description.as_deref(), Some("D1"));

    let tree = ActivityCategory::from_activities(list);
    let collapsed = collapsed_rows(&tree);
    let names: Vec<&str> = collapsed.iter().map(|r| r.name.as_str()).collect();
    assert_eq!(names, vec!["Home/", "Work/", "Idle", "Zed"]);
    assert_eq!(collapsed[0].wbs, None);
    assert_eq!(collapsed[0].description, None);
    assert_eq!(collapsed[3].wbs.as_deref(), Some("W3"));
}

#[test]
fn leaf_constructor() {
    let leaf = ActivityLeaf::new("Run".to_string(), "W".to_string(), None);
    let a = Activity::new(vec!["Sport".to_string()], leaf);
    assert_eq!(a.full_path(), "Sport/Run");
    assert_eq!(a.to_line(), "Sport/Run\tW\t");
}

#[test]
fn leaf_as_top_level_activity() {
    let leaf = ActivityLeaf::new("Lunch".to_string(), "B".to_string(), Some("Break".to_string()));
    let a = Activity::from_leaf(leaf);
    assert_eq!(a.full_path(), "Lunch");
    assert_eq!(a.path_len(), 0);
    assert_eq!(a.to_line(), "Lunch\tB\tBreak");
}

#[test]
fn activity_from_parts() {
    let a = Activity::from_parts("Work/Docs", "W1", Some("Writing")).unwrap();
    assert_eq!(a.full_path(), "Work/Docs");
    assert_eq!(a.to_line(), "Work/Docs\tW1\tWriting");
    assert_eq!(Activity::from_parts("Meet", "W2", Some("")).unwrap().description(), None);
    assert_eq!(Activity::from_parts("Meet", "W2", None).unwrap().to_line(), "Meet\tW2\t");
    assert!(matches!(Activity::from_parts("Work/", "W", None), Err(ParseActivityErr::NoName)));
    assert!(matches!(
        Activity::from_parts("Work/Docs", "W\t1", None),
        Err(ParseActivityErr::BadText)
    ));
    assert!(matches!(
        Activity::from_parts("A", "W", Some("two\nlines")),
        Err(ParseActivityErr::BadText)
    ));
    assert!(matches!(Activity::from_parts("A\tB", "W", None), Err(ParseActivityErr::BadText)));
}

#[test]
fn every_branch_holds_an_activity() {
    let tree = ActivityCategory::from_activities(Vec::new());
    assert!(tree.branches.is_empty());
    assert!(tree.leafs.is_empty());
    let tree = ActivityCategory::from_activities(vec![act("A/B/C\tW\t")]);
    assert_eq!(tree.branches.len(), 1);
    assert_eq!(tree.branches[0].0, "A");
    assert_eq!(tree.branches[0].1.branches[0].0, "B");
    assert_eq!(tree.branches[0].1.branches[0].1.leafs.len(), 1);
}
