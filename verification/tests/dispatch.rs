use structure_sync::dispatch::{
    change_events, classify, plan, react, ChangeEvent, ChangeKind, Delivery, Modification,
    RawEvent, RawKind, Reaction, EXIT_FAILURE, EXIT_GRACEFUL,
};
use structure_sync::watch::{PathStatus, Probe, WatchRegistry};

fn watched(paths: &[&str]) -> WatchRegistry {
    let probes: Vec<Probe> = paths
        .iter()
        .map(|path| Probe { path: path.to_string(), status: PathStatus::Watched })
        .collect();
    WatchRegistry::initialize(&probes).ok().unwrap()
}

fn modified(path: &str) -> ChangeEvent {
    ChangeEvent { path: path.to_string(), kind: ChangeKind::Modified }
}

fn other(path: &str) -> ChangeEvent {
    ChangeEvent { path: path.to_string(), kind: ChangeKind::Other }
}

fn raw(kind: RawKind, paths: &[&str]) -> RawEvent {
    RawEvent { kind, paths: paths.iter().map(|path| path.to_string()).collect() }
}

#[test]
fn only_a_change_of_content_counts_as_a_modification() {
    assert_eq!(classify(RawKind::Modify(Modification::Content)), ChangeKind::Modified);
    assert_eq!(classify(RawKind::Modify(Modification::Unspecified)), ChangeKind::Modified);
    assert_eq!(classify(RawKind::Modify(Modification::Other)), ChangeKind::Modified);
    assert_eq!(classify(RawKind::Modify(Modification::Metadata)), ChangeKind::Other);
    assert_eq!(classify(RawKind::Modify(Modification::Name)), ChangeKind::Other);
    assert_eq!(classify(RawKind::Create), ChangeKind::Other);
    assert_eq!(classify(RawKind::Remove), ChangeKind::Other);
    assert_eq!(classify(RawKind::Access), ChangeKind::Other);
    assert_eq!(classify(RawKind::Unspecified), ChangeKind::Other);
    assert_eq!(classify(RawKind::Other), ChangeKind::Other);
}

#[test]
fn a_raw_event_gives_one_change_event_for_each_path() {
    let events = change_events(&raw(RawKind::Modify(Modification::Content), &["a.txt", "b.txt"]));
    assert_eq!(events.len(), 2);
    assert_eq!(events[0].path, "a.txt");
    assert_eq!(events[0].kind, ChangeKind::Modified);
    assert_eq!(events[1].path, "b.txt");
    assert_eq!(events[1].kind, ChangeKind::Modified);
    let events = change_events(&raw(RawKind::Remove, &["a.txt"]));
    assert_eq!(events.len(), 1);
    assert_eq!(events[0].path, "a.txt");
    assert_eq!(events[0].kind, ChangeKind::Other);
    assert!(change_events(&raw(RawKind::Modify(Modification::Content), &[])).is_empty());
}

#[test]
fn files_that_change_together_are_planned_in_the_order_of_delivery() {
    let registry = watched(&["a.txt", "b.txt"]);
    assert_eq!(plan(&registry, &vec![modified("a.txt"), modified("b.txt")]), vec![0, 1]);
    assert_eq!(plan(&registry, &vec![modified("b.txt"), modified("a.txt")]), vec![1, 0]);
}

#[test]
fn a_file_is_planned_once_however_often_it_is_named() {
    let registry = watched(&["a.txt", "b.txt", "c.txt"]);
    let batch = vec![
        modified("c.txt"),
        modified("a.txt"),
        modified("c.txt"),
        modified("a.txt"),
        modified("b.txt"),
        modified("c.txt"),
    ];
    assert_eq!(plan(&registry, &batch), vec![2, 0, 1]);
}

#[test]
fn events_of_other_kinds_are_discarded() {
    let registry = watched(&["a.txt", "b.txt"]);
    assert_eq!(plan(&registry, &vec![other("a.txt"), modified("b.txt")]), vec![1]);
    assert_eq!(plan(&registry, &vec![other("a.txt"), other("b.txt")]), Vec::<usize>::new());
    assert_eq!(plan(&registry, &vec![other("a.txt"), modified("a.txt")]), vec![0]);
}

#[test]
fn paths_that_are_not_watched_are_ignored() {
    let registry = watched(&["a.txt", "b.txt"]);
    assert_eq!(plan(&registry, &vec![modified("z.txt"), modified("b.txt")]), vec![1]);
    assert_eq!(plan(&registry, &vec![modified("dir/a.txt")]), Vec::<usize>::new());
    assert_eq!(plan(&registry, &Vec::new()), Vec::<usize>::new());
}

#[test]
fn a_notification_is_answered_by_its_plan() {
    let registry = watched(&["a.txt", "b.txt"]);
    let delivery = Delivery::Notification(raw(
        RawKind::Modify(Modification::Content),
        &["b.txt", "elsewhere.txt", "a.txt", "b.txt"],
    ));
    assert_eq!(react(&registry, &delivery), Reaction::Synchronize(vec![1, 0]));
}

#[test]
fn a_notification_of_another_kind_asks_for_nothing() {
    let registry = watched(&["a.txt", "b.txt"]);
    for kind in [
        RawKind::Create,
        RawKind::Remove,
        RawKind::Access,
        RawKind::Other,
        RawKind::Unspecified,
        RawKind::Modify(Modification::Metadata),
        RawKind::Modify(Modification::Name),
    ] {
        let delivery = Delivery::Notification(raw(kind, &["a.txt", "b.txt"]));
        assert_eq!(react(&registry, &delivery), Reaction::Synchronize(Vec::new()));
    }
}

#[test]
fn a_fault_is_survived() {
    let registry = watched(&["a.txt"]);
    assert_eq!(react(&registry, &Delivery::Fault), Reaction::Synchronize(Vec::new()));
}

#[test]
fn a_request_to_end_gives_a_graceful_exit() {
    let registry = watched(&["a.txt"]);
    assert_eq!(react(&registry, &Delivery::Shutdown), Reaction::Exit(0));
    assert_eq!(EXIT_GRACEFUL, 0);
}

#[test]
fn a_closed_channel_gives_a_failure_exit() {
    let registry = watched(&["a.txt"]);
    assert_eq!(react(&registry, &Delivery::Closed), Reaction::Exit(1));
    assert_eq!(EXIT_FAILURE, 1);
    assert_ne!(EXIT_FAILURE, 0);
}
