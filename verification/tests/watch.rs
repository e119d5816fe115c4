use structure_sync::error::SyncError;
use structure_sync::watch::{PathStatus, Probe, WatchRegistry, WatchedFile};

fn probe(path: &str, status: PathStatus) -> Probe {
    Probe { path: path.to_string(), status }
}

fn watched(paths: &[&str]) -> WatchRegistry {
    let probes: Vec<Probe> = paths.iter().map(|path| probe(path, PathStatus::Watched)).collect();
    WatchRegistry::initialize(&probes).ok().unwrap()
}

#[test]
fn a_watched_file_is_named_after_its_path() {
    let file = WatchedFile::new("src/components/city_input.rs".to_string()).unwrap();
    assert_eq!(file.path(), "src/components/city_input.rs");
    assert_eq!(file.identifier(), "city_input.rs");
    let file = WatchedFile::new("a.txt".to_string()).unwrap();
    assert_eq!(file.path(), "a.txt");
    assert_eq!(file.identifier(), "a.txt");
}

#[test]
fn a_path_that_names_no_file_gives_no_watched_file() {
    assert!(WatchedFile::new("".to_string()).is_none());
    assert!(WatchedFile::new("/".to_string()).is_none());
    assert!(WatchedFile::new("src/..".to_string()).is_none());
}

#[test]
fn the_watch_set_holds_the_paths_in_their_order() {
    let registry = watched(&["src/app.rs", "src/components/city_input.rs", "src/input.css"]);
    assert_eq!(registry.len(), 3);
    assert_eq!(registry.get(0).path(), "src/app.rs");
    assert_eq!(registry.get(0).identifier(), "app.rs");
    assert_eq!(registry.get(1).path(), "src/components/city_input.rs");
    assert_eq!(registry.get(1).identifier(), "city_input.rs");
    assert_eq!(registry.get(2).path(), "src/input.css");
    assert_eq!(registry.get(2).identifier(), "input.css");
}

#[test]
fn the_watch_set_may_be_empty() {
    let registry = watched(&[]);
    assert_eq!(registry.len(), 0);
    assert_eq!(registry.resolve("a.txt"), None);
}

#[test]
fn a_missing_path_stops_the_startup() {
    let probes = vec![
        probe("a.txt", PathStatus::Watched),
        probe("b.txt", PathStatus::Missing),
        probe("c.txt", PathStatus::Watched),
    ];
    assert_eq!(WatchRegistry::initialize(&probes).err(), Some(SyncError::PathNotFound));
}

#[test]
fn a_refused_watch_stops_the_startup() {
    let probes = vec![probe("a.txt", PathStatus::Watched), probe("b.txt", PathStatus::Refused)];
    assert_eq!(WatchRegistry::initialize(&probes).err(), Some(SyncError::WatchRegistrationFailed));
}

#[test]
fn a_path_that_names_no_file_stops_the_startup() {
    let probes = vec![probe("a.txt", PathStatus::Watched), probe("src/..", PathStatus::Watched)];
    assert_eq!(WatchRegistry::initialize(&probes).err(), Some(SyncError::WatchRegistrationFailed));
}

#[test]
fn the_first_path_that_fails_gives_the_failure() {
    let probes = vec![
        probe("a.txt", PathStatus::Watched),
        probe("b.txt", PathStatus::Refused),
        probe("c.txt", PathStatus::Missing),
    ];
    assert_eq!(WatchRegistry::initialize(&probes).err(), Some(SyncError::WatchRegistrationFailed));
    let probes = vec![
        probe("a.txt", PathStatus::Missing),
        probe("b.txt", PathStatus::Refused),
    ];
    assert_eq!(WatchRegistry::initialize(&probes).err(), Some(SyncError::PathNotFound));
    let probes = vec![probe("..", PathStatus::Missing)];
    assert_eq!(WatchRegistry::initialize(&probes).err(), Some(SyncError::PathNotFound));
}

#[test]
fn paths_are_resolved_by_exact_equality() {
    let registry = watched(&["src/app.rs", "src/input.css"]);
    assert_eq!(registry.resolve("src/app.rs"), Some(0));
    assert_eq!(registry.resolve("src/input.css"), Some(1));
    assert_eq!(registry.resolve("app.rs"), None);
    assert_eq!(registry.resolve("./src/app.rs"), None);
    assert_eq!(registry.resolve("src/app.rs "), None);
    assert_eq!(registry.resolve("src/App.rs"), None);
    assert_eq!(registry.resolve("src/app.r"), None);
    assert_eq!(registry.resolve(""), None);
}

#[test]
fn a_path_that_is_watched_twice_resolves_to_its_first_entry() {
    let registry = watched(&["a.txt", "b.txt", "a.txt"]);
    assert_eq!(registry.len(), 3);
    assert_eq!(registry.resolve("a.txt"), Some(0));
    assert_eq!(registry.resolve("b.txt"), Some(1));
}
