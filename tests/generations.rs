use iterative_backup::catalog::{
    get_file_name_as_str, get_files_recursive, get_most_recent, is_recent, path_generator,
    paths_are_distinct, trim_path, DirEntry,
};
use iterative_backup::compact::Forward;
use iterative_backup::engine::{is_changed, BackupMode, CatalogEntry, SnapshotOutcome};
use iterative_backup::stamp::{parse_label, Stamp};
use iterative_backup::store::{Location, Store, StoreError};

fn stamp(year: u16, month: u8, day: u8, hour: u8, minute: u8) -> Stamp {
    Stamp { year, month, day, hour, minute }
}

fn entry(path: &str, modified: i64) -> CatalogEntry {
    CatalogEntry { path: path.to_string(), modified }
}

fn loc(generation: Stamp, path: &str) -> Location {
    Location { generation, path: path.to_string() }
}

// 2024-01-01T00:00 UTC
const G1_INSTANT: i64 = 1_704_067_200;

fn g1() -> Stamp {
    stamp(2024, 1, 1, 0, 0)
}

fn g2() -> Stamp {
    stamp(2024, 1, 1, 0, 5)
}

fn g3() -> Stamp {
    stamp(2024, 1, 1, 0, 9)
}

/// Two runs over a.txt and b.txt; b.txt is modified after the first.
fn two_runs() -> Store {
    let mut store = Store::new();
    let world = vec![entry("a.txt", G1_INSTANT - 500), entry("b.txt", G1_INSTANT - 500)];
    store.snapshot(g1(), BackupMode::Iterative, &world, 0).unwrap();
    let world = vec![entry("a.txt", G1_INSTANT - 500), entry("b.txt", G1_INSTANT + 60)];
    store.snapshot(g2(), BackupMode::Iterative, &world, 0).unwrap();
    store
}

#[test]
fn unchanged_file_shares_copy_and_changed_file_is_copied() {
    let store = two_runs();
    let a1 = store.resolve(g1(), &"a.txt".to_string()).unwrap();
    let a2 = store.resolve(g2(), &"a.txt".to_string()).unwrap();
    assert_eq!(a1, a2);
    assert_eq!(a2, loc(g1(), "a.txt"));
    let b2 = store.resolve(g2(), &"b.txt".to_string()).unwrap();
    assert_eq!(b2, loc(g2(), "b.txt"));
    let b1 = store.resolve(g1(), &"b.txt".to_string()).unwrap();
    assert_eq!(b1, loc(g1(), "b.txt"));
}

#[test]
fn removing_first_generation_moves_shared_copy_forward() {
    let mut store = two_runs();
    let c = store.remove_generation(g1()).unwrap();
    assert_eq!(c.removed, g1());
    assert_eq!(c.successor, g2());
    assert_eq!(c.forwards, vec![Forward { from: "a.txt".to_string(), to: "a.txt".to_string() }]);
    assert!(!store.contains(g1()));
    assert_eq!(store.resolve(g2(), &"a.txt".to_string()).unwrap(), loc(g2(), "a.txt"));
    assert_eq!(store.resolve(g2(), &"b.txt".to_string()).unwrap(), loc(g2(), "b.txt"));
    let owned = store.physical_files(g2()).unwrap();
    assert!(owned.contains(&"a.txt".to_string()));
    assert!(owned.contains(&"b.txt".to_string()));
}

#[test]
fn removing_newest_generation_fails_and_changes_nothing() {
    let mut store = two_runs();
    let before = store.list_references(g2()).unwrap();
    let e = store.remove_generation(g2()).unwrap_err();
    assert_eq!(e, StoreError::NoNextGeneration { id: g2() });
    assert!(store.contains(g1()) && store.contains(g2()));
    assert_eq!(store.list_references(g2()).unwrap(), before);
    assert_eq!(store.resolve(g2(), &"a.txt".to_string()).unwrap(), loc(g1(), "a.txt"));
}

#[test]
fn removing_unknown_generation_is_reported() {
    let mut store = two_runs();
    let e = store.remove_generation(g3()).unwrap_err();
    assert_eq!(e, StoreError::NoSuchGeneration { label: "2024-01-01T00-09".to_string() });
}

#[test]
fn compaction_retargets_later_generations() {
    let mut store = two_runs();
    let world = vec![entry("a.txt", G1_INSTANT - 500), entry("b.txt", G1_INSTANT + 60)];
    store.snapshot(g3(), BackupMode::Iterative, &world, 0).unwrap();
    // The third run flattens a.txt straight to the first generation's copy.
    assert_eq!(store.resolve(g3(), &"a.txt".to_string()).unwrap(), loc(g1(), "a.txt"));
    assert_eq!(store.resolve(g3(), &"b.txt".to_string()).unwrap(), loc(g2(), "b.txt"));
    store.remove_generation(g1()).unwrap();
    assert_eq!(store.resolve(g3(), &"a.txt".to_string()).unwrap(), loc(g2(), "a.txt"));
    assert_eq!(store.resolve(g2(), &"a.txt".to_string()).unwrap(), loc(g2(), "a.txt"));
}

#[test]
fn compaction_of_a_middle_generation_skips_past_it() {
    let mut store = two_runs();
    let world = vec![entry("a.txt", G1_INSTANT - 500), entry("b.txt", G1_INSTANT + 60)];
    store.snapshot(g3(), BackupMode::Iterative, &world, 0).unwrap();
    let c = store.remove_generation(g2()).unwrap();
    assert_eq!(c.successor, g3());
    assert_eq!(c.forwards, vec![Forward { from: "b.txt".to_string(), to: "b.txt".to_string() }]);
    assert_eq!(store.resolve(g3(), &"a.txt".to_string()).unwrap(), loc(g1(), "a.txt"));
    assert_eq!(store.resolve(g3(), &"b.txt".to_string()).unwrap(), loc(g3(), "b.txt"));
}

#[test]
fn restore_brings_back_every_path_of_the_table() {
    let store = two_runs();
    let mut items = store.restore_plan(g2()).unwrap();
    items.sort_by(|x, y| x.path.cmp(&y.path));
    assert_eq!(items.len(), 2);
    assert_eq!(items[0].path, "a.txt");
    assert_eq!(items[0].source, loc(g1(), "a.txt"));
    assert_eq!(items[1].path, "b.txt");
    assert_eq!(items[1].source, loc(g2(), "b.txt"));
}

#[test]
fn restore_of_unknown_generation_fails() {
    let store = two_runs();
    let e = store.restore_plan(g3()).unwrap_err();
    assert_eq!(e, StoreError::NoSuchGeneration { label: "2024-01-01T00-09".to_string() });
}

#[test]
fn broken_chain_is_reported_by_resolve_and_restore() {
    let mut store = Store::new();
    store.create(g1()).unwrap();
    store.create(g2()).unwrap();
    store.put_reference(g2(), "x".to_string(), loc(g1(), "x")).unwrap();
    let e = store.resolve(g2(), &"x".to_string()).unwrap_err();
    assert_eq!(e, StoreError::BrokenChain { generation: g2(), path: "x".to_string() });
    let e = store.restore_plan(g2()).unwrap_err();
    assert_eq!(e, StoreError::BrokenChain { generation: g2(), path: "x".to_string() });
    store.record_physical(g1(), "x".to_string()).unwrap();
    assert_eq!(store.resolve(g2(), &"x".to_string()).unwrap(), loc(g1(), "x"));
}

#[test]
fn reference_to_a_newer_generation_is_broken() {
    let mut store = Store::new();
    store.create(g1()).unwrap();
    store.create(g2()).unwrap();
    store.record_physical(g2(), "x".to_string()).unwrap();
    store.put_reference(g1(), "x".to_string(), loc(g2(), "x")).unwrap();
    assert!(store.resolve(g1(), &"x".to_string()).is_err());
}

#[test]
fn self_reference_resolves_to_own_copy() {
    let mut store = Store::new();
    store.create(g1()).unwrap();
    store.put_reference(g1(), "x".to_string(), loc(g1(), "x")).unwrap();
    assert!(store.resolve(g1(), &"x".to_string()).is_err());
    store.record_physical(g1(), "x".to_string()).unwrap();
    assert_eq!(store.resolve(g1(), &"x".to_string()).unwrap(), loc(g1(), "x"));
}

#[test]
fn put_reference_replaces_the_row_for_a_path() {
    let mut store = Store::new();
    store.create(g1()).unwrap();
    store.create(g2()).unwrap();
    store.put_reference(g2(), "x".to_string(), loc(g1(), "x")).unwrap();
    store.put_reference(g2(), "x".to_string(), loc(g2(), "x")).unwrap();
    let rows = store.list_references(g2()).unwrap();
    assert_eq!(rows.len(), 1);
    assert_eq!(rows[0].target, loc(g2(), "x"));
    let e = store.put_reference(g3(), "x".to_string(), loc(g1(), "x")).unwrap_err();
    assert_eq!(e, StoreError::NoSuchGeneration { label: "2024-01-01T00-09".to_string() });
}

#[test]
fn duplicate_generation_is_refused() {
    let mut store = Store::new();
    store.create(g1()).unwrap();
    assert_eq!(store.create(g1()), Err(StoreError::DuplicateGeneration { id: g1() }));
}

#[test]
fn run_within_the_same_minute_is_up_to_date() {
    let mut store = two_runs();
    let world = vec![entry("c.txt", G1_INSTANT)];
    let out = store.snapshot(g2(), BackupMode::Iterative, &world, 0).unwrap();
    assert!(matches!(out, SnapshotOutcome::UpToDate));
    assert!(store.resolve(g2(), &"c.txt".to_string()).is_err());
}

#[test]
fn rerun_of_an_older_id_is_a_duplicate() {
    let mut store = two_runs();
    let world = vec![entry("c.txt", G1_INSTANT)];
    let e = store.snapshot(g1(), BackupMode::Iterative, &world, 0).unwrap_err();
    assert_eq!(e, StoreError::DuplicateGeneration { id: g1() });
}

#[test]
fn full_backup_copies_every_file() {
    let mut store = two_runs();
    let world = vec![entry("a.txt", G1_INSTANT - 500), entry("b.txt", G1_INSTANT - 500)];
    let out = store.snapshot(g3(), BackupMode::Full, &world, 0).unwrap();
    match out {
        SnapshotOutcome::Created(report) => {
            assert_eq!(report.copied, vec!["a.txt".to_string(), "b.txt".to_string()]);
            assert!(report.fallbacks.is_empty());
        },
        SnapshotOutcome::UpToDate => panic!("expected a new generation"),
    }
    assert_eq!(store.resolve(g3(), &"a.txt".to_string()).unwrap(), loc(g3(), "a.txt"));
}

#[test]
fn modification_at_the_reference_instant_counts_as_changed() {
    assert!(is_changed(G1_INSTANT, G1_INSTANT));
    assert!(is_changed(G1_INSTANT + 1, G1_INSTANT));
    assert!(!is_changed(G1_INSTANT - 1, G1_INSTANT));
    let mut store = Store::new();
    store.snapshot(g1(), BackupMode::Iterative, &vec![entry("a", 0)], 0).unwrap();
    store.snapshot(g2(), BackupMode::Iterative, &vec![entry("a", G1_INSTANT)], 0).unwrap();
    assert_eq!(store.resolve(g2(), &"a".to_string()).unwrap(), loc(g2(), "a"));
}

#[test]
fn utc_offset_shifts_the_reference_instant() {
    // At UTC+1 the first generation's minute began an hour earlier, so a file
    // modified half an hour before midnight UTC counts as changed.
    let mut store = Store::new();
    store.snapshot(g1(), BackupMode::Iterative, &vec![entry("a", 0)], 3600).unwrap();
    let world = vec![entry("a", G1_INSTANT - 1800)];
    store.snapshot(g2(), BackupMode::Iterative, &world, 3600).unwrap();
    assert_eq!(store.resolve(g2(), &"a".to_string()).unwrap(), loc(g2(), "a"));
    let mut store = Store::new();
    store.snapshot(g1(), BackupMode::Iterative, &vec![entry("a", 0)], 0).unwrap();
    store.snapshot(g2(), BackupMode::Iterative, &world, 0).unwrap();
    assert_eq!(store.resolve(g2(), &"a".to_string()).unwrap(), loc(g1(), "a"));
}

#[test]
fn unresolvable_unchanged_file_is_copied_as_fallback() {
    let mut store = Store::new();
    store.snapshot(g1(), BackupMode::Iterative, &vec![entry("a", 0)], 0).unwrap();
    let world = vec![entry("a", 0), entry("new", 0)];
    let out = store.record_snapshot(g2(), Some((g1(), G1_INSTANT)), &world).unwrap();
    assert_eq!(out.copied, vec!["new".to_string()]);
    assert_eq!(out.fallbacks, vec!["new".to_string()]);
    assert_eq!(store.resolve(g2(), &"new".to_string()).unwrap(), loc(g2(), "new"));
    assert_eq!(store.resolve(g2(), &"a".to_string()).unwrap(), loc(g1(), "a"));
}

#[test]
fn labels_round_trip() {
    let s = stamp(2024, 3, 7, 9, 5);
    assert_eq!(s.label(), "2024-03-07T09-05");
    assert_eq!(parse_label("2024-03-07T09-05"), Some(s));
    assert_eq!(stamp(7, 12, 31, 23, 59).label(), "0007-12-31T23-59");
    assert_eq!(parse_label("0007-12-31T23-59"), Some(stamp(7, 12, 31, 23, 59)));
}

#[test]
fn malformed_labels_are_rejected() {
    assert_eq!(parse_label("2023-02-29T00-00"), None);
    assert_eq!(parse_label("2024-02-29T00-00"), Some(stamp(2024, 2, 29, 0, 0)));
    assert_eq!(parse_label("2024-13-01T00-00"), None);
    assert_eq!(parse_label("2024-01-01T24-00"), None);
    assert_eq!(parse_label("2024-01-01 00-00"), None);
    assert_eq!(parse_label("2024-1-01T00-00"), None);
    assert_eq!(parse_label("+024-01-01T00-00"), None);
    assert_eq!(parse_label(""), None);
    assert_eq!(parse_label("recent"), None);
}

#[test]
fn stamps_order_chronologically() {
    assert!(g1().is_before(&g2()));
    assert!(!g2().is_before(&g1()));
    assert!(!g1().is_before(&g1()));
    assert!(stamp(2023, 12, 31, 23, 59).is_before(&g1()));
    assert!(stamp(2024, 2, 29, 0, 0).is_valid());
    assert!(!stamp(2100, 2, 29, 0, 0).is_valid());
    assert!(stamp(2000, 2, 29, 0, 0).is_valid());
}

#[test]
fn most_recent_and_neighbours() {
    let store = two_runs();
    assert_eq!(get_most_recent(&store), Some(g2()));
    assert_eq!(store.next_after(g1()), Some(g2()));
    assert_eq!(store.next_after(g2()), None);
    assert_eq!(store.latest_before(g3()), Some(g2()));
    assert_eq!(store.latest_before(g1()), None);
    assert_eq!(get_most_recent(&Store::new()), None);
}

#[test]
fn path_generator_finds_recent_and_labelled_generations() {
    let store = two_runs();
    assert!(is_recent("recent"));
    assert!(!is_recent("Recent"));
    assert_eq!(path_generator(&store, "recent"), Ok(g2()));
    assert_eq!(path_generator(&store, "2024-01-01T00-00"), Ok(g1()));
    assert_eq!(
        path_generator(&store, "2024-01-01T00-09"),
        Err(StoreError::NoSuchGeneration { label: "2024-01-01T00-09".to_string() })
    );
    assert_eq!(
        path_generator(&store, "yesterday"),
        Err(StoreError::NoSuchGeneration { label: "yesterday".to_string() })
    );
    assert_eq!(
        path_generator(&Store::new(), "recent"),
        Err(StoreError::NoSuchGeneration { label: "recent".to_string() })
    );
}

#[test]
fn walk_step_sorts_files_and_directories() {
    let entries = vec![
        DirEntry { name: "level.dat".to_string(), is_dir: false },
        DirEntry { name: "region".to_string(), is_dir: true },
        DirEntry { name: "r.0.0.mca".to_string(), is_dir: false },
    ];
    let mut pending = Vec::new();
    let mut files = Vec::new();
    get_files_recursive("", &entries, &mut pending, &mut files);
    assert_eq!(pending, vec!["region".to_string()]);
    assert_eq!(files, vec!["level.dat".to_string(), "r.0.0.mca".to_string()]);
    let mut pending = Vec::new();
    let mut files = vec!["level.dat".to_string()];
    get_files_recursive("world/region", &entries, &mut pending, &mut files);
    assert_eq!(pending, vec!["world/region/region".to_string()]);
    assert_eq!(
        files,
        vec!["level.dat".to_string(), "world/region/level.dat".to_string(), "world/region/r.0.0.mca".to_string()]
    );
}

#[test]
fn distinct_paths_are_checked() {
    assert!(paths_are_distinct(&vec![entry("a", 0), entry("b", 0)]));
    assert!(!paths_are_distinct(&vec![entry("a", 0), entry("b", 0), entry("a", 1)]));
    assert!(paths_are_distinct(&vec![]));
}

#[test]
fn trim_path_strips_whole_components() {
    assert_eq!(trim_path("/srv/world/region/r.mca", "/srv/world"), Some("region/r.mca"));
    assert_eq!(trim_path("/srv/world", "/srv/world"), Some(""));
    assert_eq!(trim_path("/srv/worlds/a", "/srv/world"), None);
    assert_eq!(trim_path("/srv", "/srv/world"), None);
    assert_eq!(trim_path("a/b", ""), Some("a/b"));
}

#[test]
fn file_name_is_the_last_component() {
    assert_eq!(get_file_name_as_str("backups/2024-01-01T00-00"), "2024-01-01T00-00");
    assert_eq!(get_file_name_as_str("level.dat"), "level.dat");
    assert_eq!(get_file_name_as_str("a/b/"), "");
    assert_eq!(get_file_name_as_str(""), "");
}

#[test]
fn removal_that_would_strand_a_later_reference_is_refused() {
    // The third generation is recorded before the second, so it refers to the
    // first generation's copy, while the second holds its own copy of a.txt.
    let mut store = Store::new();
    store.snapshot(g1(), BackupMode::Iterative, &vec![entry("a.txt", 0)], 0).unwrap();
    store.snapshot(g3(), BackupMode::Iterative, &vec![entry("a.txt", 0)], 0).unwrap();
    store.snapshot(g2(), BackupMode::Iterative, &vec![entry("a.txt", G1_INSTANT + 1)], 0).unwrap();
    assert_eq!(store.resolve(g3(), &"a.txt".to_string()).unwrap(), loc(g1(), "a.txt"));
    assert_eq!(store.resolve(g2(), &"a.txt".to_string()).unwrap(), loc(g2(), "a.txt"));
    let e = store.remove_generation(g1()).unwrap_err();
    assert_eq!(e, StoreError::BrokenChain { generation: g3(), path: "a.txt".to_string() });
    assert!(store.contains(g1()));
    assert_eq!(store.resolve(g3(), &"a.txt".to_string()).unwrap(), loc(g1(), "a.txt"));
}

#[test]
fn labels_sort_like_stamps() {
    let stamps = [
        stamp(999, 12, 31, 23, 59),
        stamp(2023, 12, 31, 23, 59),
        stamp(2024, 1, 1, 0, 0),
        stamp(2024, 1, 1, 0, 5),
        stamp(2024, 1, 1, 10, 0),
        stamp(2024, 1, 10, 0, 0),
        stamp(2024, 10, 1, 0, 0),
    ];
    for a in &stamps {
        for b in &stamps {
            assert_eq!(a.is_before(b), a.label() < b.label());
        }
    }
}
