use diskview::entry::FsEntry;
use diskview::explorer::{CleanOutcome, Explorer};

fn entry(path: &str, name: &str, size: u64, is_dir: bool) -> FsEntry {
    FsEntry { path: path.to_string(), name: name.to_string(), size, is_dir }
}

fn root_children() -> Vec<FsEntry> {
    vec![
        entry("/r/a", "a", 0, true),
        entry("/r/f", "f", 10, false),
        entry("/r/b", "b", 0, true),
    ]
}

#[test]
fn open_folder_resets_history_and_starts_scans() {
    let mut ex = Explorer::new();
    assert!(!ex.is_scanning());
    assert!(ex.get_current_view().is_none());
    let dirs = ex.open_folder("/r".to_string(), root_children());
    let dir_paths: Vec<&str> = dirs.iter().map(|d| d.path.as_str()).collect();
    assert_eq!(dir_paths, vec!["/r/a", "/r/b"]);
    assert!(ex.is_scanning());
    assert!(!ex.has_back_history());
    let (path, children) = ex.get_current_view().unwrap();
    assert_eq!(path, "/r");
    assert_eq!(children.len(), 3);
}

#[test]
fn navigate_into_then_back_returns() {
    let mut ex = Explorer::new();
    ex.open_folder("/r".to_string(), root_children());
    assert!(ex.navigate_into("/r/a".to_string()).is_none());
    let dirs = ex.store_listing("/r/a".to_string(), vec![entry("/r/a/x", "x", 3, false)]);
    assert!(dirs.is_empty());
    assert!(ex.has_back_history());
    let (path, children) = ex.get_current_view().unwrap();
    assert_eq!(path, "/r/a");
    assert_eq!(children.len(), 1);

    let (back, children) = ex.navigate_back().unwrap();
    assert_eq!(back, "/r");
    assert_eq!(children.len(), 3);
    assert!(!ex.has_back_history());
    assert!(ex.navigate_back().is_none());

    let cached = ex.navigate_into("/r/a".to_string()).unwrap();
    assert_eq!(cached[0].path, "/r/a/x");
}

#[test]
fn size_updates_fill_entries_and_finish_scans() {
    let mut ex = Explorer::new();
    ex.open_folder("/r".to_string(), root_children());
    ex.apply_size_update(&"/r".to_string(), &"/r/a".to_string(), 500);
    assert!(ex.is_scanning());
    ex.apply_size_update(&"/r".to_string(), &"/r/b".to_string(), 7);
    assert!(!ex.is_scanning());
    ex.apply_size_update(&"/r".to_string(), &"/r/zzz".to_string(), 9);
    assert!(!ex.is_scanning());
    let (_, children) = ex.get_current_view().unwrap();
    let sizes: Vec<u64> = children.iter().map(|c| c.size).collect();
    assert_eq!(sizes, vec![500, 10, 7]);
}

#[test]
fn delete_entry_prunes_parent_listing() {
    let mut ex = Explorer::new();
    ex.open_folder("/r".to_string(), root_children());
    let msg = ex.delete_entry(&"/r/f".to_string(), Ok(()));
    assert_eq!(msg, Ok("Deleted: /r/f".to_string()));
    let (_, children) = ex.get_current_view().unwrap();
    let names: Vec<&str> = children.iter().map(|c| c.name.as_str()).collect();
    assert_eq!(names, vec!["a", "b"]);

    let err = ex.delete_entry(&"/r/a".to_string(), Err("permission denied".to_string()));
    assert_eq!(err, Err("Error deleting: permission denied".to_string()));
    assert_eq!(ex.get_current_view().unwrap().1.len(), 2);
}

#[test]
fn clean_folder_reports_and_zeroes_entry() {
    let mut ex = Explorer::new();
    let mut children = root_children();
    children[0].size = 1234;
    ex.open_folder("/r".to_string(), children);
    assert_eq!(
        ex.clean_folder(&"/r/f".to_string(), CleanOutcome::NotADirectory),
        Err("Not a directory: /r/f".to_string())
    );
    assert_eq!(
        ex.clean_folder(&"/r/a".to_string(), CleanOutcome::CannotRead("gone".to_string())),
        Err("Cannot read directory: gone".to_string())
    );
    assert_eq!(ex.get_current_view().unwrap().1[0].size, 1234);
    assert_eq!(
        ex.clean_folder(&"/r/a".to_string(), CleanOutcome::Cleaned { count: 12, failures: Vec::new() }),
        Ok("Cleaned 12 items from /r/a".to_string())
    );
    assert_eq!(ex.get_current_view().unwrap().1[0].size, 0);
    let failures = vec![
        ("/r/b/x".to_string(), "busy".to_string()),
        ("/r/b/y".to_string(), "locked".to_string()),
    ];
    assert_eq!(
        ex.clean_folder(&"/r/b".to_string(), CleanOutcome::Cleaned { count: 3, failures }),
        Err("Cleaned 3 items, but 2 failed:\n/r/b/x: busy\n/r/b/y: locked".to_string())
    );
}

#[test]
fn listings_are_found_by_path_components() {
    let mut ex = Explorer::new();
    ex.open_folder("/r".to_string(), root_children());
    let cached = ex.navigate_into("/r/".to_string()).expect("\"/r/\" names the directory \"/r\"");
    assert_eq!(cached.len(), 3);
    assert!(ex.navigate_into("/r//".to_string()).is_some());
    assert!(ex.navigate_into("/r/a".to_string()).is_none());

    ex.apply_size_update(&"/r//".to_string(), &"/r/a".to_string(), 42);
    let (_, children) = ex.navigate_back().unwrap();
    assert_eq!(children.len(), 3);
    let mut ex2 = Explorer::new();
    ex2.open_folder("/r/".to_string(), root_children());
    ex2.apply_size_update(&"/r".to_string(), &"/r/a".to_string(), 42);
    assert_eq!(ex2.get_current_view().unwrap().1[0].size, 42);
    assert_eq!(ex2.delete_entry(&"/r/f".to_string(), Ok(())), Ok("Deleted: /r/f".to_string()));
    assert_eq!(ex2.get_current_view().unwrap().1.len(), 2);
}
