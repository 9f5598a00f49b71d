use diskview::walk::{DirSizeWalk, WalkEntry};

#[test]
fn walk_adds_files_and_visits_directories_last_in_first_out() {
    let mut walk = DirSizeWalk::new("root".to_string());
    assert_eq!(walk.next_dir(), Some("root".to_string()));
    walk.absorb(vec![
        WalkEntry { path: "root/a".to_string(), is_file: false, is_dir: true, len: 4096 },
        WalkEntry { path: "root/f".to_string(), is_file: true, is_dir: false, len: 10 },
        WalkEntry { path: "root/b".to_string(), is_file: false, is_dir: true, len: 4096 },
        WalkEntry { path: "root/link".to_string(), is_file: false, is_dir: false, len: 99 },
    ]);
    assert_eq!(walk.total(), 10);
    assert_eq!(walk.next_dir(), Some("root/b".to_string()));
    walk.absorb(vec![WalkEntry { path: "root/b/g".to_string(), is_file: true, is_dir: false, len: 5 }]);
    assert_eq!(walk.next_dir(), Some("root/a".to_string()));
    walk.absorb(Vec::new());
    assert_eq!(walk.next_dir(), None);
    assert_eq!(walk.total(), 15);
}

#[test]
fn walk_total_saturates() {
    let mut walk = DirSizeWalk::new(0u32);
    walk.next_dir();
    walk.absorb(vec![
        WalkEntry { path: 1u32, is_file: true, is_dir: false, len: u64::MAX - 3 },
        WalkEntry { path: 2u32, is_file: true, is_dir: false, len: 10 },
        WalkEntry { path: 3u32, is_file: true, is_dir: false, len: 10 },
    ]);
    assert_eq!(walk.total(), u64::MAX);
}
