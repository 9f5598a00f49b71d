use diskview::entry::{list_children, ListedEntry};

fn listed(name: &str, is_file: bool, is_dir: bool, len: u64) -> ListedEntry {
    ListedEntry { path: format!("/d/{name}"), name: name.to_string(), is_file, is_dir, len }
}

#[test]
fn listing_is_sorted_by_lowercased_name() {
    let listing = vec![
        listed("beta", true, false, 5),
        listed("Alpha", false, true, 4096),
        listed("gamma", true, false, 1),
        listed("alpha2", true, false, 2),
        listed("Zed", true, false, 3),
    ];
    let children = list_children(&listing);
    let names: Vec<&str> = children.iter().map(|c| c.name.as_str()).collect();
    assert_eq!(names, vec!["Alpha", "alpha2", "beta", "gamma", "Zed"]);
}

#[test]
fn listing_counts_only_file_lengths() {
    let listing = vec![listed("dir", false, true, 4096), listed("file", true, false, 77)];
    let children = list_children(&listing);
    assert_eq!(children[0].name, "dir");
    assert_eq!(children[0].size, 0);
    assert!(children[0].is_dir);
    assert_eq!(children[1].size, 77);
    assert!(!children[1].is_dir);
    assert_eq!(children[1].path, "/d/file");
}

#[test]
fn listing_keeps_case_ties_in_listing_order() {
    let listing = vec![listed("README", true, false, 1), listed("readme", true, false, 2), listed("ReadMe", true, false, 3)];
    let children = list_children(&listing);
    let sizes: Vec<u64> = children.iter().map(|c| c.size).collect();
    assert_eq!(sizes, vec![1, 2, 3]);
}

#[test]
fn listing_matches_lowercase_string_order() {
    let words = ["Éclair", "eclair", "Zebra", "apple", "Ωmega", "ω", "_under", "123", "a b", "A", "ß", "straße", "STRASSE"];
    let listing: Vec<ListedEntry> = words.iter().map(|w| listed(w, true, false, 0)).collect();
    let children = list_children(&listing);
    let mut expected: Vec<String> = words.iter().map(|w| w.to_string()).collect();
    expected.sort_by(|a, b| a.to_lowercase().cmp(&b.to_lowercase()));
    let names: Vec<String> = children.iter().map(|c| c.name.clone()).collect();
    assert_eq!(names, expected);
}

#[test]
fn empty_listing_gives_no_children() {
    assert!(list_children(&Vec::new()).is_empty());
}

#[test]
fn large_listing_matches_stable_lowercase_sort() {
    let mut listing = Vec::new();
    let mut x: u64 = 0x1234_5678_9abc_def1;
    for i in 0..20_000u64 {
        x ^= x << 13;
        x ^= x >> 7;
        x ^= x << 17;
        let letters: String = (0..(x % 6 + 1))
            .map(|k| {
                let c = b"aAbBcCzZ_1"[((x >> (k * 5)) % 10) as usize];
                c as char
            })
            .collect();
        listing.push(ListedEntry {
            path: format!("/big/{i}"),
            name: letters,
            is_file: true,
            is_dir: false,
            len: i,
        });
    }
    let children = list_children(&listing);
    let mut expected: Vec<(String, u64)> = listing.iter().map(|l| (l.name.clone(), l.len)).collect();
    expected.sort_by(|a, b| a.0.to_lowercase().cmp(&b.0.to_lowercase()));
    let got: Vec<(String, u64)> = children.iter().map(|c| (c.name.clone(), c.size)).collect();
    assert_eq!(got, expected);
}
