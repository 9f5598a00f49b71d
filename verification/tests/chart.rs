use diskview::chart::{build_chart, children_total, ChartResult};
use diskview::entry::FsEntry;
use diskview::scan::{expand_others, make_scan_result};
use diskview::size_text::format_size;

fn entry(path: &str, name: &str, size: u64, is_dir: bool) -> FsEntry {
    FsEntry { path: path.to_string(), name: name.to_string(), size, is_dir }
}

fn link_for<'a>(result: &'a ChartResult, label: &str) -> Option<&'a str> {
    let mut found = None;
    for (l, p) in &result.label_to_path {
        if l == label {
            found = Some(p.as_str());
        }
    }
    found
}

#[test]
fn test_build_chart_produces_valid_echarts_json() {
    let children = vec![
        FsEntry { path: "/tmp/docs".into(), name: "docs".into(), size: 500_000_000, is_dir: true },
        FsEntry { path: "/tmp/photo.jpg".into(), name: "photo.jpg".into(), size: 200_000_000, is_dir: false },
        FsEntry { path: "/tmp/src".into(), name: "src".into(), size: 100_000_000, is_dir: true },
    ];
    let result = build_chart(&children, "tmp");
    let opts = result.options.as_ref().expect("chart options should be an object");
    let data = &opts.data;
    assert!(!data.is_empty(), "data should not be empty");
    for item in data {
        assert!(!item.name.is_empty(), "each data item needs a name");
        assert!(item.value > 0, "each data item needs a numeric value");
    }
    assert!(link_for(&result, &format!("docs ({})", format_size(500_000_000))).is_some());
    assert!(link_for(&result, &format!("photo.jpg ({})", format_size(200_000_000))).is_none());
}

#[test]
fn test_build_chart_empty_returns_null() {
    let children = vec![
        FsEntry { path: "/tmp/empty".into(), name: "empty".into(), size: 0, is_dir: true },
    ];
    let result = build_chart(&children, "test");
    assert!(result.options.is_none());
}

#[test]
fn test_other_grouping() {
    let mut children = vec![
        FsEntry { path: "/big".into(), name: "big".into(), size: 1_000_000, is_dir: true },
    ];
    for i in 0..10 {
        children.push(FsEntry {
            path: format!("/tiny{i}"),
            name: format!("tiny{i}"),
            size: 100,
            is_dir: false,
        });
    }
    let result = build_chart(&children, "test");

    assert!(!result.other_children.is_empty(), "should have other children");
    assert_eq!(result.other_children.len(), 10);

    let other_label = result.label_to_path.iter().find(|(_, v)| v.as_str() == "__OTHER__");
    assert!(other_label.is_some(), "should have __OTHER__ sentinel in label_to_path");

    let expanded = build_chart(&result.other_children, "test \u{2014} Other");
    let data = &expanded.options.as_ref().expect("expanded chart should be valid").data;
    assert_eq!(data.len(), 10, "expanded should show all other items");
}

#[test]
fn test_no_other_when_all_above_threshold() {
    let children = vec![
        FsEntry { path: "/a".into(), name: "a".into(), size: 500, is_dir: false },
        FsEntry { path: "/b".into(), name: "b".into(), size: 500, is_dir: true },
    ];
    let result = build_chart(&children, "test");
    assert!(result.other_children.is_empty());
    let has_other = result.label_to_path.iter().any(|(_, v)| v == "__OTHER__");
    assert!(!has_other, "no __OTHER__ sentinel when nothing grouped");
}

#[test]
fn chart_slices_labels_and_title() {
    let children = vec![
        entry("/r/small", "small", 2048, true),
        entry("/r/big", "big", 3 * 1024 * 1024, true),
        entry("/r/file", "file", 1024 * 1024, false),
    ];
    let result = build_chart(&children, "r");
    let chart = result.options.unwrap();
    assert_eq!(chart.title, "r \u{2014} 4.00 MB");
    let names: Vec<&str> = chart.data.iter().map(|s| s.name.as_str()).collect();
    assert_eq!(names, vec!["big (3.00 MB)", "file (1.00 MB)", "Other (2.00 KB)"]);
    let values: Vec<u64> = chart.data.iter().map(|s| s.value).collect();
    assert_eq!(values, vec![3 * 1024 * 1024, 1024 * 1024, 2048]);
    assert_eq!(
        result.label_to_path,
        vec![
            ("big (3.00 MB)".to_string(), "/r/big".to_string()),
            ("Other (2.00 KB)".to_string(), "__OTHER__".to_string()),
        ]
    );
    assert_eq!(result.other_children.len(), 1);
    assert_eq!(result.other_children[0].path, "/r/small");
}

#[test]
fn chart_slices_cover_total() {
    let mut children = Vec::new();
    for i in 0..300u64 {
        children.push(entry(&format!("/x/{i}"), &format!("n{i}"), (i * 7919) % 5000, i % 3 == 0));
    }
    let total = children_total(&children).unwrap();
    let result = build_chart(&children, "x");
    let sum: u64 = result.options.unwrap().data.iter().map(|s| s.value).sum();
    assert_eq!(sum, total);
}

#[test]
fn chart_equal_sizes_keep_input_order() {
    let children = vec![
        entry("/q/b", "b", 10, false),
        entry("/q/a", "a", 10, false),
        entry("/q/c", "c", 30, false),
    ];
    let chart = build_chart(&children, "q").options.unwrap();
    let names: Vec<&str> = chart.data.iter().map(|s| s.name.as_str()).collect();
    assert_eq!(names, vec!["c (30 B)", "b (10 B)", "a (10 B)"]);
}

#[test]
fn minor_zero_sized_children_make_no_other_slice() {
    let children = vec![entry("/z/a", "a", 100, true), entry("/z/empty", "empty", 0, true)];
    let result = build_chart(&children, "z");
    assert_eq!(result.other_children.len(), 1);
    assert_eq!(result.options.unwrap().data.len(), 1);
    assert!(!result.label_to_path.iter().any(|(_, v)| v == "__OTHER__"));
}

#[test]
fn children_total_refuses_overflow() {
    let children = vec![entry("/a", "a", u64::MAX, false), entry("/b", "b", 1, false)];
    assert_eq!(children_total(&children), None);
    let fits = vec![entry("/a", "a", u64::MAX - 1, false), entry("/b", "b", 1, false)];
    assert_eq!(children_total(&fits), Some(u64::MAX));
}

#[test]
fn scan_result_names_the_directory() {
    let children = vec![entry("/tmp/docs/a", "a", 10, false)];
    let result = make_scan_result("/tmp/docs", &children, true);
    assert_eq!(result.parent_path, "/tmp/docs");
    assert_eq!(result.parent_name, "docs");
    assert_eq!(result.total_size, 10);
    assert!(result.scanning);
    assert_eq!(result.children.len(), 1);
    assert_eq!(result.chart_options.unwrap().title, "docs \u{2014} 10 B");

    let root = make_scan_result("/", &children, false);
    assert_eq!(root.parent_name, "/");
    assert!(!root.scanning);
}

#[test]
fn expanded_others_are_charted_under_other_title() {
    let items = vec![entry("/p/x", "x", 5, true), entry("/p/y", "y", 7, false)];
    let result = expand_others(items, "p");
    assert_eq!(result.items.len(), 2);
    let chart = result.chart_options.unwrap();
    assert_eq!(chart.title, "p \u{2014} Other \u{2014} 12 B");
    assert_eq!(chart.data.len(), 2);
    assert_eq!(result.chart_label_to_path, vec![("x (5 B)".to_string(), "/p/x".to_string())]);
}

#[test]
fn every_child_is_a_slice_or_other() {
    let mut children = Vec::new();
    for i in 0..50u64 {
        children.push(entry(&format!("/m/{i}"), &format!("m{i}"), i * i, i % 2 == 0));
    }
    let result = build_chart(&children, "m");
    let chart = result.options.unwrap();
    let own_slices = chart.data.iter().filter(|s| !s.name.starts_with("Other (")).count();
    assert_eq!(own_slices + result.other_children.len(), children.len());
}

#[test]
fn large_chart_orders_like_stable_size_sort() {
    let mut children = Vec::new();
    for i in 0..20_000u64 {
        children.push(entry(&format!("/l/{i}"), &format!("l{i}"), (i * 2_654_435_761) % 1000, false));
    }
    let result = build_chart(&children, "l");
    let mut expected = children.clone();
    expected.sort_by(|a, b| b.size.cmp(&a.size));
    let total: u64 = children.iter().map(|c| c.size).sum();
    let expected_other: Vec<String> = expected
        .iter()
        .filter(|c| (c.size as f64) < total as f64 * 0.01)
        .map(|c| c.path.clone())
        .collect();
    let got_other: Vec<String> = result.other_children.iter().map(|c| c.path.clone()).collect();
    assert_eq!(got_other, expected_other);
}
