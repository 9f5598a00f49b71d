//! What the explorer shows of one directory: its children, their total and
//! their pie chart.

use vstd::prelude::*;
use crate::chart::{build_chart, chart_slices, chart_links, chart_title, others, pair_view, slice_view, sizes_sum, ChartResult, PieChart, PieSlice};
use crate::entry::FsEntry;
use crate::paths::{file_name_of, named_pieces, path_file_name, plain_name, portable};

verus! {

/// The name under which a directory is shown: its final component, or the
/// whole path where it has none.
pub open spec fn display_name(path: Seq<char>) -> Seq<char> {
    match file_name_of(path) {
        Some(name) => name,
        None => path,
    }
}

/// The chart fields `options` and `links` chart `children` under the title
/// `name`, as `build_chart` does.
pub open spec fn charts(
    options: Option<PieChart>,
    links: Seq<(String, String)>,
    children: Seq<FsEntry>,
    name: Seq<char>,
) -> bool {
    let total = sizes_sum(children);
    if total == 0 {
        options is None && links.len() == 0
    } else {
        &&& options matches Some(chart) && chart.title@ == chart_title(name, total)
            && chart.data@.map_values(|p: PieSlice| slice_view(p)) == chart_slices(children, total)
        &&& links.map_values(|p: (String, String)| pair_view(p)) == chart_links(children, total)
    }
}

/// The children that the chart of `children` gathers into "Other" (none
/// where the children add up to nothing).
pub open spec fn gathered(children: Seq<FsEntry>) -> Seq<FsEntry> {
    if sizes_sum(children) == 0 {
        Seq::empty()
    } else {
        others(children, sizes_sum(children))
    }
}

/// The view of one directory.
#[derive(Debug)]
pub struct ScanResult {
    pub parent_path: String,
    pub parent_name: String,
    pub children: Vec<FsEntry>,
    pub chart_options: Option<PieChart>,
    pub chart_label_to_path: Vec<(String, String)>,
    pub total_size: u64,
    pub scanning: bool,
    pub other_children: Vec<FsEntry>,
}

/// The view of the "Other" children of a directory, charted on their own.
#[derive(Debug)]
pub struct ExpandedOtherResult {
    pub chart_options: Option<PieChart>,
    pub chart_label_to_path: Vec<(String, String)>,
    pub items: Vec<FsEntry>,
}

/// A copy of a list of entries.
pub fn copy_entries(v: &Vec<FsEntry>) -> (r: Vec<FsEntry>)
    ensures
        r@ == v@,
{
    let mut r: Vec<FsEntry> = Vec::new();
    let mut i: usize = 0;
    while i < v.len()
        invariant
            i <= v.len(),
            r@ == v@.take(i as int),
        decreases v.len() - i,
    {
        r.push(v[i].clone());
        i = i + 1;
        assert(r@ =~= v@.take(i as int));
    }
    assert(v@.take(i as int) =~= v@);
    r
}

/// The view of the directory at `parent_path` with these children.
pub fn make_scan_result(parent_path: &str, children: &Vec<FsEntry>, scanning: bool) -> (r: ScanResult)
    requires
        sizes_sum(children@) <= u64::MAX,
    ensures
        r.parent_path@ == parent_path@,
        r.parent_name@ == display_name(parent_path@),
        portable(parent_path@) && named_pieces(parent_path@).len() > 0 && plain_name(
            named_pieces(parent_path@).last(),
        ) ==> r.parent_name@ == named_pieces(parent_path@).last(),
        r.children@ == children@,
        r.total_size == sizes_sum(children@),
        r.scanning == scanning,
        charts(r.chart_options, r.chart_label_to_path@, children@, display_name(parent_path@)),
        r.other_children@ == gathered(children@),
{
    let parent_name = match path_file_name(parent_path) {
        Some(name) => name,
        None => String::from_str(parent_path),
    };
    let chart = build_chart(children, parent_name.as_str());
    let total_size = match crate::chart::children_total(children) {
        Some(t) => t,
        None => 0,
    };
    ScanResult {
        parent_path: String::from_str(parent_path),
        parent_name,
        children: copy_entries(children),
        chart_options: chart.options,
        chart_label_to_path: chart.label_to_path,
        total_size,
        scanning,
        other_children: chart.other_children,
    }
}

/// The title under which the "Other" children of `parent_name` are charted.
pub open spec fn other_title(parent_name: Seq<char>) -> Seq<char> {
    parent_name + seq![' ', '\u{2014}', ' ', 'O', 't', 'h', 'e', 'r']
}

/// Charts the children that a directory's chart gathered into "Other".
pub fn expand_others(items: Vec<FsEntry>, parent_name: &str) -> (r: ExpandedOtherResult)
    requires
        sizes_sum(items@) <= u64::MAX,
    ensures
        r.items@ == items@,
        charts(r.chart_options, r.chart_label_to_path@, items@, other_title(parent_name@)),
{
    proof {
        reveal_strlit(" \u{2014} Other");
    }
    let mut title = String::from_str(parent_name);
    title.append(" \u{2014} Other");
    assert(title@ =~= other_title(parent_name@));
    let chart: ChartResult = build_chart(&items, title.as_str());
    ExpandedOtherResult {
        chart_options: chart.options,
        chart_label_to_path: chart.label_to_path,
        items,
    }
}

} // verus!
