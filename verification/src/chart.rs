//! The pie chart of a directory's children: which children get a slice of
//! their own, which are gathered into "Other", and how slices are labelled.

use vstd::prelude::*;
use crate::threshold::{below_one_percent, is_minor};
use crate::entry::{sort_entries, EntryOrder, FsEntry};
use crate::size_text::{size_text, format_size};
use crate::sorting::{
    insert_pos, stable_sort, stable_insert, total_preorder, ListOrder,
};

verus! {

/// The total size of a sequence of entries.
pub open spec fn sizes_sum(s: Seq<FsEntry>) -> nat
    decreases s.len(),
{
    if s.len() == 0 {
        0
    } else {
        sizes_sum(s.drop_last()) + s.last().size as nat
    }
}

/// The sum of the sizes of `children`, or `None` where it does not fit in a
/// `u64`.
pub fn children_total(children: &Vec<FsEntry>) -> (r: Option<u64>)
    ensures
        r matches Some(t) ==> t == sizes_sum(children@),
        r is None <==> sizes_sum(children@) > u64::MAX,
{
    let mut total: u64 = 0;
    let mut i: usize = 0;
    while i < children.len()
        invariant
            i <= children.len(),
            total == sizes_sum(children@.take(i as int)),
        decreases children.len() - i,
    {
        assert(children@.take(i + 1).drop_last() =~= children@.take(i as int));
        if total > u64::MAX - children[i].size {
            proof {
                lemma_sum_prefix_le(children@, i + 1);
            }
            return None;
        }
        total = total + children[i].size;
        i = i + 1;
    }
    assert(children@.take(i as int) =~= children@);
    Some(total)
}

/// Adding entries never lowers the total.
pub proof fn lemma_sum_prefix_le(s: Seq<FsEntry>, k: int)
    requires
        0 <= k <= s.len(),
    ensures
        sizes_sum(s.take(k)) <= sizes_sum(s),
    decreases s.len(),
{
    if k < s.len() {
        assert(s.drop_last().take(k) =~= s.take(k));
        lemma_sum_prefix_le(s.drop_last(), k);
    } else {
        assert(s.take(k) =~= s);
    }
}

/// The total of two sequences laid end to end.
pub proof fn lemma_sum_concat(a: Seq<FsEntry>, b: Seq<FsEntry>)
    ensures
        sizes_sum(a + b) == sizes_sum(a) + sizes_sum(b),
    decreases b.len(),
{
    if b.len() == 0 {
        assert(a + b =~= a);
    } else {
        assert((a + b).drop_last() =~= a + b.drop_last());
        lemma_sum_concat(a, b.drop_last());
    }
}

/// Chart order: larger children first.
pub open spec fn by_size_desc() -> spec_fn(FsEntry, FsEntry) -> bool {
    |a: FsEntry, b: FsEntry| a.size >= b.size
}

/// The chart order is a total preorder.
pub proof fn lemma_by_size_desc_total_preorder()
    ensures
        total_preorder(by_size_desc()),
{
}

/// Stable insertion keeps the total.
proof fn lemma_sum_stable_insert(s: Seq<FsEntry>, x: FsEntry, before: spec_fn(FsEntry, FsEntry) -> bool)
    requires
        insert_pos(s, x, before) <= s.len(),
    ensures
        sizes_sum(stable_insert(s, x, before)) == sizes_sum(s) + x.size,
{
    let k = insert_pos(s, x, before) as int;
    assert(stable_insert(s, x, before) =~= (s.take(k) + seq![x]) + s.skip(k));
    assert(s =~= s.take(k) + s.skip(k));
    lemma_sum_concat(s.take(k) + seq![x], s.skip(k));
    lemma_sum_concat(s.take(k), seq![x]);
    lemma_sum_concat(s.take(k), s.skip(k));
    assert(seq![x].drop_last() =~= Seq::<FsEntry>::empty());
    assert(sizes_sum(Seq::<FsEntry>::empty()) == 0);
    assert(seq![x].last() == x);
    assert(sizes_sum(seq![x]) == x.size);
}

/// Sorting keeps the total.
pub proof fn lemma_sum_stable_sort(s: Seq<FsEntry>, before: spec_fn(FsEntry, FsEntry) -> bool)
    ensures
        sizes_sum(stable_sort(s, before)) == sizes_sum(s),
    decreases s.len(),
{
    if s.len() > 0 {
        lemma_sum_stable_sort(s.drop_last(), before);
        crate::sorting::lemma_insert_pos_bound(stable_sort(s.drop_last(), before), s.last(), before);
        lemma_sum_stable_insert(stable_sort(s.drop_last(), before), s.last(), before);
    }
}

/// An entry taken in chart order.
pub struct BySizeDesc(pub FsEntry);

impl ListOrder for BySizeDesc {
    open spec fn goes_before(self, other: Self) -> bool {
        self.0.size >= other.0.size
    }

    proof fn lemma_goes_before_total(a: Self, b: Self) {
    }

    proof fn lemma_goes_before_transitive(a: Self, b: Self, c: Self) {
    }

    fn precedes(&self, other: &Self) -> (r: bool) {
        self.0.size >= other.0.size
    }

    fn duplicate(&self) -> (r: Self) {
        BySizeDesc(self.0.clone())
    }
}

impl EntryOrder for BySizeDesc {
    open spec fn entry(self) -> FsEntry {
        self.0
    }

    open spec fn entry_order() -> spec_fn(FsEntry, FsEntry) -> bool {
        by_size_desc()
    }

    fn wrap(e: FsEntry) -> (w: Self) {
        BySizeDesc(e)
    }

    fn into_entry(self) -> (e: FsEntry) {
        self.0
    }

    proof fn lemma_order_carried(a: Self, b: Self) {
    }
}

/// `children` in chart order: stably sorted, larger sizes first.
pub fn sort_by_size_desc(children: &Vec<FsEntry>) -> (r: Vec<FsEntry>)
    ensures
        r@ == stable_sort(children@, by_size_desc()),
{
    sort_entries::<BySizeDesc>(children)
}

/// One slice of the pie: its value in bytes and its label.
#[derive(Debug)]
pub struct PieSlice {
    pub value: u64,
    pub name: String,
}

/// The pie chart of a directory: its title and its slices, in order.
#[derive(Debug)]
pub struct PieChart {
    pub title: String,
    pub data: Vec<PieSlice>,
}

/// What the chart of a set of children consists of: the chart itself (none
/// where the children add up to nothing), the slice labels that lead
/// somewhere, and the children gathered into "Other".
#[derive(Debug)]
pub struct ChartResult {
    pub options: Option<PieChart>,
    /// Label and path pairs; a later pair with the same label replaces an
    /// earlier one, as inserting them into a map in order does.
    pub label_to_path: Vec<(String, String)>,
    pub other_children: Vec<FsEntry>,
}

pub open spec fn slice_view(p: PieSlice) -> (nat, Seq<char>) {
    (p.value as nat, p.name@)
}

pub open spec fn pair_view(p: (String, String)) -> (Seq<char>, Seq<char>) {
    (p.0@, p.1@)
}

/// The children in chart order.
pub open spec fn ranked(children: Seq<FsEntry>) -> Seq<FsEntry> {
    stable_sort(children, by_size_desc())
}

/// Children that go into "Other".
pub open spec fn minor_in(total: nat) -> spec_fn(FsEntry) -> bool {
    |c: FsEntry| below_one_percent(c.size as nat, total)
}

/// Children that get a slice of their own.
pub open spec fn major_in(total: nat) -> spec_fn(FsEntry) -> bool {
    |c: FsEntry| !below_one_percent(c.size as nat, total)
}

pub open spec fn is_directory() -> spec_fn(FsEntry) -> bool {
    |c: FsEntry| c.is_dir
}

/// "{name} ({size})".
pub open spec fn slice_label(c: FsEntry) -> Seq<char> {
    c.name@ + seq![' ', '('] + size_text(c.size as nat) + seq![')']
}

/// "Other ({size})".
pub open spec fn other_label(size: nat) -> Seq<char> {
    seq!['O', 't', 'h', 'e', 'r', ' ', '('] + size_text(size) + seq![')']
}

/// The path that the "Other" label leads to: a marker, not a path.
pub open spec fn other_marker() -> Seq<char> {
    seq!['_', '_', 'O', 'T', 'H', 'E', 'R', '_', '_']
}

/// "{parent} — {total}".
pub open spec fn chart_title(parent_name: Seq<char>, total: nat) -> Seq<char> {
    parent_name + seq![' ', '\u{2014}', ' '] + size_text(total)
}

pub open spec fn major_slice(c: FsEntry) -> (nat, Seq<char>) {
    (c.size as nat, slice_label(c))
}

pub open spec fn dir_link(c: FsEntry) -> (Seq<char>, Seq<char>) {
    (slice_label(c), c.path@)
}

/// The children gathered into "Other", largest first.
pub open spec fn others(children: Seq<FsEntry>, total: nat) -> Seq<FsEntry> {
    ranked(children).filter(minor_in(total))
}

/// The children with a slice of their own, largest first.
pub open spec fn majors(children: Seq<FsEntry>, total: nat) -> Seq<FsEntry> {
    ranked(children).filter(major_in(total))
}

pub open spec fn other_size(children: Seq<FsEntry>, total: nat) -> nat {
    sizes_sum(others(children, total))
}

/// The slices: one per major child, then "Other" where the minor children
/// add up to more than nothing.
pub open spec fn chart_slices(children: Seq<FsEntry>, total: nat) -> Seq<(nat, Seq<char>)> {
    let o = other_size(children, total);
    majors(children, total).map_values(|c: FsEntry| major_slice(c)) + if o > 0 {
        seq![(o, other_label(o))]
    } else {
        Seq::empty()
    }
}

/// The labels that lead somewhere: each major directory's to its path, then
/// "Other"'s to the marker where there is an "Other" slice.
pub open spec fn chart_links(children: Seq<FsEntry>, total: nat) -> Seq<(Seq<char>, Seq<char>)> {
    let o = other_size(children, total);
    majors(children, total).filter(is_directory()).map_values(|c: FsEntry| dir_link(c)) + if o
        > 0 {
        seq![(other_label(o), other_marker())]
    } else {
        Seq::empty()
    }
}

/// The slices of the major children come largest first, and so do the
/// children gathered into "Other".
pub proof fn lemma_largest_first(children: Seq<FsEntry>, total: nat)
    ensures
        crate::sorting::sorted_by(majors(children, total), by_size_desc()),
        crate::sorting::sorted_by(others(children, total), by_size_desc()),
{
    lemma_by_size_desc_total_preorder();
    crate::sorting::lemma_stable_sort_sorted(children, by_size_desc());
    crate::sorting::lemma_filter_sorted(ranked(children), by_size_desc(), major_in(total));
    crate::sorting::lemma_filter_sorted(ranked(children), by_size_desc(), minor_in(total));
}

/// The minor and major parts of a sequence add up to the whole.
pub proof fn lemma_sum_split(s: Seq<FsEntry>, total: nat)
    ensures
        sizes_sum(s.filter(minor_in(total))) + sizes_sum(s.filter(major_in(total))) == sizes_sum(s),
    decreases s.len(),
{
    reveal(Seq::filter);
    if s.len() > 0 {
        lemma_sum_split(s.drop_last(), total);
        let x = s.last();
        let lo = s.drop_last().filter(minor_in(total));
        let hi = s.drop_last().filter(major_in(total));
        assert(lo.push(x).drop_last() =~= lo);
        assert(hi.push(x).drop_last() =~= hi);
    }
}

/// The sum of the values of a sequence of slices.
pub open spec fn slices_total(s: Seq<(nat, Seq<char>)>) -> nat
    decreases s.len(),
{
    if s.len() == 0 {
        0
    } else {
        slices_total(s.drop_last()) + s.last().0
    }
}

proof fn lemma_slices_total_concat(a: Seq<(nat, Seq<char>)>, b: Seq<(nat, Seq<char>)>)
    ensures
        slices_total(a + b) == slices_total(a) + slices_total(b),
    decreases b.len(),
{
    if b.len() == 0 {
        assert(a + b =~= a);
    } else {
        assert((a + b).drop_last() =~= a + b.drop_last());
        lemma_slices_total_concat(a, b.drop_last());
    }
}

proof fn lemma_major_slices_total(s: Seq<FsEntry>)
    ensures
        slices_total(s.map_values(|c: FsEntry| major_slice(c))) == sizes_sum(s),
    decreases s.len(),
{
    if s.len() > 0 {
        lemma_major_slices_total(s.drop_last());
        assert(s.map_values(|c: FsEntry| major_slice(c)).drop_last() =~= s.drop_last().map_values(
            |c: FsEntry| major_slice(c),
        ));
    }
}

/// The slices of a chart add up to the total size of the children: the
/// pie shows every byte once, the minor children's inside "Other".
pub proof fn lemma_pie_covers_total(children: Seq<FsEntry>)
    requires
        sizes_sum(children) > 0,
    ensures
        slices_total(chart_slices(children, sizes_sum(children))) == sizes_sum(children),
{
    let t = sizes_sum(children);
    let o = other_size(children, t);
    let head = majors(children, t).map_values(|c: FsEntry| major_slice(c));
    let tail: Seq<(nat, Seq<char>)> = if o > 0 {
        seq![(o, other_label(o))]
    } else {
        Seq::empty()
    };
    lemma_slices_total_concat(head, tail);
    lemma_major_slices_total(majors(children, t));
    lemma_sum_split(ranked(children), t);
    lemma_sum_stable_sort(children, by_size_desc());
    assert(slices_total(Seq::<(nat, Seq<char>)>::empty()) == 0);
    if o > 0 {
        assert(tail.drop_last() =~= Seq::<(nat, Seq<char>)>::empty());
        assert(slices_total(tail) == o);
    }
    assert(chart_slices(children, t) == head + tail);
}

proof fn lemma_split_len(s: Seq<FsEntry>, total: nat)
    ensures
        s.filter(minor_in(total)).len() + s.filter(major_in(total)).len() == s.len(),
    decreases s.len(),
{
    reveal(Seq::filter);
    if s.len() > 0 {
        lemma_split_len(s.drop_last(), total);
    }
}

/// Every child is either given a slice of its own or gathered into
/// "Other", never both.
pub proof fn lemma_each_child_placed_once(children: Seq<FsEntry>)
    ensures
        majors(children, sizes_sum(children)).len() + others(children, sizes_sum(children)).len()
            == children.len(),
        majors(children, sizes_sum(children)).to_multiset().add(
            others(children, sizes_sum(children)).to_multiset(),
        ) == children.to_multiset(),
{
    let t = sizes_sum(children);
    broadcast use vstd::seq_lib::group_to_multiset_ensures;

    lemma_split_len(ranked(children), t);
    crate::sorting::lemma_stable_sort_permutation(children, by_size_desc());
    assert(ranked(children).to_multiset().len() == children.to_multiset().len());
    lemma_split_multiset(ranked(children), t);
}

proof fn lemma_split_multiset(s: Seq<FsEntry>, total: nat)
    ensures
        s.filter(major_in(total)).to_multiset().add(s.filter(minor_in(total)).to_multiset())
            == s.to_multiset(),
    decreases s.len(),
{
    broadcast use vstd::seq_lib::group_to_multiset_ensures;
    broadcast use vstd::multiset::group_multiset_axioms;

    reveal(Seq::filter);
    if s.len() > 0 {
        lemma_split_multiset(s.drop_last(), total);
        assert(s.drop_last().push(s.last()) =~= s);
        assert(s.filter(major_in(total)).to_multiset().add(s.filter(minor_in(total)).to_multiset())
            =~= s.to_multiset());
    }
}

fn slice_label_text(c: &FsEntry) -> (r: String)
    ensures
        r@ == slice_label(*c),
{
    proof {
        reveal_strlit(" (");
        reveal_strlit(")");
    }
    let mut label = c.name.clone();
    label.append(" (");
    label.append(format_size(c.size).as_str());
    label.append(")");
    label
}

fn other_label_text(size: u64) -> (r: String)
    ensures
        r@ == other_label(size as nat),
{
    proof {
        reveal_strlit("Other (");
        reveal_strlit(")");
    }
    let mut label = String::from_str("Other (");
    label.append(format_size(size).as_str());
    label.append(")");
    label
}

/// Lays out the pie chart of `children` under the title `parent_name`.
pub fn build_chart(children: &Vec<FsEntry>, parent_name: &str) -> (r: ChartResult)
    requires
        sizes_sum(children@) <= u64::MAX,
    ensures
        sizes_sum(children@) == 0 ==> r.options is None && r.label_to_path@.len() == 0
            && r.other_children@.len() == 0,
        sizes_sum(children@) > 0 ==> {
            let total = sizes_sum(children@);
            &&& r.options matches Some(chart) && chart.title@ == chart_title(parent_name@, total)
                && chart.data@.map_values(|p: PieSlice| slice_view(p)) == chart_slices(
                children@,
                total,
            )
            &&& r.label_to_path@.map_values(|p: (String, String)| pair_view(p)) == chart_links(
                children@,
                total,
            )
            &&& r.other_children@ == others(children@, total)
        },
{
    let total = match children_total(children) {
        Some(t) => t,
        None => 0,
    };
    if total == 0 {
        return ChartResult { options: None, label_to_path: Vec::new(), other_children: Vec::new() };
    }
    let ghost t = total as nat;
    let sorted = sort_by_size_desc(children);
    proof {
        lemma_sum_stable_sort(children@, by_size_desc());
    }
    let mut data: Vec<PieSlice> = Vec::new();
    let mut links: Vec<(String, String)> = Vec::new();
    let mut other_children: Vec<FsEntry> = Vec::new();
    let mut other: u64 = 0;
    let mut i: usize = 0;
    while i < sorted.len()
        invariant
            i <= sorted.len(),
            total == sizes_sum(children@),
            t == total as nat,
            sorted@ == ranked(children@),
            sizes_sum(sorted@) == total,
            other_children@ == sorted@.take(i as int).filter(minor_in(t)),
            other == sizes_sum(sorted@.take(i as int).filter(minor_in(t))),
            data@.map_values(|p: PieSlice| slice_view(p)) == sorted@.take(i as int).filter(
                major_in(t),
            ).map_values(|c: FsEntry| major_slice(c)),
            links@.map_values(|p: (String, String)| pair_view(p)) == sorted@.take(i as int).filter(
                major_in(t),
            ).filter(is_directory()).map_values(|c: FsEntry| dir_link(c)),
        decreases sorted.len() - i,
    {
        let c = &sorted[i];
        let ghost prefix = sorted@.take(i as int);
        let ghost next = sorted@.take(i + 1);
        proof {
            reveal(Seq::filter);
            assert(next.drop_last() =~= prefix);
            assert(next.last() == *c);
            lemma_sum_split(next, t);
            lemma_sum_prefix_le(sorted@, i + 1);
        }
        if is_minor(c.size, total) {
            proof {
                reveal(Seq::filter);
                assert(next.filter(minor_in(t)) == prefix.filter(minor_in(t)).push(*c));
                assert(prefix.filter(minor_in(t)).push(*c).drop_last() =~= prefix.filter(
                    minor_in(t),
                ));
                assert(next.filter(major_in(t)) == prefix.filter(major_in(t)));
            }
            other = other + c.size;
            other_children.push(c.clone());
        } else {
            let label = slice_label_text(c);
            proof {
                reveal(Seq::filter);
                assert(next.filter(minor_in(t)) == prefix.filter(minor_in(t)));
            }
            if c.is_dir {
                let ghost before = links@;
                links.push((label.clone(), c.path.clone()));
                proof {
                    reveal(Seq::filter);
                    assert(next.filter(major_in(t)) == prefix.filter(major_in(t)).push(*c));
                    assert(prefix.filter(major_in(t)).push(*c).drop_last() =~= prefix.filter(
                        major_in(t),
                    ));
                    assert(links@.map_values(|p: (String, String)| pair_view(p)) =~= before.map_values(
                        |p: (String, String)| pair_view(p),
                    ).push(dir_link(*c)));
                }
            } else {
                proof {
                    reveal(Seq::filter);
                    assert(next.filter(major_in(t)) == prefix.filter(major_in(t)).push(*c));
                    assert(prefix.filter(major_in(t)).push(*c).drop_last() =~= prefix.filter(
                        major_in(t),
                    ));
                }
            }
            let ghost before_data = data@;
            data.push(PieSlice { value: c.size, name: label });
            proof {
                assert(data@.map_values(|p: PieSlice| slice_view(p)) =~= before_data.map_values(
                    |p: PieSlice| slice_view(p),
                ).push(major_slice(*c)));
            }
        }
        i = i + 1;
    }
    proof {
        assert(sorted@.take(i as int) =~= sorted@);
    }
    if other > 0 {
        let label = other_label_text(other);
        let marker = other_marker_text();
        let ghost before_links = links@;
        let ghost before_data = data@;
        links.push((label.clone(), marker));
        data.push(PieSlice { value: other, name: label });
        proof {
            assert(links@.map_values(|p: (String, String)| pair_view(p)) =~= before_links.map_values(
                |p: (String, String)| pair_view(p),
            ) + seq![(other_label(other as nat), other_marker())]);
            assert(data@.map_values(|p: PieSlice| slice_view(p)) =~= before_data.map_values(
                |p: PieSlice| slice_view(p),
            ) + seq![(other as nat, other_label(other as nat))]);
        }
    } else {
        proof {
            assert(links@.map_values(|p: (String, String)| pair_view(p)) =~= links@.map_values(
                |p: (String, String)| pair_view(p),
            ) + Seq::<(Seq<char>, Seq<char>)>::empty());
            assert(data@.map_values(|p: PieSlice| slice_view(p)) =~= data@.map_values(
                |p: PieSlice| slice_view(p),
            ) + Seq::<(nat, Seq<char>)>::empty());
        }
    }
    let title = chart_title_text(parent_name, total);
    ChartResult {
        options: Some(PieChart { title, data }),
        label_to_path: links,
        other_children,
    }
}

fn other_marker_text() -> (r: String)
    ensures
        r@ == other_marker(),
{
    proof {
        reveal_strlit("__OTHER__");
    }
    String::from_str("__OTHER__")
}

fn chart_title_text(parent_name: &str, total: u64) -> (r: String)
    ensures
        r@ == chart_title(parent_name@, total as nat),
{
    proof {
        reveal_strlit(" \u{2014} ");
    }
    let mut title = String::from_str(parent_name);
    title.append(" \u{2014} ");
    title.append(format_size(total).as_str());
    title
}

} // verus!
