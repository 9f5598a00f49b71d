//! Directory entries and the order in which a listing shows them.

use vstd::prelude::*;
use crate::sorting::{
    stable_sort, total_preorder, sorted_by, lemma_stable_sort_sorted, lemma_sort_map, merge_sort,
    order_of, ListOrder,
};
use crate::text::{lex_le, lowercase_of, to_lowercase, chars_of, lex_le_chars, lemma_lex_total, lemma_lex_transitive};

verus! {

/// One child of a directory: its full path, its file name, its size in
/// bytes (0 for anything but a regular file until a scan fills it in) and
/// whether it is a directory.
#[derive(Debug)]
pub struct FsEntry {
    pub path: String,
    pub name: String,
    pub size: u64,
    pub is_dir: bool,
}

impl Clone for FsEntry {
    fn clone(&self) -> (r: Self)
        ensures
            r == *self,
    {
        FsEntry {
            path: self.path.clone(),
            name: self.name.clone(),
            size: self.size,
            is_dir: self.is_dir,
        }
    }
}

/// What a directory listing reports of one child, before it becomes an
/// `FsEntry`: the length is that of the metadata, whatever the kind.
#[derive(Debug)]
pub struct ListedEntry {
    pub path: String,
    pub name: String,
    pub is_file: bool,
    pub is_dir: bool,
    pub len: u64,
}

/// The entry a listed child becomes: only a regular file counts its length.
pub open spec fn entry_of(l: ListedEntry) -> FsEntry {
    FsEntry {
        path: l.path,
        name: l.name,
        size: if l.is_file { l.len } else { 0 },
        is_dir: l.is_dir,
    }
}

/// The key by which a listing is ordered: the lowercased name.
pub open spec fn name_key(e: FsEntry) -> Seq<char> {
    lowercase_of(e.name@)
}

/// Listing order: by lowercased name, code point by code point.
pub open spec fn by_name() -> spec_fn(FsEntry, FsEntry) -> bool {
    |a: FsEntry, b: FsEntry| lex_le(name_key(a), name_key(b))
}

/// The listing order is a total preorder.
pub proof fn lemma_by_name_total_preorder()
    ensures
        total_preorder(by_name()),
{
    assert forall|a: FsEntry, b: FsEntry| #[trigger] by_name()(a, b) || by_name()(b, a) by {
        lemma_lex_total(name_key(a), name_key(b));
    }
    assert forall|a: FsEntry, b: FsEntry, c: FsEntry|
        #[trigger] by_name()(a, b) && #[trigger] by_name()(b, c) implies by_name()(a, c) by {
        lemma_lex_transitive(name_key(a), name_key(b), name_key(c));
    }
}

impl ListedEntry {
    /// The entry this listed child becomes.
    pub fn to_entry(&self) -> (r: FsEntry)
        ensures
            r == entry_of(*self),
    {
        FsEntry {
            path: self.path.clone(),
            name: self.name.clone(),
            size: if self.is_file { self.len } else { 0 },
            is_dir: self.is_dir,
        }
    }
}

/// An order on entries, carried by a wrapper type that can be sorted.
pub trait EntryOrder: ListOrder {
    /// The entry a wrapper holds.
    spec fn entry(self) -> FsEntry;

    /// The order on entries that the wrapper's order carries.
    spec fn entry_order() -> spec_fn(FsEntry, FsEntry) -> bool;

    fn wrap(e: FsEntry) -> (w: Self)
        ensures
            w.entry() == e,
    ;

    fn into_entry(self) -> (e: FsEntry)
        ensures
            e == self.entry(),
    ;

    proof fn lemma_order_carried(a: Self, b: Self)
        ensures
            a.goes_before(b) == Self::entry_order()(a.entry(), b.entry()),
    ;
}

/// `entries` stably sorted by the order that `W` carries.
pub fn sort_entries<W: EntryOrder>(entries: &Vec<FsEntry>) -> (r: Vec<FsEntry>)
    ensures
        r@ == stable_sort(entries@, W::entry_order()),
{
    let ghost unwrap = |w: W| w.entry();
    let mut wrapped: Vec<W> = Vec::new();
    let mut i: usize = 0;
    while i < entries.len()
        invariant
            i <= entries.len(),
            unwrap == (|w: W| w.entry()),
            wrapped@.map_values(unwrap) == entries@.take(i as int),
        decreases entries.len() - i,
    {
        let ghost before_push = wrapped@;
        wrapped.push(W::wrap(entries[i].clone()));
        assert(wrapped@.map_values(unwrap) =~= before_push.map_values(unwrap).push(
            entries@[i as int],
        ));
        assert(entries@.take(i + 1) =~= entries@.take(i as int).push(entries@[i as int]));
        i = i + 1;
    }
    assert(entries@.take(i as int) =~= entries@);
    let ghost wrapped_view = wrapped@;
    let sorted = merge_sort(wrapped);
    let ghost sorted_view = sorted@;
    let mut r: Vec<FsEntry> = Vec::new();
    broadcast use vstd::std_specs::vec::axiom_spec_into_iter;
    for w in it: sorted
        invariant
            unwrap == (|w: W| w.entry()),
            it.seq() == sorted_view,
            r@ == it.seq().take(it.index() as int).map_values(unwrap),
    {
        r.push(w.into_entry());
        assert(r@ =~= it.seq().take(it.index() + 1).map_values(unwrap));
    }
    assert(sorted_view.take(sorted_view.len() as int) =~= sorted_view);
    proof {
        assert forall|p: W, q: W| #[trigger] order_of::<W>()(p, q) == W::entry_order()(
            unwrap(p),
            unwrap(q),
        ) by {
            W::lemma_order_carried(p, q);
        }
        lemma_sort_map(wrapped_view, unwrap, order_of::<W>(), W::entry_order());
        assert(wrapped_view.map_values(unwrap) == entries@);
    }
    r
}

/// An entry taken in listing order.
pub struct ByName(pub FsEntry);

impl ListOrder for ByName {
    open spec fn goes_before(self, other: Self) -> bool {
        lex_le(name_key(self.0), name_key(other.0))
    }

    proof fn lemma_goes_before_total(a: Self, b: Self) {
        lemma_lex_total(name_key(a.0), name_key(b.0));
    }

    proof fn lemma_goes_before_transitive(a: Self, b: Self, c: Self) {
        lemma_lex_transitive(name_key(a.0), name_key(b.0), name_key(c.0));
    }

    fn precedes(&self, other: &Self) -> (r: bool) {
        let a = to_lowercase(self.0.name.as_str());
        let b = to_lowercase(other.0.name.as_str());
        lex_le_chars(&chars_of(a.as_str()), &chars_of(b.as_str()))
    }

    fn duplicate(&self) -> (r: Self) {
        ByName(self.0.clone())
    }
}

impl EntryOrder for ByName {
    open spec fn entry(self) -> FsEntry {
        self.0
    }

    open spec fn entry_order() -> spec_fn(FsEntry, FsEntry) -> bool {
        by_name()
    }

    fn wrap(e: FsEntry) -> (w: Self) {
        ByName(e)
    }

    fn into_entry(self) -> (e: FsEntry) {
        self.0
    }

    proof fn lemma_order_carried(a: Self, b: Self) {
    }
}

/// The children of a directory as the explorer shows them: each listed child
/// as an entry, stably sorted by lowercased name.
pub fn list_children(listing: &Vec<ListedEntry>) -> (r: Vec<FsEntry>)
    ensures
        r@ == stable_sort(listing@.map_values(|l: ListedEntry| entry_of(l)), by_name()),
        sorted_by(r@, by_name()),
        r@.to_multiset() == listing@.map_values(|l: ListedEntry| entry_of(l)).to_multiset(),
{
    let ghost input = listing@.map_values(|l: ListedEntry| entry_of(l));
    let mut entries: Vec<FsEntry> = Vec::new();
    let mut i: usize = 0;
    while i < listing.len()
        invariant
            i <= listing.len(),
            input == listing@.map_values(|l: ListedEntry| entry_of(l)),
            entries@ == input.take(i as int),
        decreases listing.len() - i,
    {
        entries.push(listing[i].to_entry());
        assert(entries@ =~= input.take(i + 1));
        i = i + 1;
    }
    assert(input.take(i as int) =~= input);
    let r = sort_entries::<ByName>(&entries);
    proof {
        lemma_by_name_total_preorder();
        lemma_stable_sort_sorted(input, by_name());
        crate::sorting::lemma_stable_sort_permutation(input, by_name());
    }
    r
}

} // verus!
