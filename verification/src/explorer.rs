//! The explorer's state between commands, and what each command does to it:
//! which directory is shown, the way back, the listings read so far, and how
//! many size scans are under way. The file-system work itself (listing,
//! removing, measuring) happens outside; each step here takes its outcome.

use vstd::prelude::*;
use crate::cache::ListingCache;
use crate::entry::FsEntry;
use crate::chart::is_directory;
use crate::listing_ops::{first_with_path, remove_path, set_size_of, with_size_of, without_path};
use crate::paths::{components_of, named_pieces, parent_of, path_parent, portable, rooted};
use crate::reports::{clean_message, clean_report, deleted_message, prefixed};

verus! {

/// The abstract state of the explorer.
pub struct ExplorerView {
    pub current: Option<Seq<char>>,
    pub nav: Seq<Seq<char>>,
    /// The listings read, keyed by the components of their directory's path.
    pub cache: Map<Seq<Seq<char>>, Seq<FsEntry>>,
    pub scanning: nat,
    /// The path texts that the held listings were first stored under.
    pub read_at: Set<Seq<char>>,
}

/// The explorer's state.
pub struct Explorer {
    current_path: Option<String>,
    nav_stack: Vec<String>,
    children_cache: ListingCache,
    scanning_count: usize,
}

/// What cleaning a directory came to on disk.
#[derive(Debug)]
pub enum CleanOutcome {
    /// The path is not a directory; nothing was touched.
    NotADirectory,
    /// The directory could not be read, for this reason; nothing was touched.
    CannotRead(String),
    /// `count` children were removed; each failure names a child and why.
    Cleaned { count: usize, failures: Vec<(String, String)> },
}

/// The directories among `children`, in order.
pub open spec fn dirs_of(children: Seq<FsEntry>) -> Seq<FsEntry> {
    children.filter(is_directory())
}

/// The listing held for the directory at `path`, or none.
pub open spec fn held(cache: Map<Seq<Seq<char>>, Seq<FsEntry>>, path: Seq<char>) -> Seq<FsEntry> {
    let key = components_of(path);
    if cache.contains_key(key) {
        cache[key]
    } else {
        Seq::empty()
    }
}

/// The cache after `target` was deleted: its entry gone from its parent's
/// listing, and its own listing forgotten.
pub open spec fn after_delete(cache: Map<Seq<Seq<char>>, Seq<FsEntry>>, target: Seq<char>) -> Map<
    Seq<Seq<char>>,
    Seq<FsEntry>,
> {
    let pruned = match parent_of(target) {
        Some(p) => {
            let kp = components_of(p);
            if cache.contains_key(kp) {
                cache.insert(kp, without_path(cache[kp], target))
            } else {
                cache
            }
        },
        None => cache,
    };
    pruned.remove(components_of(target))
}

/// The cache after `target` was emptied: its own listing forgotten, and its
/// entry in its parent's listing at size 0.
pub open spec fn after_clean(cache: Map<Seq<Seq<char>>, Seq<FsEntry>>, target: Seq<char>) -> Map<
    Seq<Seq<char>>,
    Seq<FsEntry>,
> {
    let forgotten = cache.remove(components_of(target));
    match parent_of(target) {
        Some(p) => {
            let kp = components_of(p);
            if forgotten.contains_key(kp) {
                forgotten.insert(kp, with_size_of(forgotten[kp], target, 0))
            } else {
                forgotten
            }
        },
        None => forgotten,
    }
}

/// The cache after a scan found that `child` under `parent` holds `size`
/// bytes.
pub open spec fn after_size_found(
    cache: Map<Seq<Seq<char>>, Seq<FsEntry>>,
    parent: Seq<char>,
    child: Seq<char>,
    size: u64,
) -> Map<Seq<Seq<char>>, Seq<FsEntry>> {
    let kp = components_of(parent);
    if cache.contains_key(kp) {
        cache.insert(kp, with_size_of(cache[kp], child, size))
    } else {
        cache
    }
}

/// The state after entering `target`.
pub open spec fn entered(v: ExplorerView, target: Seq<char>) -> ExplorerView {
    ExplorerView {
        current: Some(target),
        nav: match v.current {
            Some(c) => v.nav.push(c),
            None => v.nav,
        },
        ..v
    }
}

/// The state after going back, where there is a way back.
pub open spec fn went_back(v: ExplorerView) -> ExplorerView {
    if v.nav.len() == 0 {
        v
    } else {
        ExplorerView { current: Some(v.nav.last()), nav: v.nav.drop_last(), ..v }
    }
}

/// The count of scans under way after one of them reports.
pub open spec fn one_reported(scanning: nat) -> nat {
    if scanning > 0 {
        (scanning - 1) as nat
    } else {
        0
    }
}

/// The count of scans under way after `n` of them report.
pub open spec fn reported(scanning: nat, n: nat) -> nat
    decreases n,
{
    if n == 0 {
        scanning
    } else {
        reported(one_reported(scanning), (n - 1) as nat)
    }
}

/// One change to the count of scans under way: `Some(n)` where scans start
/// for `n` directories (`begin_size_scans`, through `open_folder` or
/// `store_listing`), `None` where one scan reports (`apply_size_update`).
pub open spec fn scan_step(scanning: nat, step: Option<nat>) -> nat {
    match step {
        Some(n) => scanning + n,
        None => one_reported(scanning),
    }
}

/// The count of scans under way after the steps, in order.
pub open spec fn scans_after(scanning: nat, steps: Seq<Option<nat>>) -> nat
    decreases steps.len(),
{
    if steps.len() == 0 {
        scanning
    } else {
        scan_step(scans_after(scanning, steps.drop_last()), steps.last())
    }
}

/// How many scans the steps start.
pub open spec fn scans_started(steps: Seq<Option<nat>>) -> nat
    decreases steps.len(),
{
    if steps.len() == 0 {
        0
    } else {
        scans_started(steps.drop_last()) + match steps.last() {
            Some(n) => n,
            None => 0,
        }
    }
}

/// How many scans the steps report.
pub open spec fn scans_reported(steps: Seq<Option<nat>>) -> nat
    decreases steps.len(),
{
    if steps.len() == 0 {
        0
    } else {
        scans_reported(steps.drop_last()) + if steps.last() is None {
            1nat
        } else {
            0nat
        }
    }
}

/// Every report comes from a scan that has started: at no point have more
/// scans reported than started.
pub open spec fn reports_follow_starts(steps: Seq<Option<nat>>) -> bool {
    forall|k: int|
        0 <= k <= steps.len() ==> scans_reported(#[trigger] steps.take(k)) <= scans_started(
            steps.take(k),
        )
}

proof fn lemma_scans_pending_step(steps: Seq<Option<nat>>)
    requires
        reports_follow_starts(steps),
    ensures
        scans_after(0, steps) == scans_started(steps) - scans_reported(steps),
        steps.len() > 0 && steps.last() is None ==> scans_after(0, steps.drop_last()) > 0,
    decreases steps.len(),
{
    if steps.len() > 0 {
        let rest = steps.drop_last();
        assert forall|k: int| 0 <= k <= rest.len() implies scans_reported(#[trigger] rest.take(k))
            <= scans_started(rest.take(k)) by {
            assert(rest.take(k) =~= steps.take(k));
        }
        lemma_scans_pending_step(rest);
        assert(steps.take(steps.len() as int) =~= steps);
        assert(scans_reported(steps.take(steps.len() as int)) <= scans_started(
            steps.take(steps.len() as int),
        ));
    }
}

/// Whatever order starts and reports come in (each step is one call on the
/// explorer, made under its lock), as long as every report comes from a
/// scan already started, the count of scans under way, starting from none,
/// is the number started and not yet reported; no report finds the count at
/// 0, so the count never clamps, and `is_scanning` holds exactly while some
/// scan is pending.
pub proof fn lemma_scans_count_pending(steps: Seq<Option<nat>>)
    requires
        reports_follow_starts(steps),
    ensures
        scans_after(0, steps) == scans_started(steps) - scans_reported(steps),
        forall|k: int|
            0 <= k < steps.len() && steps[k] is None ==> scans_after(0, #[trigger] steps.take(k))
                > 0,
{
    lemma_scans_pending_step(steps);
    assert forall|k: int| 0 <= k < steps.len() && steps[k] is None implies scans_after(
        0,
        #[trigger] steps.take(k),
    ) > 0 by {
        let prefix = steps.take(k + 1);
        assert forall|j: int| 0 <= j <= prefix.len() implies scans_reported(
            #[trigger] prefix.take(j),
        ) <= scans_started(prefix.take(j)) by {
            assert(prefix.take(j) =~= steps.take(j));
        }
        lemma_scans_pending_step(prefix);
        assert(prefix.drop_last() =~= steps.take(k));
        assert(prefix.last() == steps[k]);
    }
}

/// Going back after entering a directory returns to the directory shown
/// before, with the same way back, listings and scans.
pub proof fn lemma_back_undoes_enter(v: ExplorerView, target: Seq<char>)
    requires
        v.current is Some,
    ensures
        went_back(entered(v, target)) == v,
{
    let c = v.current->0;
    assert(v.nav.push(c).drop_last() =~= v.nav);
}

/// Once each of the `n` scans started for a listing has reported, the count
/// of scans under way is what it was before they started.
pub proof fn lemma_scans_settle(before: nat, n: nat)
    ensures
        reported(before + n, n) == before,
    decreases n,
{
    if n > 0 {
        assert(one_reported(before + n) == before + (n - 1) as nat);
        lemma_scans_settle(before, (n - 1) as nat);
    }
}

/// After a delete, the deleted path has no listing of its own and no entry
/// in its parent's listing.
pub proof fn lemma_deleted_is_gone(cache: Map<Seq<Seq<char>>, Seq<FsEntry>>, target: Seq<char>)
    ensures
        !after_delete(cache, target).contains_key(components_of(target)),
        parent_of(target) matches Some(p) ==> (cache.contains_key(components_of(p))
            && components_of(p) != components_of(target) ==> forall|i: int|
            0 <= i < after_delete(cache, target)[components_of(p)].len() ==> (
            #[trigger] after_delete(cache, target)[components_of(p)][i]).path@ != target),
{
    if let Some(p) = parent_of(target) {
        let kp = components_of(p);
        if cache.contains_key(kp) && kp != components_of(target) {
            let kept = without_path(cache[kp], target);
            assert(after_delete(cache, target)[kp] == kept);
            assert forall|i: int| 0 <= i < kept.len() implies (#[trigger] kept[i]).path@ != target by {
                cache[kp].lemma_filter_pred(crate::listing_ops::path_is_not(target), i);
            }
        }
    }
}

/// After a clean, the cleaned directory's listing is forgotten and its entry
/// in its parent's listing shows size 0.
pub proof fn lemma_cleaned_is_empty(cache: Map<Seq<Seq<char>>, Seq<FsEntry>>, target: Seq<char>)
    ensures
        !after_clean(cache, target).contains_key(components_of(target)),
        parent_of(target) matches Some(p) ==> (cache.contains_key(components_of(p))
            && components_of(p) != components_of(target) ==> {
            let kp = components_of(p);
            let listing = after_clean(cache, target)[kp];
            &&& listing.len() == cache[kp].len()
            &&& first_with_path(cache[kp], target) matches Some(i) ==> listing[i].size == 0
                && listing[i].path == cache[kp][i].path
        }),
{
    if let Some(p) = parent_of(target) {
        let kp = components_of(p);
        if cache.contains_key(kp) && kp != components_of(target) {
            crate::listing_ops::lemma_first_with_path_found(cache[kp], target);
            crate::listing_ops::lemma_with_size_of(cache[kp], target, 0);
        }
    }
}

/// After a scan reports, the scanned child's entry shows the size found.
pub proof fn lemma_size_found_recorded(
    cache: Map<Seq<Seq<char>>, Seq<FsEntry>>,
    parent: Seq<char>,
    child: Seq<char>,
    size: u64,
)
    requires
        cache.contains_key(components_of(parent)),
    ensures
        after_size_found(cache, parent, child, size)[components_of(parent)].len()
            == cache[components_of(parent)].len(),
        first_with_path(cache[components_of(parent)], child) matches Some(i) ==> after_size_found(
            cache,
            parent,
            child,
            size,
        )[components_of(parent)][i].size == size,
{
    let kp = components_of(parent);
    crate::listing_ops::lemma_first_with_path_found(cache[kp], child);
    crate::listing_ops::lemma_with_size_of(cache[kp], child, size);
}

/// How many of `children` are directories.
pub fn count_dirs(children: &Vec<FsEntry>) -> (r: usize)
    ensures
        r == dirs_of(children@).len(),
{
    let mut n: usize = 0;
    let mut i: usize = 0;
    while i < children.len()
        invariant
            i <= children@.len(),
            n == children@.take(i as int).filter(is_directory()).len(),
            n <= i,
        decreases children.len() - i,
    {
        proof {
            reveal(Seq::filter);
            assert(children@.take(i + 1).drop_last() =~= children@.take(i as int));
            assert(children@.take(i + 1).last() == children@[i as int]);
        }
        if children[i].is_dir {
            n = n + 1;
        }
        i = i + 1;
    }
    assert(children@.take(i as int) =~= children@);
    n
}

/// Filtering keeps exactly the elements that pass: an element is in the
/// result iff it is in the sequence and passes.
proof fn lemma_filter_membership<A>(s: Seq<A>, p: spec_fn(A) -> bool)
    ensures
        forall|e: A| #[trigger] s.filter(p).contains(e) <==> (s.contains(e) && p(e)),
{
    crate::sorting::lemma_filter_subset(s, p);
    assert forall|e: A| #[trigger] s.filter(p).contains(e) <==> (s.contains(e) && p(e)) by {
        if s.filter(p).contains(e) {
            let i = choose|i: int| 0 <= i < s.filter(p).len() && s.filter(p)[i] == e;
            s.lemma_filter_pred(p, i);
            assert(s.contains(s.filter(p)[i]));
        }
        if s.contains(e) && p(e) {
            let i = choose|i: int| 0 <= i < s.len() && s[i] == e;
            s.lemma_filter_contains(p, i);
        }
    }
}

/// Starting scans hands out every directory among the children and nothing
/// else: a child is handed out iff it is a directory.
pub proof fn lemma_every_directory_scanned(children: Seq<FsEntry>)
    ensures
        forall|e: FsEntry| #[trigger] dirs_of(children).contains(e) <==> (children.contains(e) && e.is_dir),
        dirs_of(children).len() <= children.len(),
{
    lemma_filter_membership(children, is_directory());
    children.lemma_filter_len(is_directory());
}

/// A delete drops from its parent's listing the entries with the deleted
/// path and no other: an entry stays iff it was there and its path is not
/// the deleted one. Every other listing is left as it was.
pub proof fn lemma_delete_drops_only_the_deleted(
    cache: Map<Seq<Seq<char>>, Seq<FsEntry>>,
    target: Seq<char>,
)
    ensures
        parent_of(target) matches Some(p) ==> (cache.contains_key(components_of(p))
            && components_of(p) != components_of(target) ==> {
            let kp = components_of(p);
            &&& after_delete(cache, target).contains_key(kp)
            &&& forall|e: FsEntry| #[trigger] after_delete(cache, target)[kp].contains(e) <==> (
            cache[kp].contains(e) && e.path@ != target)
            &&& after_delete(cache, target)[kp].len() <= cache[kp].len()
        }),
        forall|k: Seq<Seq<char>>|
            k != components_of(target) && (parent_of(target) matches Some(p) ==> k
                != components_of(p)) ==> (#[trigger] after_delete(cache, target).contains_key(k)
                == cache.contains_key(k) && (cache.contains_key(k) ==> after_delete(cache, target)[k]
                == cache[k])),
{
    if let Some(p) = parent_of(target) {
        let kp = components_of(p);
        if cache.contains_key(kp) && kp != components_of(target) {
            let pred = crate::listing_ops::path_is_not(target);
            lemma_filter_membership(cache[kp], pred);
            cache[kp].lemma_filter_len(pred);
            assert(after_delete(cache, target)[kp] == cache[kp].filter(pred));
        }
    }
}

/// A clean sets to 0 the size of the cleaned directory's entry in its
/// parent's listing (the first entry with that path) and changes nothing
/// else there: every other entry keeps its size, and every entry keeps its
/// path, name and kind. Every other listing but the cleaned directory's own
/// is left as it was.
pub proof fn lemma_clean_zeroes_only_the_cleaned(
    cache: Map<Seq<Seq<char>>, Seq<FsEntry>>,
    target: Seq<char>,
)
    ensures
        parent_of(target) matches Some(p) ==> (cache.contains_key(components_of(p))
            && components_of(p) != components_of(target) ==> {
            let kp = components_of(p);
            let before = cache[kp];
            let after = after_clean(cache, target)[kp];
            &&& after_clean(cache, target).contains_key(kp)
            &&& after.len() == before.len()
            &&& forall|j: int|
                0 <= j < before.len() ==> (#[trigger] after[j]).path == before[j].path
                    && after[j].name == before[j].name && after[j].is_dir == before[j].is_dir
            &&& forall|j: int|
                0 <= j < before.len() && (before[j].path@ != target || exists|k: int|
                    0 <= k < j && (#[trigger] before[k]).path@ == target) ==> (
                #[trigger] after[j]).size == before[j].size
            &&& forall|j: int|
                0 <= j < before.len() && before[j].path@ == target && (forall|k: int|
                    0 <= k < j ==> (#[trigger] before[k]).path@ != target) ==> (
                #[trigger] after[j]).size == 0
        }),
        forall|k: Seq<Seq<char>>|
            k != components_of(target) && (parent_of(target) matches Some(p) ==> k
                != components_of(p)) ==> (#[trigger] after_clean(cache, target).contains_key(k)
                == cache.contains_key(k) && (cache.contains_key(k) ==> after_clean(cache, target)[k]
                == cache[k])),
{
    if let Some(p) = parent_of(target) {
        let kp = components_of(p);
        if cache.contains_key(kp) && kp != components_of(target) {
            let before = cache[kp];
            assert(cache.remove(components_of(target))[kp] == before);
            crate::listing_ops::lemma_first_with_path_found(before, target);
            crate::listing_ops::lemma_with_size_of(before, target, 0);
            let after = after_clean(cache, target)[kp];
            assert(after == with_size_of(before, target, 0));
            assert forall|j: int|
                0 <= j < before.len() && (before[j].path@ != target || exists|k: int|
                    0 <= k < j && (#[trigger] before[k]).path@ == target) implies (
            #[trigger] after[j]).size == before[j].size by {
                if first_with_path(before, target) == Some(j) {
                    if before[j].path@ == target {
                        let k = choose|k: int| 0 <= k < j && (#[trigger] before[k]).path@ == target;
                        assert(before[k].path@ != target);
                    }
                }
            }
            assert forall|j: int|
                0 <= j < before.len() && before[j].path@ == target && (forall|k: int|
                    0 <= k < j ==> (#[trigger] before[k]).path@ != target) implies (
            #[trigger] after[j]).size == 0 by {
                match first_with_path(before, target) {
                    Some(i) => {
                        if i < j {
                            assert(before[i].path@ != target);
                        } else if i > j {
                            assert(before[j].path@ != target);
                        }
                    },
                    None => {
                        assert(before[j].path@ != target);
                    },
                }
            }
        }
    }
}

impl View for Explorer {
    type V = ExplorerView;

    closed spec fn view(&self) -> ExplorerView {
        ExplorerView {
            current: match self.current_path {
                Some(p) => Some(p@),
                None => None,
            },
            nav: self.nav_stack@.map_values(|p: String| p@),
            cache: self.children_cache@,
            scanning: self.scanning_count as nat,
            read_at: Set::new(|q: Seq<char>| self.children_cache.was_read_at(q)),
        }
    }
}

impl Explorer {
    /// No directory's listing is held twice.
    pub closed spec fn cache_wf(&self) -> bool {
        self.children_cache.wf()
    }

    /// The explorer is well formed: its listings are held once each, and the
    /// count of scans under way fits in a `usize`.
    pub open spec fn wf(&self) -> bool {
        &&& self.cache_wf()
        &&& self@.scanning <= usize::MAX
    }

    /// The explorer before any folder is opened.
    pub fn new() -> (r: Self)
        ensures
            r.wf(),
            r@.current is None,
            r@.nav.len() == 0,
            r@.cache == Map::<Seq<Seq<char>>, Seq<FsEntry>>::empty(),
            r@.scanning == 0,
    {
        let r = Explorer {
            current_path: None,
            nav_stack: Vec::new(),
            children_cache: ListingCache::new(),
            scanning_count: 0,
        };
        assert(r@.nav =~= Seq::<Seq<char>>::empty());
        r
    }

    /// Whether any size scan is under way.
    pub fn is_scanning(&self) -> (r: bool)
        ensures
            r == (self@.scanning > 0),
    {
        self.scanning_count > 0
    }

    /// How many size scans are under way.
    pub fn scans_under_way(&self) -> (r: usize)
        ensures
            r == self@.scanning,
    {
        self.scanning_count
    }

    /// Whether there is a directory to go back to.
    pub fn has_back_history(&self) -> (r: bool)
        ensures
            r == (self@.nav.len() > 0),
    {
        self.nav_stack.len() > 0
    }

    /// Counts a size scan for each directory among `children` as under way,
    /// and hands those directories out to be scanned.
    pub fn begin_size_scans(&mut self, children: &Vec<FsEntry>) -> (dirs: Vec<FsEntry>)
        requires
            old(self).wf(),
            old(self)@.scanning + dirs_of(children@).len() <= usize::MAX,
        ensures
            final(self).wf(),
            dirs@ == dirs_of(children@),
            final(self)@ == (ExplorerView {
                scanning: scan_step(old(self)@.scanning, Some(dirs@.len())),
                ..old(self)@
            }),
    {
        let mut dirs: Vec<FsEntry> = Vec::new();
        let mut i: usize = 0;
        while i < children.len()
            invariant
                i <= children@.len(),
                dirs@ == children@.take(i as int).filter(is_directory()),
            decreases children.len() - i,
        {
            proof {
                reveal(Seq::filter);
                assert(children@.take(i + 1).drop_last() =~= children@.take(i as int));
                assert(children@.take(i + 1).last() == children@[i as int]);
            }
            if children[i].is_dir {
                dirs.push(children[i].clone());
            }
            i = i + 1;
        }
        assert(children@.take(i as int) =~= children@);
        self.scanning_count = self.scanning_count + dirs.len();
        dirs
    }

    /// Opens `folder`, whose children were just listed: the way back and all
    /// listings are forgotten, and scans start for its directories.
    pub fn open_folder(&mut self, folder: String, children: Vec<FsEntry>) -> (dirs: Vec<FsEntry>)
        requires
            old(self).wf(),
            old(self)@.scanning + dirs_of(children@).len() <= usize::MAX,
        ensures
            final(self).wf(),
            final(self)@.current == Some(folder@),
            final(self)@.nav.len() == 0,
            final(self)@.cache == Map::<Seq<Seq<char>>, Seq<FsEntry>>::empty().insert(components_of(folder@), children@),
            final(self)@.scanning == old(self)@.scanning + dirs@.len(),
            dirs@ == dirs_of(children@),
    {
        self.nav_stack = Vec::new();
        self.children_cache.clear();
        self.current_path = Some(folder.clone());
        let dirs = self.begin_size_scans(&children);
        self.children_cache.insert(&folder, children);
        assert(self@.nav =~= Seq::<Seq<char>>::empty());
        dirs
    }

    /// Enters `target`: the shown directory, if any, becomes the way back.
    /// Gives the listing held for `target`, or none where it must be read.
    pub fn navigate_into(&mut self, target: String) -> (r: Option<Vec<FsEntry>>)
        requires
            old(self).wf(),
        ensures
            final(self).wf(),
            final(self)@ == entered(old(self)@, target@),
            r is Some <==> old(self)@.cache.contains_key(components_of(target@)),
            r matches Some(v) ==> v@ == old(self)@.cache[components_of(target@)],
            r is Some ==> exists|q: Seq<char>|
                #[trigger] old(self)@.read_at.contains(q) && components_of(q) == components_of(
                    target@,
                ) && (portable(q) && rooted(q) && portable(target@) && rooted(target@)
                    ==> named_pieces(q) == named_pieces(target@)),
    {
        let ghost nav_before = self.nav_stack@;
        match &self.current_path {
            Some(cur) => {
                self.nav_stack.push(cur.clone());
                assert(self.nav_stack@.map_values(|p: String| p@) =~= nav_before.map_values(
                    |p: String| p@,
                ).push(cur@));
            },
            None => {},
        }
        let cached = self.children_cache.get(&target);
        proof {
            if cached is Some {
                let q = choose|q: Seq<char>|
                    #[trigger] self.children_cache.was_read_at(q) && components_of(q)
                        == components_of(target@) && (portable(q) && rooted(q) && portable(target@)
                        && rooted(target@) ==> named_pieces(q) == named_pieces(target@));
                assert(old(self)@.read_at.contains(q));
            }
        }
        self.current_path = Some(target);
        cached
    }

    /// Holds the listing just read for `target` and starts scans for its
    /// directories.
    pub fn store_listing(&mut self, target: String, children: Vec<FsEntry>) -> (dirs: Vec<FsEntry>)
        requires
            old(self).wf(),
            old(self)@.scanning + dirs_of(children@).len() <= usize::MAX,
        ensures
            final(self).wf(),
            final(self)@.current == old(self)@.current,
            final(self)@.nav == old(self)@.nav,
            final(self)@.cache == old(self)@.cache.insert(components_of(target@), children@),
            final(self)@.scanning == old(self)@.scanning + dirs@.len(),
            dirs@ == dirs_of(children@),
    {
        let dirs = self.begin_size_scans(&children);
        self.children_cache.insert(&target, children);
        dirs
    }

    /// Goes back to the directory shown before: gives its path and the
    /// listing held for it (none held: no children), or nothing where there
    /// is no way back.
    pub fn navigate_back(&mut self) -> (r: Option<(String, Vec<FsEntry>)>)
        requires
            old(self).wf(),
        ensures
            final(self).wf(),
            final(self)@ == went_back(old(self)@),
            old(self)@.nav.len() == 0 ==> r is None,
            old(self)@.nav.len() > 0 ==> {
                let prev = old(self)@.nav.last();
                r matches Some(back) && back.0@ == prev && back.1@ == held(old(self)@.cache, prev)
            },
    {
        let ghost nav_before = self.nav_stack@;
        match self.nav_stack.pop() {
            None => None,
            Some(prev) => {
                assert(self.nav_stack@.map_values(|p: String| p@) =~= nav_before.map_values(
                    |p: String| p@,
                ).drop_last());
                let children = match self.children_cache.get(&prev) {
                    Some(c) => c,
                    None => Vec::new(),
                };
                self.current_path = Some(prev.clone());
                Some((prev, children))
            },
        }
    }

    /// The shown directory's path and the listing held for it (none held: no
    /// children), or nothing before a folder is opened.
    pub fn get_current_view(&self) -> (r: Option<(String, Vec<FsEntry>)>)
        requires
            self.wf(),
        ensures
            self@.current is None ==> r is None,
            self@.current matches Some(cur) ==> r matches Some(view) && view.0@ == cur
                && view.1@ == held(self@.cache, cur),
    {
        match &self.current_path {
            None => None,
            Some(cur) => {
                let children = match self.children_cache.get(cur) {
                    Some(c) => c,
                    None => Vec::new(),
                };
                Some((cur.clone(), children))
            },
        }
    }

    /// Records the outcome of deleting `path` on disk: on success its entry
    /// leaves its parent's listing and its own listing is forgotten.
    pub fn delete_entry(&mut self, path: &String, outcome: Result<(), String>) -> (r: Result<
        String,
        String,
    >)
        requires
            old(self).wf(),
        ensures
            final(self).wf(),
            final(self)@.current == old(self)@.current,
            final(self)@.nav == old(self)@.nav,
            final(self)@.scanning == old(self)@.scanning,
            outcome is Ok ==> final(self)@.cache == after_delete(old(self)@.cache, path@) && (
            r matches Ok(m) && m@ == "Deleted: "@ + path@),
            outcome matches Err(e) ==> final(self)@.cache == old(self)@.cache && (r matches Err(m)
                && m@ == "Error deleting: "@ + e@),
    {
        match outcome {
            Ok(()) => {
                let parent = path_parent(path.as_str());
                match parent {
                    Some(p) => {
                        match self.children_cache.get(&p) {
                            Some(children) => {
                                let kept = remove_path(&children, path);
                                self.children_cache.insert(&p, kept);
                            },
                            None => {},
                        }
                    },
                    None => {},
                }
                self.children_cache.remove(path);
                Ok(deleted_message(path))
            },
            Err(e) => Err(prefixed("Error deleting: ", &e)),
        }
    }

    /// Records the outcome of emptying the directory `path` on disk: once it
    /// was read, its own listing is forgotten and its entry in its parent's
    /// listing is set to size 0, whatever failed.
    pub fn clean_folder(&mut self, path: &String, outcome: CleanOutcome) -> (r: Result<
        String,
        String,
    >)
        requires
            old(self).wf(),
        ensures
            final(self).wf(),
            final(self)@.current == old(self)@.current,
            final(self)@.nav == old(self)@.nav,
            final(self)@.scanning == old(self)@.scanning,
            outcome is NotADirectory ==> final(self)@.cache == old(self)@.cache && (r matches Err(m)
                && m@ == "Not a directory: "@ + path@),
            outcome matches CleanOutcome::CannotRead(e) ==> final(self)@.cache == old(self)@.cache
                && (r matches Err(m) && m@ == "Cannot read directory: "@ + e@),
            outcome matches CleanOutcome::Cleaned { count, failures } ==> {
                let report = clean_report(count as nat, path@, failures@);
                &&& final(self)@.cache == after_clean(old(self)@.cache, path@)
                &&& report.0 ==> (r matches Ok(m) && m@ == report.1)
                &&& !report.0 ==> (r matches Err(m) && m@ == report.1)
            },
    {
        match outcome {
            CleanOutcome::NotADirectory => Err(prefixed("Not a directory: ", path)),
            CleanOutcome::CannotRead(e) => Err(prefixed("Cannot read directory: ", &e)),
            CleanOutcome::Cleaned { count, failures } => {
                self.children_cache.remove(path);
                match path_parent(path.as_str()) {
                    Some(p) => {
                        match self.children_cache.get(&p) {
                            Some(children) => {
                                let mut children = children;
                                set_size_of(&mut children, path, 0);
                                self.children_cache.insert(&p, children);
                            },
                            None => {},
                        }
                    },
                    None => {},
                }
                let (ok, text) = clean_message(count, path, &failures);
                if ok {
                    Ok(text)
                } else {
                    Err(text)
                }
            },
        }
    }

    /// Records that the scan of `child`, a directory listed under `parent`,
    /// found `size` bytes: the entry takes that size and the scan is no
    /// longer under way.
    pub fn apply_size_update(&mut self, parent: &String, child: &String, size: u64)
        requires
            old(self).wf(),
        ensures
            final(self).wf(),
            final(self)@.current == old(self)@.current,
            final(self)@.nav == old(self)@.nav,
            final(self)@.cache == after_size_found(old(self)@.cache, parent@, child@, size),
            final(self)@.scanning == scan_step(old(self)@.scanning, None),
    {
        match self.children_cache.get(parent) {
            Some(children) => {
                let mut children = children;
                set_size_of(&mut children, child, size);
                self.children_cache.insert(parent, children);
            },
            None => {},
        }
        self.scanning_count = self.scanning_count.saturating_sub(1);
    }
}

} // verus!
