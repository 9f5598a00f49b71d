//! The listings the explorer has read, keyed by directory path. Two paths
//! name the same directory here exactly when `Path` equality holds between
//! them: when their components are the same.

use vstd::prelude::*;
use crate::entry::FsEntry;
use crate::paths::{components_of, named_pieces, path_components, portable, rooted};

verus! {

/// The map that a sequence of (path, listing) pairs stands for.
pub open spec fn map_of(s: Seq<(Vec<String>, Vec<FsEntry>)>) -> Map<Seq<Seq<char>>, Seq<FsEntry>>
    decreases s.len(),
{
    if s.len() == 0 {
        Map::empty()
    } else {
        map_of(s.drop_last()).insert(s.last().0.deep_view(), s.last().1@)
    }
}

/// No path occurs twice.
pub open spec fn keys_distinct(s: Seq<(Vec<String>, Vec<FsEntry>)>) -> bool {
    forall|i: int, j: int| 0 <= i < j < s.len() ==> (#[trigger] s[i]).0.deep_view() != (#[trigger] s[j]).0.deep_view()
}

proof fn lemma_absent(s: Seq<(Vec<String>, Vec<FsEntry>)>, k: Seq<Seq<char>>)
    requires
        forall|i: int| 0 <= i < s.len() ==> (#[trigger] s[i]).0.deep_view() != k,
    ensures
        !map_of(s).contains_key(k),
    decreases s.len(),
{
    if s.len() > 0 {
        assert(s.last().0.deep_view() != k);
        lemma_absent(s.drop_last(), k);
    }
}

proof fn lemma_present(s: Seq<(Vec<String>, Vec<FsEntry>)>, i: int)
    requires
        keys_distinct(s),
        0 <= i < s.len(),
    ensures
        map_of(s).contains_key(s[i].0.deep_view()),
        map_of(s)[s[i].0.deep_view()] == s[i].1@,
    decreases s.len(),
{
    if i < s.len() - 1 {
        assert(s.drop_last()[i] == s[i]);
        lemma_present(s.drop_last(), i);
    }
}

proof fn lemma_update(s: Seq<(Vec<String>, Vec<FsEntry>)>, i: int, kv: (Vec<String>, Vec<FsEntry>))
    requires
        keys_distinct(s),
        0 <= i < s.len(),
        kv.0.deep_view() == s[i].0.deep_view(),
    ensures
        map_of(s.update(i, kv)) == map_of(s).insert(kv.0.deep_view(), kv.1@),
        keys_distinct(s.update(i, kv)),
    decreases s.len(),
{
    let t = s.update(i, kv);
    if i == s.len() - 1 {
        assert(t.drop_last() =~= s.drop_last());
        assert(map_of(s).insert(kv.0.deep_view(), kv.1@) =~= map_of(s.drop_last()).insert(kv.0.deep_view(), kv.1@));
    } else {
        assert(t.drop_last() =~= s.drop_last().update(i, kv));
        lemma_update(s.drop_last(), i, kv);
        assert(s.last().0.deep_view() != kv.0.deep_view());
        assert(map_of(t) =~= map_of(s).insert(kv.0.deep_view(), kv.1@));
    }
    assert forall|a: int, b: int| 0 <= a < b < t.len() implies (#[trigger] t[a]).0.deep_view() != (
    #[trigger] t[b]).0.deep_view() by {
        assert(s[a].0.deep_view() != s[b].0.deep_view());
    }
}

proof fn lemma_remove(s: Seq<(Vec<String>, Vec<FsEntry>)>, i: int)
    requires
        keys_distinct(s),
        0 <= i < s.len(),
    ensures
        map_of(s.remove(i)) == map_of(s).remove(s[i].0.deep_view()),
        keys_distinct(s.remove(i)),
    decreases s.len(),
{
    let t = s.remove(i);
    let k = s[i].0.deep_view();
    if i == s.len() - 1 {
        assert(t =~= s.drop_last());
        assert forall|j: int| 0 <= j < t.len() implies (#[trigger] t[j]).0.deep_view() != k by {
            assert(s[j].0.deep_view() != s[i].0.deep_view());
        }
        lemma_absent(t, k);
        assert(map_of(t) =~= map_of(s).remove(k));
    } else {
        assert(t.drop_last() =~= s.drop_last().remove(i));
        assert(s.drop_last()[i] == s[i]);
        lemma_remove(s.drop_last(), i);
        assert(t.last() == s.last());
        assert(s.last().0.deep_view() != k);
        assert(map_of(t) =~= map_of(s).remove(k));
    }
    assert forall|a: int, b: int| 0 <= a < b < t.len() implies (#[trigger] t[a]).0.deep_view() != (
    #[trigger] t[b]).0.deep_view() by {
        if a < i {
            if b < i {
                assert(s[a].0.deep_view() != s[b].0.deep_view());
            } else {
                assert(s[a].0.deep_view() != s[b + 1].0.deep_view());
            }
        } else {
            assert(s[a + 1].0.deep_view() != s[b + 1].0.deep_view());
        }
    }
}

/// Two component lists are the same.
pub fn same_components(a: &Vec<String>, b: &Vec<String>) -> (r: bool)
    ensures
        r == (a.deep_view() == b.deep_view()),
{
    if a.len() != b.len() {
        assert(a.deep_view().len() != b.deep_view().len());
        return false;
    }
    let mut i: usize = 0;
    while i < a.len()
        invariant
            a.len() == b.len(),
            i <= a.len(),
            forall|j: int| 0 <= j < i ==> (#[trigger] a@[j])@ == b@[j]@,
        decreases a.len() - i,
    {
        if a[i] != b[i] {
            assert(a.deep_view()[i as int] != b.deep_view()[i as int]);
            return false;
        }
        i = i + 1;
    }
    assert(a.deep_view() =~= b.deep_view());
    true
}

/// The listings read so far, each under the components of its directory's
/// path.
pub struct ListingCache {
    entries: Vec<(Vec<String>, Vec<FsEntry>)>,
    /// The path text each listing was first stored under.
    read_at: Ghost<Seq<Seq<char>>>,
}

/// `key` is the key of the path text `q`: its components, which for
/// portable text starting at a root are a root and then the named pieces.
pub open spec fn key_of_text(key: Seq<Seq<char>>, q: Seq<char>) -> bool {
    &&& key == components_of(q)
    &&& portable(q) && rooted(q) ==> key.len() == 1 + named_pieces(q).len() && key.skip(1)
        == named_pieces(q)
}

impl View for ListingCache {
    type V = Map<Seq<Seq<char>>, Seq<FsEntry>>;

    closed spec fn view(&self) -> Map<Seq<Seq<char>>, Seq<FsEntry>> {
        map_of(self.entries@)
    }
}

impl ListingCache {
    /// No directory is held twice.
    pub closed spec fn wf(&self) -> bool {
        &&& keys_distinct(self.entries@)
        &&& self.read_at@.len() == self.entries@.len()
        &&& forall|i: int|
            0 <= i < self.entries@.len() ==> key_of_text(
                (#[trigger] self.entries@[i]).0.deep_view(),
                self.read_at@[i],
            )
    }

    /// A listing held here was first stored under the path text `q`.
    pub closed spec fn was_read_at(&self, q: Seq<char>) -> bool {
        self.read_at@.contains(q)
    }

    pub fn new() -> (r: Self)
        ensures
            r.wf(),
            r@ == Map::<Seq<Seq<char>>, Seq<FsEntry>>::empty(),
            forall|q: Seq<char>| !r.was_read_at(q),
    {
        ListingCache { entries: Vec::new(), read_at: Ghost(Seq::empty()) }
    }

    fn find(&self, key: &Vec<String>) -> (r: Option<usize>)
        ensures
            r matches Some(i) ==> i < self.entries@.len() && self.entries@[i as int].0.deep_view()
                == key.deep_view(),
            r is None ==> forall|i: int|
                0 <= i < self.entries@.len() ==> (#[trigger] self.entries@[i]).0.deep_view()
                    != key.deep_view(),
    {
        let mut i: usize = 0;
        while i < self.entries.len()
            invariant
                i <= self.entries@.len(),
                forall|j: int|
                    0 <= j < i ==> (#[trigger] self.entries@[j]).0.deep_view() != key.deep_view(),
            decreases self.entries.len() - i,
        {
            if same_components(&self.entries[i].0, key) {
                return Some(i);
            }
            i = i + 1;
        }
        None
    }

    /// Forgets every listing.
    pub fn clear(&mut self)
        ensures
            final(self).wf(),
            final(self)@ == Map::<Seq<Seq<char>>, Seq<FsEntry>>::empty(),
    {
        self.entries = Vec::new();
        self.read_at = Ghost(Seq::empty());
    }

    /// A copy of the listing held for the directory at `path`.
    pub fn get(&self, path: &String) -> (r: Option<Vec<FsEntry>>)
        requires
            self.wf(),
        ensures
            r is Some <==> self@.contains_key(components_of(path@)),
            r matches Some(v) ==> v@ == self@[components_of(path@)],
            r is Some ==> exists|q: Seq<char>|
                #[trigger] self.was_read_at(q) && components_of(q) == components_of(path@) && (
                portable(q) && rooted(q) && portable(path@) && rooted(path@) ==> named_pieces(q)
                    == named_pieces(path@)),
    {
        let key = path_components(path.as_str());
        match self.find(&key) {
            Some(i) => {
                proof {
                    lemma_present(self.entries@, i as int);
                    let q = self.read_at@[i as int];
                    assert(key_of_text(self.entries@[i as int].0.deep_view(), q));
                    assert(self.was_read_at(q));
                }
                Some(crate::scan::copy_entries(&self.entries[i].1))
            },
            None => {
                proof {
                    lemma_absent(self.entries@, key.deep_view());
                }
                None
            },
        }
    }

    /// Holds `listing` for the directory at `path`, in place of any listing
    /// held for it.
    pub fn insert(&mut self, path: &String, listing: Vec<FsEntry>)
        requires
            old(self).wf(),
        ensures
            final(self).wf(),
            final(self)@ == old(self)@.insert(components_of(path@), listing@),
    {
        let key = path_components(path.as_str());
        match self.find(&key) {
            Some(i) => {
                proof {
                    lemma_update(self.entries@, i as int, (key, listing));
                }
                let ghost before = self.entries@;
                self.entries.set(i, (key, listing));
                proof {
                    assert forall|j: int| 0 <= j < self.entries@.len() implies key_of_text(
                        (#[trigger] self.entries@[j]).0.deep_view(),
                        self.read_at@[j],
                    ) by {
                        if j != i {
                            assert(self.entries@[j] == before[j]);
                        }
                    }
                }
            },
            None => {
                let ghost before = self.entries@;
                let ghost text = path@;
                self.entries.push((key, listing));
                self.read_at = Ghost(self.read_at@.push(text));
                proof {
                    assert forall|j: int| 0 <= j < self.entries@.len() implies key_of_text(
                        (#[trigger] self.entries@[j]).0.deep_view(),
                        self.read_at@[j],
                    ) by {
                        if j < before.len() {
                            assert(self.entries@[j] == before[j]);
                        }
                    }
                    assert(self.entries@.drop_last() =~= before);
                    assert forall|a: int, b: int|
                        0 <= a < b < self.entries@.len() implies (#[trigger] self.entries@[a]).0.deep_view()
                        != (#[trigger] self.entries@[b]).0.deep_view() by {
                        if b < before.len() {
                            assert(before[a].0.deep_view() != before[b].0.deep_view());
                        } else {
                            assert(before[a].0.deep_view() != self.entries@[b].0.deep_view());
                        }
                    }
                }
            },
        }
    }

    /// Forgets the listing held for the directory at `path`, if any.
    pub fn remove(&mut self, path: &String)
        requires
            old(self).wf(),
        ensures
            final(self).wf(),
            final(self)@ == old(self)@.remove(components_of(path@)),
    {
        let key = path_components(path.as_str());
        match self.find(&key) {
            Some(i) => {
                proof {
                    lemma_remove(self.entries@, i as int);
                }
                let ghost before = self.entries@;
                let ghost texts = self.read_at@;
                self.entries.remove(i);
                self.read_at = Ghost(texts.remove(i as int));
                proof {
                    assert forall|j: int| 0 <= j < self.entries@.len() implies key_of_text(
                        (#[trigger] self.entries@[j]).0.deep_view(),
                        self.read_at@[j],
                    ) by {
                        if j < i {
                            assert(self.entries@[j] == before[j]);
                        } else {
                            assert(self.entries@[j] == before[j + 1]);
                        }
                    }
                }
            },
            None => {
                proof {
                    lemma_absent(self.entries@, key.deep_view());
                    assert(map_of(self.entries@).remove(key.deep_view()) =~= map_of(
                        self.entries@,
                    ));
                }
            },
        }
    }
}

} // verus!
