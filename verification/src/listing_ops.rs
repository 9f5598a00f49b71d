//! Changes to a held listing after something on disk changed: a child
//! removed, or a child's size found.

use vstd::prelude::*;
use crate::entry::FsEntry;

verus! {

/// The position of the first child whose path is `p`.
pub open spec fn first_with_path(s: Seq<FsEntry>, p: Seq<char>) -> Option<int>
    decreases s.len(),
{
    if s.len() == 0 {
        None
    } else if s[0].path@ == p {
        Some(0)
    } else {
        match first_with_path(s.drop_first(), p) {
            Some(i) => Some(i + 1),
            None => None,
        }
    }
}

/// `e` with its size replaced.
pub open spec fn resized(e: FsEntry, size: u64) -> FsEntry {
    FsEntry { path: e.path, name: e.name, size: size, is_dir: e.is_dir }
}

/// `s` with the first child whose path is `p` given the size `size`; `s`
/// itself where no child has that path.
pub open spec fn with_size_of(s: Seq<FsEntry>, p: Seq<char>, size: u64) -> Seq<FsEntry> {
    match first_with_path(s, p) {
        Some(i) => s.update(i, resized(s[i], size)),
        None => s,
    }
}

/// Children whose path is not `p`.
pub open spec fn path_is_not(p: Seq<char>) -> spec_fn(FsEntry) -> bool {
    |c: FsEntry| c.path@ != p
}

/// The children of `s` whose path is not `p`.
pub open spec fn without_path(s: Seq<FsEntry>, p: Seq<char>) -> Seq<FsEntry> {
    s.filter(path_is_not(p))
}

proof fn lemma_first_with_path(s: Seq<FsEntry>, p: Seq<char>, i: int)
    requires
        0 <= i <= s.len(),
        forall|j: int| 0 <= j < i ==> (#[trigger] s[j]).path@ != p,
    ensures
        i < s.len() && s[i].path@ == p ==> first_with_path(s, p) == Some(i),
        i == s.len() ==> first_with_path(s, p) is None,
    decreases i,
{
    if i > 0 {
        assert forall|j: int| 0 <= j < i - 1 implies (#[trigger] s.drop_first()[j]).path@ != p by {
            assert(s.drop_first()[j] == s[j + 1]);
        }
        lemma_first_with_path(s.drop_first(), p, i - 1);
        if i < s.len() {
            assert(s.drop_first()[i - 1] == s[i]);
        }
    }
}

/// The first child with the path has the path, and no earlier child has it.
pub proof fn lemma_first_with_path_found(s: Seq<FsEntry>, p: Seq<char>)
    ensures
        first_with_path(s, p) matches Some(i) ==> 0 <= i < s.len() && s[i].path@ == p && forall|
            j: int,
        |
            0 <= j < i ==> (#[trigger] s[j]).path@ != p,
        first_with_path(s, p) is None ==> forall|j: int|
            0 <= j < s.len() ==> (#[trigger] s[j]).path@ != p,
    decreases s.len(),
{
    if s.len() > 0 {
        lemma_first_with_path_found(s.drop_first(), p);
        if s[0].path@ != p {
            assert forall|j: int| 1 <= j < s.len() implies s.drop_first()[j - 1] == s[j] by {}
        }
    }
}

/// Giving a child a size changes that child's size and nothing else.
pub proof fn lemma_with_size_of(s: Seq<FsEntry>, p: Seq<char>, size: u64)
    ensures
        with_size_of(s, p, size).len() == s.len(),
        forall|j: int|
            0 <= j < s.len() ==> {
                let t = #[trigger] with_size_of(s, p, size)[j];
                &&& t.path == s[j].path
                &&& t.name == s[j].name
                &&& t.is_dir == s[j].is_dir
                &&& t.size == (if first_with_path(s, p) == Some(j) {
                    size
                } else {
                    s[j].size
                })
            },
{
    lemma_first_with_path_found(s, p);
}

/// Gives the first child whose path is `p` the size `size`.
pub fn set_size_of(children: &mut Vec<FsEntry>, p: &String, size: u64)
    ensures
        final(children)@ == with_size_of(old(children)@, p@, size),
{
    let mut i: usize = 0;
    while i < children.len()
        invariant
            i <= children@.len(),
            children@ == old(children)@,
            forall|j: int| 0 <= j < i ==> (#[trigger] children@[j]).path@ != p@,
        decreases children.len() - i,
    {
        if children[i].path == *p {
            proof {
                lemma_first_with_path(children@, p@, i as int);
            }
            let mut e = children[i].clone();
            e.size = size;
            assert(e == resized(children@[i as int], size));
            children.set(i, e);
            return;
        }
        i = i + 1;
    }
    proof {
        lemma_first_with_path(children@, p@, i as int);
    }
}

/// The children whose path is not `p`, in order.
pub fn remove_path(children: &Vec<FsEntry>, p: &String) -> (r: Vec<FsEntry>)
    ensures
        r@ == without_path(children@, p@),
{
    let ghost keep = path_is_not(p@);
    let mut r: Vec<FsEntry> = Vec::new();
    let mut i: usize = 0;
    while i < children.len()
        invariant
            i <= children@.len(),
            keep == path_is_not(p@),
            r@ == children@.take(i as int).filter(keep),
        decreases children.len() - i,
    {
        proof {
            reveal(Seq::filter);
            assert(children@.take(i + 1).drop_last() =~= children@.take(i as int));
            assert(children@.take(i + 1).last() == children@[i as int]);
        }
        if children[i].path != *p {
            r.push(children[i].clone());
        }
        i = i + 1;
    }
    assert(children@.take(i as int) =~= children@);
    r
}

} // verus!
