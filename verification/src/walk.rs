//! The size of a directory tree, found by walking it: directories wait on a
//! stack, each one read is absorbed (its files' lengths added, saturating at
//! `u64::MAX`, and its subdirectories stacked), until none is left.

use vstd::prelude::*;

verus! {

/// One child reported by reading a directory: where it is, what kind it is
/// and the length its metadata gives.
#[derive(Debug)]
pub struct WalkEntry<P> {
    pub path: P,
    pub is_file: bool,
    pub is_dir: bool,
    pub len: u64,
}

/// The total length of the regular files among `entries`.
pub open spec fn files_len<P>(entries: Seq<WalkEntry<P>>) -> nat
    decreases entries.len(),
{
    if entries.len() == 0 {
        0
    } else {
        files_len(entries.drop_last()) + if entries.last().is_file {
            entries.last().len as nat
        } else {
            0
        }
    }
}

/// The paths of the directories among `entries` (a regular file is never
/// taken for one), in order.
pub open spec fn subdirs<P>(entries: Seq<WalkEntry<P>>) -> Seq<P>
    decreases entries.len(),
{
    if entries.len() == 0 {
        Seq::empty()
    } else {
        let rest = subdirs(entries.drop_last());
        if !entries.last().is_file && entries.last().is_dir {
            rest.push(entries.last().path)
        } else {
            rest
        }
    }
}

/// `n` saturated at `u64::MAX`.
pub open spec fn saturated(n: nat) -> nat {
    if n > u64::MAX {
        u64::MAX as nat
    } else {
        n
    }
}

/// The abstract state of a walk: the total so far, the exact sum it
/// saturates, and the directories still to read (the last is read next).
pub struct WalkView<P> {
    pub total: nat,
    pub counted: nat,
    pub pending: Seq<P>,
}

/// A walk in progress.
pub struct DirSizeWalk<P> {
    total: u64,
    counted: Ghost<nat>,
    stack: Vec<P>,
}

impl<P> View for DirSizeWalk<P> {
    type V = WalkView<P>;

    closed spec fn view(&self) -> WalkView<P> {
        WalkView { total: self.total as nat, counted: self.counted@, pending: self.stack@ }
    }
}

impl<P> DirSizeWalk<P> {
    /// The total is the exact sum of the lengths seen, saturated.
    pub closed spec fn wf(&self) -> bool {
        self.total == saturated(self.counted@)
    }

    /// A walk that starts at `root`.
    pub fn new(root: P) -> (w: Self)
        ensures
            w.wf(),
            w@.total == 0,
            w@.counted == 0,
            w@.pending == seq![root],
    {
        let mut stack: Vec<P> = Vec::new();
        stack.push(root);
        DirSizeWalk { total: 0, counted: Ghost(0), stack }
    }

    /// The next directory to read, taken off the stack; none once the walk
    /// is over.
    pub fn next_dir(&mut self) -> (r: Option<P>)
        requires
            old(self).wf(),
        ensures
            final(self).wf(),
            final(self)@.total == old(self)@.total,
            final(self)@.counted == old(self)@.counted,
            old(self)@.pending.len() == 0 ==> r is None && final(self)@.pending == old(self)@.pending,
            old(self)@.pending.len() > 0 ==> r == Some(old(self)@.pending.last())
                && final(self)@.pending == old(self)@.pending.drop_last(),
    {
        self.stack.pop()
    }

    /// Absorbs what reading a directory gave: each regular file's length is
    /// added, saturating, and each directory is stacked, in order.
    pub fn absorb(&mut self, entries: Vec<WalkEntry<P>>)
        requires
            old(self).wf(),
        ensures
            final(self).wf(),
            final(self)@.counted == old(self)@.counted + files_len(entries@),
            final(self)@.total == saturated(old(self)@.counted + files_len(entries@)),
            final(self)@.pending == old(self)@.pending + subdirs(entries@),
    {
        broadcast use vstd::std_specs::vec::axiom_spec_into_iter;

        let ghost start = self@;
        let ghost all = entries@;
        for e in it: entries
            invariant
                self.wf(),
                all == it.seq(),
                self@.counted == start.counted + files_len(all.take(it.index() as int)),
                self@.pending == start.pending + subdirs(all.take(it.index() as int)),
        {
            proof {
                assert(all.take(it.index() + 1).drop_last() =~= all.take(it.index() as int));
                assert(all.take(it.index() + 1).last() == e);
            }
            if e.is_file {
                self.total = self.total.saturating_add(e.len);
                self.counted = Ghost(self.counted@ + e.len as nat);
            } else if e.is_dir {
                self.stack.push(e.path);
                assert(self.stack@ =~= start.pending + subdirs(all.take(it.index() + 1)));
            }
        }
        assert(all.take(all.len() as int) =~= all);
    }

    /// The total size found so far.
    pub fn total(&self) -> (r: u64)
        ensures
            r == self@.total,
    {
        self.total
    }
}

} // verus!
