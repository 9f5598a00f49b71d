//! Stable sorting. What a stable sort (such as `slice::sort_by`) produces is
//! stated as stable insertion: each element, taken in input order, is placed
//! just after the last element that may precede it. The executable sort is a
//! merge sort, proved to produce exactly that.

use vstd::prelude::*;

verus! {

/// `before` is a total preorder: any two elements are related one way or
/// the other, and the relation is transitive.
pub open spec fn total_preorder<A>(before: spec_fn(A, A) -> bool) -> bool {
    &&& forall|a: A, b: A| #[trigger] before(a, b) || before(b, a)
    &&& forall|a: A, b: A, c: A| #[trigger] before(a, b) && #[trigger] before(b, c) ==> before(a, c)
}

/// The position just after the last element of `s` that may precede `x`.
pub open spec fn insert_pos<A>(s: Seq<A>, x: A, before: spec_fn(A, A) -> bool) -> nat
    decreases s.len(),
{
    if s.len() == 0 {
        0
    } else if before(s.last(), x) {
        s.len()
    } else {
        insert_pos(s.drop_last(), x, before)
    }
}

/// `s` with `x` placed just after the last element that may precede it.
pub open spec fn stable_insert<A>(s: Seq<A>, x: A, before: spec_fn(A, A) -> bool) -> Seq<A> {
    s.insert(insert_pos(s, x, before) as int, x)
}

/// The stable sort of `s` by `before`.
pub open spec fn stable_sort<A>(s: Seq<A>, before: spec_fn(A, A) -> bool) -> Seq<A>
    decreases s.len(),
{
    if s.len() == 0 {
        s
    } else {
        stable_insert(stable_sort(s.drop_last(), before), s.last(), before)
    }
}

/// Every element of `s` may precede every later one.
pub open spec fn sorted_by<A>(s: Seq<A>, before: spec_fn(A, A) -> bool) -> bool {
    forall|i: int, j: int| 0 <= i < j < s.len() ==> before(#[trigger] s[i], #[trigger] s[j])
}

/// Elements that `before` cannot tell apart from `y`.
pub open spec fn tied_with<A>(y: A, before: spec_fn(A, A) -> bool) -> spec_fn(A) -> bool {
    |e: A| before(e, y) && before(y, e)
}

proof fn lemma_insert_pos<A>(s: Seq<A>, x: A, before: spec_fn(A, A) -> bool)
    ensures
        insert_pos(s, x, before) <= s.len(),
        insert_pos(s, x, before) > 0 ==> before(s[insert_pos(s, x, before) - 1], x),
        forall|i: int| insert_pos(s, x, before) <= i < s.len() ==> !before(#[trigger] s[i], x),
    decreases s.len(),
{
    if s.len() > 0 && !before(s.last(), x) {
        lemma_insert_pos(s.drop_last(), x, before);
        let k = insert_pos(s, x, before) as int;
        assert forall|i: int| k <= i < s.len() implies !before(#[trigger] s[i], x) by {
            if i < s.len() - 1 {
                assert(s[i] == s.drop_last()[i]);
            }
        }
    }
}

/// Stable insertion places the new element within the sequence.
pub proof fn lemma_insert_pos_bound<A>(s: Seq<A>, x: A, before: spec_fn(A, A) -> bool)
    ensures
        insert_pos(s, x, before) <= s.len(),
{
    lemma_insert_pos(s, x, before);
}

/// Stable insertion keeps a sorted sequence sorted.
pub proof fn lemma_stable_insert_sorted<A>(s: Seq<A>, x: A, before: spec_fn(A, A) -> bool)
    requires
        total_preorder(before),
        sorted_by(s, before),
    ensures
        sorted_by(stable_insert(s, x, before), before),
{
    lemma_insert_pos(s, x, before);
    let k = insert_pos(s, x, before) as int;
    let r = stable_insert(s, x, before);
    assert forall|i: int, j: int| 0 <= i < j < r.len() implies before(#[trigger] r[i], #[trigger] r[j]) by {
        if j < k {
            assert(r[i] == s[i] && r[j] == s[j]);
        } else if j == k {
            assert(r[j] == x);
            assert(r[i] == s[i]);
            if i < k - 1 {
                assert(before(s[i], s[k - 1]));
            }
        } else if i == k {
            assert(r[i] == x);
            assert(r[j] == s[j - 1]);
            assert(!before(s[j - 1], x));
        } else if i > k {
            assert(r[i] == s[i - 1] && r[j] == s[j - 1]);
        } else {
            assert(r[i] == s[i] && r[j] == s[j - 1]);
        }
    }
}

/// The stable sort of any sequence is sorted.
pub proof fn lemma_stable_sort_sorted<A>(s: Seq<A>, before: spec_fn(A, A) -> bool)
    requires
        total_preorder(before),
    ensures
        sorted_by(stable_sort(s, before), before),
    decreases s.len(),
{
    if s.len() > 0 {
        lemma_stable_sort_sorted(s.drop_last(), before);
        lemma_stable_insert_sorted(stable_sort(s.drop_last(), before), s.last(), before);
    }
}

/// The stable sort of a sequence holds the same elements, each as often.
pub proof fn lemma_stable_sort_permutation<A>(s: Seq<A>, before: spec_fn(A, A) -> bool)
    ensures
        stable_sort(s, before).to_multiset() == s.to_multiset(),
    decreases s.len(),
{
    broadcast use vstd::seq_lib::group_to_multiset_ensures;

    if s.len() > 0 {
        lemma_stable_sort_permutation(s.drop_last(), before);
        let r = stable_sort(s.drop_last(), before);
        lemma_insert_pos(r, s.last(), before);
        assert(s.drop_last().push(s.last()) =~= s);
    }
}

/// Every element kept by a filter is an element of the sequence.
pub proof fn lemma_filter_subset<A>(s: Seq<A>, p: spec_fn(A) -> bool)
    ensures
        forall|i: int| 0 <= i < s.filter(p).len() ==> s.contains(#[trigger] s.filter(p)[i]),
    decreases s.len(),
{
    reveal(Seq::filter);
    if s.len() > 0 {
        let rest = s.drop_last();
        lemma_filter_subset(rest, p);
        let f = rest.filter(p);
        assert forall|i: int| 0 <= i < s.filter(p).len() implies s.contains(
            #[trigger] s.filter(p)[i],
        ) by {
            if i < f.len() {
                assert(s.filter(p)[i] == f[i]);
                assert(rest.contains(f[i]));
                let k = choose|k: int| 0 <= k < rest.len() && rest[k] == f[i];
                assert(s[k] == f[i]);
            } else {
                assert(s.filter(p)[i] == s[s.len() - 1]);
            }
        }
    }
}

/// Keeping some elements of a sorted sequence leaves it sorted.
pub proof fn lemma_filter_sorted<A>(s: Seq<A>, before: spec_fn(A, A) -> bool, p: spec_fn(A) -> bool)
    requires
        sorted_by(s, before),
    ensures
        sorted_by(s.filter(p), before),
    decreases s.len(),
{
    reveal(Seq::filter);
    if s.len() > 0 {
        let rest = s.drop_last();
        assert(sorted_by(rest, before));
        lemma_filter_sorted(rest, before, p);
        if p(s.last()) {
            let f = rest.filter(p);
            lemma_filter_subset(rest, p);
            assert forall|i: int, j: int| 0 <= i < j < f.push(s.last()).len() implies before(
                #[trigger] f.push(s.last())[i],
                #[trigger] f.push(s.last())[j],
            ) by {
                if j == f.len() {
                    assert(rest.contains(f[i]));
                    let k = choose|k: int| 0 <= k < rest.len() && rest[k] == f[i];
                    assert(rest[k] == s[k]);
                    assert(before(s[k], s[s.len() - 1]));
                    assert(f.push(s.last())[j] == s.last());
                    assert(f.push(s.last())[i] == f[i]);
                } else {
                    assert(f.push(s.last())[j] == f[j]);
                    assert(f.push(s.last())[i] == f[i]);
                }
            }
        }
    }
}

proof fn lemma_filter_rejects_all<A>(t: Seq<A>, p: spec_fn(A) -> bool)
    requires
        forall|i: int| 0 <= i < t.len() ==> !p(#[trigger] t[i]),
    ensures
        t.filter(p) == Seq::<A>::empty(),
    decreases t.len(),
{
    reveal(Seq::filter);
    if t.len() > 0 {
        assert forall|i: int| 0 <= i < t.drop_last().len() implies !p(#[trigger] t.drop_last()[i]) by {
            assert(t.drop_last()[i] == t[i]);
        }
        lemma_filter_rejects_all(t.drop_last(), p);
    }
}

/// A stable sort keeps elements that `before` cannot tell apart in the
/// order in which they came.
pub proof fn lemma_stable_sort_keeps_ties_in_order<A>(
    s: Seq<A>,
    before: spec_fn(A, A) -> bool,
    y: A,
)
    requires
        total_preorder(before),
    ensures
        stable_sort(s, before).filter(tied_with(y, before)) == s.filter(tied_with(y, before)),
    decreases s.len(),
{
    broadcast use Seq::filter_distributes_over_add;

    reveal(Seq::filter);
    if s.len() > 0 {
        let p = tied_with(y, before);
        let r = stable_sort(s.drop_last(), before);
        let x = s.last();
        lemma_stable_sort_keeps_ties_in_order(s.drop_last(), before, y);
        lemma_insert_pos(r, x, before);
        let k = insert_pos(r, x, before) as int;
        let head = r.take(k);
        let tail = r.skip(k);
        assert(r =~= head + tail);
        assert(stable_sort(s, before) =~= head + seq![x] + tail);
        assert(seq![x].drop_last() =~= Seq::<A>::empty());
        assert(seq![x].last() == x);
        assert(Seq::<A>::empty().filter(p) =~= Seq::<A>::empty());
        if p(x) {
            assert forall|i: int| 0 <= i < tail.len() implies !p(#[trigger] tail[i]) by {
                assert(tail[i] == r[k + i]);
                assert(!before(r[k + i], x));
            }
            lemma_filter_rejects_all(tail, p);
            assert(seq![x].filter(p) =~= seq![x]);
            assert((head + seq![x] + tail).filter(p) == head.filter(p) + seq![x].filter(p)
                + tail.filter(p));
            assert((head + tail).filter(p) == head.filter(p) + tail.filter(p));
            assert(stable_sort(s, before).filter(p) =~= r.filter(p).push(x));
        } else {
            assert(seq![x].filter(p) =~= Seq::<A>::empty());
            assert((head + seq![x] + tail).filter(p) == head.filter(p) + seq![x].filter(p)
                + tail.filter(p));
            assert((head + tail).filter(p) == head.filter(p) + tail.filter(p));
            assert(stable_sort(s, before).filter(p) =~= r.filter(p));
        }
    }
}

/// The stable merge of two sequences: the head of `a` goes first unless the
/// head of `b` must precede it.
pub open spec fn merge_by<A>(a: Seq<A>, b: Seq<A>, before: spec_fn(A, A) -> bool) -> Seq<A>
    decreases a.len() + b.len(),
{
    if a.len() == 0 {
        b
    } else if b.len() == 0 {
        a
    } else if before(a[0], b[0]) {
        seq![a[0]] + merge_by(a.drop_first(), b, before)
    } else {
        seq![b[0]] + merge_by(a, b.drop_first(), before)
    }
}

proof fn lemma_insert_pos_prepend<A>(y: A, s: Seq<A>, x: A, before: spec_fn(A, A) -> bool)
    requires
        before(y, x),
    ensures
        insert_pos(seq![y] + s, x, before) == 1 + insert_pos(s, x, before),
        stable_insert(seq![y] + s, x, before) == seq![y] + stable_insert(s, x, before),
    decreases s.len(),
{
    let t = seq![y] + s;
    if s.len() > 0 {
        assert(t.drop_last() =~= seq![y] + s.drop_last());
        assert(t.last() == s.last());
        lemma_insert_pos_prepend(y, s.drop_last(), x, before);
    } else {
        assert(t.drop_last() =~= Seq::<A>::empty());
        assert(t.last() == y);
    }
    lemma_insert_pos(s, x, before);
    let k = insert_pos(s, x, before) as int;
    assert(t.insert(k + 1, x) =~= seq![y] + s.insert(k, x));
}

proof fn lemma_insert_front<A>(t: Seq<A>, x: A, before: spec_fn(A, A) -> bool)
    requires
        forall|i: int| 0 <= i < t.len() ==> !before(#[trigger] t[i], x),
    ensures
        stable_insert(t, x, before) == seq![x] + t,
{
    lemma_insert_pos(t, x, before);
    if insert_pos(t, x, before) > 0 {
        assert(!before(t[insert_pos(t, x, before) - 1], x));
    }
    assert(t.insert(0, x) =~= seq![x] + t);
}

proof fn lemma_merge_all<A>(a: Seq<A>, b: Seq<A>, before: spec_fn(A, A) -> bool, p: spec_fn(A) -> bool)
    requires
        forall|i: int| 0 <= i < a.len() ==> p(#[trigger] a[i]),
        forall|i: int| 0 <= i < b.len() ==> p(#[trigger] b[i]),
    ensures
        forall|i: int|
            0 <= i < merge_by(a, b, before).len() ==> p(#[trigger] merge_by(a, b, before)[i]),
    decreases a.len() + b.len(),
{
    if a.len() > 0 && b.len() > 0 {
        if before(a[0], b[0]) {
            assert forall|i: int| 0 <= i < a.drop_first().len() implies p(
                #[trigger] a.drop_first()[i],
            ) by {
                assert(a.drop_first()[i] == a[i + 1]);
            }
            lemma_merge_all(a.drop_first(), b, before, p);
            let m = merge_by(a, b, before);
            assert forall|i: int| 0 <= i < m.len() implies p(#[trigger] m[i]) by {
                if i > 0 {
                    assert(m[i] == merge_by(a.drop_first(), b, before)[i - 1]);
                } else {
                    assert(m[0] == a[0]);
                }
            }
        } else {
            assert forall|i: int| 0 <= i < b.drop_first().len() implies p(
                #[trigger] b.drop_first()[i],
            ) by {
                assert(b.drop_first()[i] == b[i + 1]);
            }
            lemma_merge_all(a, b.drop_first(), before, p);
            let m = merge_by(a, b, before);
            assert forall|i: int| 0 <= i < m.len() implies p(#[trigger] m[i]) by {
                if i > 0 {
                    assert(m[i] == merge_by(a, b.drop_first(), before)[i - 1]);
                } else {
                    assert(m[0] == b[0]);
                }
            }
        }
    }
}

proof fn lemma_sorted_tail<A>(s: Seq<A>, before: spec_fn(A, A) -> bool)
    requires
        sorted_by(s, before),
        s.len() > 0,
    ensures
        sorted_by(s.drop_first(), before),
        s =~= seq![s[0]] + s.drop_first(),
{
    assert forall|i: int, j: int| 0 <= i < j < s.drop_first().len() implies before(
        #[trigger] s.drop_first()[i],
        #[trigger] s.drop_first()[j],
    ) by {
        assert(s.drop_first()[i] == s[i + 1] && s.drop_first()[j] == s[j + 1]);
    }
}

/// Inserting into a merge is merging with the insertion into the right-hand
/// sequence.
proof fn lemma_insert_into_merge<A>(a: Seq<A>, b: Seq<A>, x: A, before: spec_fn(A, A) -> bool)
    requires
        total_preorder(before),
        sorted_by(a, before),
        sorted_by(b, before),
    ensures
        stable_insert(merge_by(a, b, before), x, before) == merge_by(
            a,
            stable_insert(b, x, before),
            before,
        ),
    decreases a.len() + b.len(),
{
    let not_before_x = |e: A| !before(e, x);
    lemma_insert_pos(b, x, before);
    let bx = stable_insert(b, x, before);
    assert(bx.len() == b.len() + 1);
    if a.len() == 0 {
    } else if b.len() == 0 {
        assert(bx =~= seq![x]);
        lemma_sorted_tail(a, before);
        if before(a[0], x) {
            lemma_insert_into_merge(a.drop_first(), b, x, before);
            assert(merge_by(a, b, before) == a);
            assert(merge_by(a.drop_first(), b, before) == a.drop_first()) by {
                if a.drop_first().len() == 0 {
                    assert(a.drop_first() =~= b);
                }
            }
            lemma_insert_pos_prepend(a[0], a.drop_first(), x, before);
            assert(stable_insert(Seq::<A>::empty(), x, before) =~= seq![x]);
        } else {
            assert forall|i: int| 0 <= i < a.len() implies !before(#[trigger] a[i], x) by {
                if i > 0 {
                    assert(before(a[0], a[i]));
                }
            }
            lemma_insert_front(a, x, before);
            assert(merge_by(a, bx, before) == seq![x] + merge_by(a, bx.drop_first(), before));
            assert(bx.drop_first() =~= b);
        }
    } else {
        let a0 = a[0];
        let b0 = b[0];
        lemma_sorted_tail(a, before);
        lemma_sorted_tail(b, before);
        let m = merge_by(a, b, before);
        if before(a0, b0) {
            assert(m == seq![a0] + merge_by(a.drop_first(), b, before));
            if before(a0, x) {
                lemma_insert_pos_prepend(a0, merge_by(a.drop_first(), b, before), x, before);
                lemma_insert_into_merge(a.drop_first(), b, x, before);
                if insert_pos(b, x, before) == 0 {
                    assert(bx[0] == x);
                } else {
                    assert(bx[0] == b0);
                }
                assert(merge_by(a, bx, before) == seq![a0] + merge_by(a.drop_first(), bx, before));
            } else {
                assert forall|i: int| 0 <= i < a.len() implies not_before_x(#[trigger] a[i]) by {
                    if i > 0 {
                        assert(before(a0, a[i]));
                    }
                }
                assert forall|i: int| 0 <= i < b.len() implies not_before_x(#[trigger] b[i]) by {
                    if i > 0 {
                        assert(before(b0, b[i]));
                    }
                }
                lemma_merge_all(a, b, before, not_before_x);
                assert forall|i: int| 0 <= i < m.len() implies !before(#[trigger] m[i], x) by {
                    assert(not_before_x(m[i]));
                }
                lemma_insert_front(m, x, before);
                assert forall|i: int| 0 <= i < b.len() implies !before(#[trigger] b[i], x) by {
                    assert(not_before_x(b[i]));
                }
                lemma_insert_front(b, x, before);
                assert((seq![x] + b)[0] == x);
                assert((seq![x] + b).drop_first() =~= b);
            }
        } else {
            assert(before(b0, a0));
            assert(m == seq![b0] + merge_by(a, b.drop_first(), before));
            if before(b0, x) {
                lemma_insert_pos_prepend(b0, merge_by(a, b.drop_first(), before), x, before);
                lemma_insert_into_merge(a, b.drop_first(), x, before);
                lemma_insert_pos_prepend(b0, b.drop_first(), x, before);
                assert(bx == seq![b0] + stable_insert(b.drop_first(), x, before));
                assert(bx[0] == b0);
                assert(bx.drop_first() =~= stable_insert(b.drop_first(), x, before));
            } else {
                assert forall|i: int| 0 <= i < a.len() implies not_before_x(#[trigger] a[i]) by {
                    if i > 0 {
                        assert(before(a0, a[i]));
                    }
                }
                assert forall|i: int| 0 <= i < b.len() implies not_before_x(#[trigger] b[i]) by {
                    if i > 0 {
                        assert(before(b0, b[i]));
                    }
                }
                lemma_merge_all(a, b, before, not_before_x);
                assert forall|i: int| 0 <= i < m.len() implies !before(#[trigger] m[i], x) by {
                    assert(not_before_x(m[i]));
                }
                lemma_insert_front(m, x, before);
                assert forall|i: int| 0 <= i < b.len() implies !before(#[trigger] b[i], x) by {
                    assert(not_before_x(b[i]));
                }
                lemma_insert_front(b, x, before);
                assert((seq![x] + b)[0] == x);
                assert((seq![x] + b).drop_first() =~= b);
                assert(!before(a0, x));
            }
        }
    }
}

/// Sorting two sequences laid end to end is merging their sorts.
pub proof fn lemma_sort_concat<A>(a: Seq<A>, b: Seq<A>, before: spec_fn(A, A) -> bool)
    requires
        total_preorder(before),
    ensures
        stable_sort(a + b, before) == merge_by(stable_sort(a, before), stable_sort(b, before), before),
    decreases b.len(),
{
    if b.len() == 0 {
        assert(a + b =~= a);
        assert(stable_sort(b, before) == b);
        if stable_sort(a, before).len() == 0 {
            assert(stable_sort(a, before) =~= b);
        }
    } else {
        assert((a + b).drop_last() =~= a + b.drop_last());
        assert((a + b).last() == b.last());
        lemma_sort_concat(a, b.drop_last(), before);
        lemma_stable_sort_sorted(a, before);
        lemma_stable_sort_sorted(b.drop_last(), before);
        lemma_insert_into_merge(
            stable_sort(a, before),
            stable_sort(b.drop_last(), before),
            b.last(),
            before,
        );
    }
}

proof fn lemma_insert_pos_map<A, B>(
    s: Seq<A>,
    x: A,
    f: spec_fn(A) -> B,
    ba: spec_fn(A, A) -> bool,
    bb: spec_fn(B, B) -> bool,
)
    requires
        forall|p: A, q: A| #[trigger] ba(p, q) == bb(f(p), f(q)),
    ensures
        insert_pos(s.map_values(f), f(x), bb) == insert_pos(s, x, ba),
    decreases s.len(),
{
    if s.len() > 0 {
        assert(s.map_values(f).drop_last() =~= s.drop_last().map_values(f));
        assert(ba(s.last(), x) == bb(f(s.last()), f(x)));
        lemma_insert_pos_map(s.drop_last(), x, f, ba, bb);
    }
}

/// Sorting commutes with a map that carries one order onto the other.
pub proof fn lemma_sort_map<A, B>(
    s: Seq<A>,
    f: spec_fn(A) -> B,
    ba: spec_fn(A, A) -> bool,
    bb: spec_fn(B, B) -> bool,
)
    requires
        forall|p: A, q: A| #[trigger] ba(p, q) == bb(f(p), f(q)),
    ensures
        stable_sort(s, ba).map_values(f) == stable_sort(s.map_values(f), bb),
    decreases s.len(),
{
    if s.len() > 0 {
        let t = stable_sort(s.drop_last(), ba);
        lemma_sort_map(s.drop_last(), f, ba, bb);
        assert(s.map_values(f).drop_last() =~= s.drop_last().map_values(f));
        assert(s.map_values(f).last() == f(s.last()));
        lemma_insert_pos_map(t, s.last(), f, ba, bb);
        lemma_insert_pos(t, s.last(), ba);
        let k = insert_pos(t, s.last(), ba) as int;
        assert(t.insert(k, s.last()).map_values(f) =~= t.map_values(f).insert(k, f(s.last())));
    } else {
        assert(s.map_values(f) =~= Seq::<B>::empty());
    }
}

/// A type whose values can be put in a listing order.
pub trait ListOrder: Sized {
    /// `self` may come before `other`.
    spec fn goes_before(self, other: Self) -> bool;

    proof fn lemma_goes_before_total(a: Self, b: Self)
        ensures
            a.goes_before(b) || b.goes_before(a),
    ;

    proof fn lemma_goes_before_transitive(a: Self, b: Self, c: Self)
        requires
            a.goes_before(b),
            b.goes_before(c),
        ensures
            a.goes_before(c),
    ;

    /// Executable `goes_before`.
    fn precedes(&self, other: &Self) -> (r: bool)
        ensures
            r == self.goes_before(*other),
    ;

    /// A copy of `self`.
    fn duplicate(&self) -> (r: Self)
        ensures
            r == *self,
    ;
}

/// The order of a `ListOrder` type as a relation.
pub open spec fn order_of<T: ListOrder>() -> spec_fn(T, T) -> bool {
    |a: T, b: T| a.goes_before(b)
}

/// The order of a `ListOrder` type is a total preorder.
pub proof fn lemma_order_total_preorder<T: ListOrder>()
    ensures
        total_preorder(order_of::<T>()),
{
    assert forall|a: T, b: T| #[trigger] order_of::<T>()(a, b) || order_of::<T>()(b, a) by {
        T::lemma_goes_before_total(a, b);
    }
    assert forall|a: T, b: T, c: T|
        #[trigger] order_of::<T>()(a, b) && #[trigger] order_of::<T>()(b, c) implies order_of::<
        T,
    >()(a, c) by {
        T::lemma_goes_before_transitive(a, b, c);
    }
}

/// The stable merge of two vectors.
fn merge<T: ListOrder>(a: &Vec<T>, b: &Vec<T>) -> (r: Vec<T>)
    ensures
        r@ == merge_by(a@, b@, order_of::<T>()),
{
    let mut r: Vec<T> = Vec::new();
    let mut i: usize = 0;
    let mut j: usize = 0;
    assert(a@.skip(0) =~= a@ && b@.skip(0) =~= b@);
    assert(r@ + merge_by(a@, b@, order_of::<T>()) =~= merge_by(a@, b@, order_of::<T>()));
    while i < a.len() || j < b.len()
        invariant
            i <= a@.len(),
            j <= b@.len(),
            r@ + merge_by(a@.skip(i as int), b@.skip(j as int), order_of::<T>()) == merge_by(
                a@,
                b@,
                order_of::<T>(),
            ),
        decreases a.len() + b.len() - i - j,
    {
        let ghost rest = merge_by(a@.skip(i as int), b@.skip(j as int), order_of::<T>());
        if i < a.len() && (j >= b.len() || a[i].precedes(&b[j])) {
            proof {
                assert(a@.skip(i as int)[0] == a@[i as int]);
                assert(a@.skip(i as int).drop_first() =~= a@.skip(i + 1));
                if j < b.len() {
                    assert(b@.skip(j as int)[0] == b@[j as int]);
                    assert(rest == seq![a@[i as int]] + merge_by(
                        a@.skip(i + 1),
                        b@.skip(j as int),
                        order_of::<T>(),
                    ));
                } else {
                    assert(b@.skip(j as int).len() == 0);
                    assert(rest == a@.skip(i as int));
                    assert(merge_by(a@.skip(i + 1), b@.skip(j as int), order_of::<T>()) =~= a@.skip(
                        i + 1,
                    )) by {
                        if a@.skip(i + 1).len() == 0 {
                            assert(a@.skip(i + 1) =~= b@.skip(j as int));
                        }
                    }
                    assert(a@.skip(i as int) =~= seq![a@[i as int]] + a@.skip(i + 1));
                }
            }
            r.push(a[i].duplicate());
            i = i + 1;
        } else {
            proof {
                assert(b@.skip(j as int)[0] == b@[j as int]);
                assert(b@.skip(j as int).drop_first() =~= b@.skip(j + 1));
                if i < a.len() {
                    assert(a@.skip(i as int)[0] == a@[i as int]);
                    assert(rest == seq![b@[j as int]] + merge_by(
                        a@.skip(i as int),
                        b@.skip(j + 1),
                        order_of::<T>(),
                    ));
                } else {
                    assert(a@.skip(i as int).len() == 0);
                    assert(rest == b@.skip(j as int));
                    assert(merge_by(a@.skip(i as int), b@.skip(j + 1), order_of::<T>()) == b@.skip(
                        j + 1,
                    ));
                    assert(b@.skip(j as int) =~= seq![b@[j as int]] + b@.skip(j + 1));
                }
            }
            r.push(b[j].duplicate());
            j = j + 1;
        }
        proof {
            assert(r@ + merge_by(a@.skip(i as int), b@.skip(j as int), order_of::<T>()) =~= merge_by(
                a@,
                b@,
                order_of::<T>(),
            ));
        }
    }
    proof {
        assert(a@.skip(i as int).len() == 0 && b@.skip(j as int).len() == 0);
        assert(r@ =~= merge_by(a@, b@, order_of::<T>()));
    }
    r
}

/// Stable merge sort: `v` in the stable order of its type.
pub fn merge_sort<T: ListOrder>(v: Vec<T>) -> (r: Vec<T>)
    ensures
        r@ == stable_sort(v@, order_of::<T>()),
    decreases v@.len(),
{
    if v.len() <= 1 {
        proof {
            if v@.len() == 1 {
                assert(v@.drop_last() =~= Seq::<T>::empty());
                assert(stable_sort(v@.drop_last(), order_of::<T>()) == Seq::<T>::empty());
                assert(stable_insert(Seq::<T>::empty(), v@.last(), order_of::<T>()) =~= v@);
            }
        }
        return v;
    }
    let mid = v.len() / 2;
    let mut left = v;
    let ghost whole = left@;
    let right = left.split_off(mid);
    assert(whole =~= left@ + right@);
    let sorted_left = merge_sort(left);
    let sorted_right = merge_sort(right);
    proof {
        lemma_order_total_preorder::<T>();
        lemma_sort_concat(left@, right@, order_of::<T>());
    }
    merge(&sorted_left, &sorted_right)
}

} // verus!
