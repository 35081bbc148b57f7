//! Stable insertion sort, stated as a spec function over any order, with its laws.
use vstd::prelude::*;

verus! {

broadcast use vstd::seq_lib::group_to_multiset_ensures;

/// `x` inserted into `s` after the last element that is `le` it and after every
/// element that follows it, i.e. behind all elements it does not precede.
pub open spec fn insert_sorted<T>(s: Seq<T>, x: T, le: spec_fn(T, T) -> bool) -> Seq<T>
    decreases s.len(),
{
    if s.len() == 0 {
        seq![x]
    } else if le(s.last(), x) {
        s.push(x)
    } else {
        insert_sorted(s.drop_last(), x, le).push(s.last())
    }
}

/// `s` sorted by insertion: the result of a stable sort of `s` by `le`.
pub open spec fn insertion_sorted<T>(s: Seq<T>, le: spec_fn(T, T) -> bool) -> Seq<T>
    decreases s.len(),
{
    if s.len() == 0 {
        seq![]
    } else {
        insert_sorted(insertion_sorted(s.drop_last(), le), s.last(), le)
    }
}

/// Every element is `le` every later one.
pub open spec fn is_sorted_by<T>(s: Seq<T>, le: spec_fn(T, T) -> bool) -> bool {
    forall|i: int, j: int| 0 <= i < j < s.len() ==> le(#[trigger] s[i], #[trigger] s[j])
}

/// `le` is total and transitive.
pub open spec fn is_total_preorder<T>(le: spec_fn(T, T) -> bool) -> bool {
    &&& forall|a: T, b: T| #[trigger] le(a, b) || le(b, a)
    &&& forall|a: T, b: T, c: T| #[trigger] le(a, b) && #[trigger] le(b, c) ==> le(a, c)
}

/// Where `insert_sorted` places `x`: behind index `j - 1`, when `s[j - 1]` is `le`
/// `x` and no element from `j` on is.
pub proof fn lemma_insert_sorted_at<T>(s: Seq<T>, x: T, le: spec_fn(T, T) -> bool, j: int)
    requires
        0 <= j <= s.len(),
        j == 0 || le(s[j - 1], x),
        forall|k: int| j <= k < s.len() ==> !le(#[trigger] s[k], x),
    ensures
        insert_sorted(s, x, le) == s.take(j).push(x) + s.skip(j),
    decreases s.len(),
{
    if s.len() == 0 {
        assert(s.take(j).push(x) + s.skip(j) =~= seq![x]);
    } else if le(s.last(), x) {
        if j < s.len() {
            assert(!le(s[s.len() - 1], x));
        }
        assert(s.take(j).push(x) + s.skip(j) =~= s.push(x));
    } else {
        let d = s.drop_last();
        if j == s.len() {
            assert(le(s[s.len() - 1], x));
        }
        assert forall|k: int| j <= k < d.len() implies !le(#[trigger] d[k], x) by {
            assert(d[k] == s[k]);
        }
        lemma_insert_sorted_at(d, x, le, j);
        assert((d.take(j).push(x) + d.skip(j)).push(s.last()) =~= s.take(j).push(x) + s.skip(j));
    }
}

/// Inserting adds exactly `x` to the multiset of elements.
pub proof fn lemma_insert_sorted_multiset<T>(s: Seq<T>, x: T, le: spec_fn(T, T) -> bool)
    ensures
        insert_sorted(s, x, le).to_multiset() =~= s.to_multiset().insert(x),
        insert_sorted(s, x, le).len() == s.len() + 1,
    decreases s.len(),
{
    if s.len() == 0 {
        assert(seq![x] =~= Seq::<T>::empty().push(x));
    } else if le(s.last(), x) {
    } else {
        let d = s.drop_last();
        lemma_insert_sorted_multiset(d, x, le);
        assert(d.push(s.last()) =~= s);
    }
}

/// Insertion sort rearranges `s`: the same elements, each as often.
pub proof fn lemma_insertion_sorted_permutation<T>(s: Seq<T>, le: spec_fn(T, T) -> bool)
    ensures
        insertion_sorted(s, le).to_multiset() =~= s.to_multiset(),
        insertion_sorted(s, le).len() == s.len(),
    decreases s.len(),
{
    if s.len() > 0 {
        let d = s.drop_last();
        lemma_insertion_sorted_permutation(d, le);
        lemma_insert_sorted_multiset(insertion_sorted(d, le), s.last(), le);
        assert(d.push(s.last()) =~= s);
    }
}

proof fn lemma_insert_sorted_elems<T>(s: Seq<T>, x: T, le: spec_fn(T, T) -> bool)
    ensures
        forall|y: T| insert_sorted(s, x, le).contains(y) <==> (y == x || s.contains(y)),
{
    lemma_insert_sorted_multiset(s, x, le);
    assert forall|y: T| insert_sorted(s, x, le).contains(y) <==> (y == x || s.contains(y)) by {
        assert(insert_sorted(s, x, le).to_multiset().count(y) == s.to_multiset().insert(x).count(
            y,
        ));
    }
}

/// Inserting into a sorted sequence keeps it sorted.
pub proof fn lemma_insert_sorted_keeps_order<T>(s: Seq<T>, x: T, le: spec_fn(T, T) -> bool)
    requires
        is_total_preorder(le),
        is_sorted_by(s, le),
    ensures
        is_sorted_by(insert_sorted(s, x, le), le),
    decreases s.len(),
{
    if s.len() == 0 {
    } else if le(s.last(), x) {
        let r = s.push(x);
        assert forall|i: int, j: int| 0 <= i < j < r.len() implies le(r[i], r[j]) by {
            if j == s.len() {
                if i < s.len() - 1 {
                    assert(le(s[i], s[s.len() - 1]));
                }
            }
        }
    } else {
        let d = s.drop_last();
        assert(is_sorted_by(d, le)) by {
            assert forall|i: int, j: int| 0 <= i < j < d.len() implies le(d[i], d[j]) by {
                assert(d[i] == s[i] && d[j] == s[j]);
            }
        }
        lemma_insert_sorted_keeps_order(d, x, le);
        lemma_insert_sorted_elems(d, x, le);
        let m = insert_sorted(d, x, le);
        let r = m.push(s.last());
        assert(le(x, s.last()));
        assert forall|i: int, j: int| 0 <= i < j < r.len() implies le(r[i], r[j]) by {
            assert(r[i] == m[i]);
            if j == m.len() {
                assert(r[j] == s.last());
                assert(m.contains(m[i]));
                if m[i] != x {
                    assert(d.contains(m[i]));
                    let k = choose|k: int| 0 <= k < d.len() && d[k] == m[i];
                    assert(d[k] == s[k]);
                    assert(le(s[k], s[s.len() - 1]));
                }
            } else {
                assert(r[j] == m[j]);
            }
        }
    }
}

/// Insertion sort by a total preorder gives a sorted sequence.
pub proof fn lemma_insertion_sorted_is_sorted<T>(s: Seq<T>, le: spec_fn(T, T) -> bool)
    requires
        is_total_preorder(le),
    ensures
        is_sorted_by(insertion_sorted(s, le), le),
    decreases s.len(),
{
    if s.len() > 0 {
        lemma_insertion_sorted_is_sorted(s.drop_last(), le);
        lemma_insert_sorted_keeps_order(insertion_sorted(s.drop_last(), le), s.last(), le);
    }
}

/// The views of a run of elements.
pub open spec fn views_of<T: View>(s: Seq<T>) -> Seq<T::V> {
    Seq::new(s.len(), |i: int| s[i]@)
}

/// Sorts `v` stably by the order `le` on the elements' views, which `leq` decides:
/// each element in turn goes behind the last of the sorted ones that is `le` it.
pub(crate) fn insertion_sort<T: View, F: Fn(&T, &T) -> bool>(
    v: &mut Vec<T>,
    leq: &F,
    Ghost(le): Ghost<spec_fn(T::V, T::V) -> bool>,
)
    requires
        forall|a: &T, b: &T| #[trigger] leq.requires((a, b)),
        forall|a: &T, b: &T, r: bool| #[trigger] leq.ensures((a, b), r) ==> r == le(a@, b@),
    ensures
        views_of(final(v)@) == insertion_sorted(views_of(old(v)@), le),
{
    let ghost kv = views_of(v@);
    let mut sorted: Vec<T> = Vec::new();
    let mut n: usize = 0;
    let total = v.len();
    assert(kv.skip(0) =~= kv);
    assert(kv.take(0) =~= seq![]);
    while v.len() > 0
        invariant
            n + v.len() == total,
            kv.len() == total,
            views_of(v@) == kv.skip(n as int),
            views_of(sorted@) == insertion_sorted(kv.take(n as int), le),
            forall|a: &T, b: &T| #[trigger] leq.requires((a, b)),
            forall|a: &T, b: &T, r: bool| #[trigger] leq.ensures((a, b), r) ==> r == le(a@, b@),
        decreases v.len(),
    {
        let ghost prev = v@;
        let e = v.remove(0);
        assert(e@ == kv[n as int]) by {
            assert(views_of(prev)[0] == kv.skip(n as int)[0]);
        }
        assert forall|k: int| 0 <= k < v@.len() implies views_of(v@)[k] == kv.skip(n + 1)[k] by {
            assert(v@[k] == prev[k + 1]);
            assert(views_of(prev)[k + 1] == kv.skip(n as int)[k + 1]);
        }
        assert(views_of(v@) =~= kv.skip(n + 1));
        let mut j = sorted.len();
        while j > 0 && !leq(&sorted[j - 1], &e)
            invariant
                j <= sorted.len(),
                forall|a: &T, b: &T| #[trigger] leq.requires((a, b)),
                forall|a: &T, b: &T, r: bool| #[trigger] leq.ensures((a, b), r) ==> r == le(a@, b@),
                forall|k: int| j <= k < sorted.len() ==> !le(#[trigger] sorted@[k]@, e@),
            decreases j,
        {
            j = j - 1;
        }
        let ghost sv = views_of(sorted@);
        proof {
            assert forall|k: int| j <= k < sv.len() implies !le(#[trigger] sv[k], e@) by {
                assert(sv[k] == sorted@[k]@);
            }
            if j > 0 {
                assert(sv[j - 1] == sorted@[j - 1]@);
            }
            lemma_insert_sorted_at(sv, e@, le, j as int);
            assert(kv.take(n + 1).drop_last() =~= kv.take(n as int));
        }
        sorted.insert(j, e);
        assert(views_of(sorted@) =~= sv.take(j as int).push(e@) + sv.skip(j as int));
        n = n + 1;
    }
    assert(kv.take(n as int) =~= kv);
    *v = sorted;
}

} // verus!
