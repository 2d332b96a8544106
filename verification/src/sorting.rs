//! Stable insertion order, as a specification, with its laws.
use vstd::prelude::*;

verus! {

/// `x` inserted into `sorted` after every element that does not sort after it.
pub open spec fn insert_sorted_by<A>(sorted: Seq<A>, x: A, le: spec_fn(A, A) -> bool) -> Seq<A>
    decreases sorted.len(),
{
    if sorted.len() == 0 {
        seq![x]
    } else if le(sorted.last(), x) {
        sorted.push(x)
    } else {
        insert_sorted_by(sorted.drop_last(), x, le).push(sorted.last())
    }
}

/// `s` sorted by `le`, elements that compare equal keeping their order.
pub open spec fn insertion_sorted<A>(s: Seq<A>, le: spec_fn(A, A) -> bool) -> Seq<A>
    decreases s.len(),
{
    if s.len() == 0 {
        seq![]
    } else {
        insert_sorted_by(insertion_sorted(s.drop_last(), le), s.last(), le)
    }
}

/// Inserting after a prefix whose last element sorts no later than `x`, before a
/// suffix whose elements all sort after `x`.
pub proof fn lemma_insert_split<A>(a: Seq<A>, b: Seq<A>, x: A, le: spec_fn(A, A) -> bool)
    requires
        a.len() == 0 || le(a.last(), x),
        forall|k: int| 0 <= k < b.len() ==> !le(#[trigger] b[k], x),
    ensures
        insert_sorted_by(a + b, x, le) == a.push(x) + b,
    decreases b.len(),
{
    if b.len() == 0 {
        assert(a + b =~= a);
        if a.len() == 0 {
            assert(insert_sorted_by(a, x, le) =~= seq![x]);
        }
        assert(a.push(x) + b =~= a.push(x));
    } else {
        let s = a + b;
        assert(s.last() == b.last());
        assert(!le(b[b.len() - 1], x));
        assert(s.drop_last() =~= a + b.drop_last());
        lemma_insert_split(a, b.drop_last(), x, le);
        assert(insert_sorted_by(s, x, le) == insert_sorted_by(s.drop_last(), x, le).push(s.last()));
        assert(insert_sorted_by(s, x, le) =~= a.push(x) + b);
    }
}

/// Whether `le` orders all values: transitive and total.
pub open spec fn total_preorder<A>(le: spec_fn(A, A) -> bool) -> bool {
    &&& forall|a: A, b: A, c: A| #[trigger] le(a, b) && #[trigger] le(b, c) ==> le(a, c)
    &&& forall|a: A, b: A| #[trigger] le(a, b) || le(b, a)
}

/// Whether every element of `s` sorts no later than every element after it.
pub open spec fn is_sorted_by<A>(s: Seq<A>, le: spec_fn(A, A) -> bool) -> bool {
    forall|i: int, j: int| 0 <= i < j < s.len() ==> le(#[trigger] s[i], #[trigger] s[j])
}

proof fn lemma_insert_keeps_sorted<A>(s: Seq<A>, x: A, le: spec_fn(A, A) -> bool)
    requires
        total_preorder(le),
        is_sorted_by(s, le),
    ensures
        is_sorted_by(insert_sorted_by(s, x, le), le),
        insert_sorted_by(s, x, le).to_multiset() =~= s.to_multiset().insert(x),
    decreases s.len(),
{
    broadcast use vstd::seq_lib::group_to_multiset_ensures;

    if s.len() == 0 {
        assert(insert_sorted_by(s, x, le) =~= seq![x]);
        assert(seq![x] =~= Seq::<A>::empty().push(x));
    } else if le(s.last(), x) {
        let r = s.push(x);
        assert forall|i: int, j: int| 0 <= i < j < r.len() implies le(#[trigger] r[i], #[trigger] r[j]) by {
            if j == r.len() - 1 {
                if i < s.len() - 1 {
                    assert(le(s[i], s[s.len() - 1]));
                }
            }
        }
    } else {
        let t = s.drop_last();
        let last = s.last();
        assert(is_sorted_by(t, le));
        lemma_insert_keeps_sorted(t, x, le);
        let inner = insert_sorted_by(t, x, le);
        let r = inner.push(last);
        assert(le(x, last));
        assert forall|k: int| 0 <= k < inner.len() implies le(#[trigger] inner[k], last) by {
            assert(inner.to_multiset().contains(inner[k]));
            assert(t.to_multiset().insert(x).contains(inner[k]));
            if inner[k] != x {
                assert(t.to_multiset().contains(inner[k]));
                let m = choose|m: int| 0 <= m < t.len() && t[m] == inner[k];
                assert(le(s[m], s[s.len() - 1]));
            }
        }
        assert forall|i: int, j: int| 0 <= i < j < r.len() implies le(#[trigger] r[i], #[trigger] r[j]) by {
            if j == r.len() - 1 {
                assert(le(inner[i], last));
            } else {
                assert(le(inner[i], inner[j]));
            }
        }
        assert(s =~= t.push(last));
        assert(r.to_multiset() =~= s.to_multiset().insert(x));
    }
}

/// Insertion sorting by a total preorder yields a sorted permutation of the input.
pub proof fn lemma_insertion_sorted<A>(s: Seq<A>, le: spec_fn(A, A) -> bool)
    requires
        total_preorder(le),
    ensures
        is_sorted_by(insertion_sorted(s, le), le),
        insertion_sorted(s, le).to_multiset() =~= s.to_multiset(),
    decreases s.len(),
{
    broadcast use vstd::seq_lib::group_to_multiset_ensures;

    if s.len() > 0 {
        lemma_insertion_sorted(s.drop_last(), le);
        lemma_insert_keeps_sorted(insertion_sorted(s.drop_last(), le), s.last(), le);
        assert(s =~= s.drop_last().push(s.last()));
    }
}

} // verus!
