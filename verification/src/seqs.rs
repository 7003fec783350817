//! Facts about sequences shared by the sorting routines of the library.
use vstd::prelude::*;
use vstd::multiset::Multiset;

verus! {

/// Inserting an element into a sequence adds it to the sequence's multiset.
pub proof fn lemma_insert_to_multiset<A>(s: Seq<A>, p: int, x: A)
    requires
        0 <= p <= s.len(),
    ensures
        s.insert(p, x).to_multiset() =~= s.to_multiset().insert(x),
{
    broadcast use vstd::seq_lib::group_to_multiset_ensures;
    broadcast use vstd::multiset::group_multiset_axioms;
    let a = s.subrange(0, p);
    let b = s.subrange(p, s.len() as int);
    assert(s =~= a + b);
    assert(s.insert(p, x) =~= a.push(x) + b);
    vstd::seq_lib::lemma_multiset_commutative(a.push(x), b);
    vstd::seq_lib::lemma_multiset_commutative(a, b);
    assert(a.push(x).to_multiset() =~= a.to_multiset().insert(x));
}

/// Taking one more element of a sequence adds that element to the multiset.
pub proof fn lemma_take_push_multiset<A>(s: Seq<A>, i: int)
    requires
        0 <= i < s.len(),
    ensures
        s.take(i + 1).to_multiset() =~= s.take(i).to_multiset().insert(s[i]),
{
    broadcast use vstd::seq_lib::group_to_multiset_ensures;
    assert(s.take(i + 1) =~= s.take(i).push(s[i]));
}

/// A sequence and a permutation of it contain the same elements.
pub proof fn lemma_multiset_contains<A>(s: Seq<A>, t: Seq<A>, x: A)
    requires
        s.to_multiset() == t.to_multiset(),
    ensures
        s.contains(x) <==> t.contains(x),
{
    s.to_multiset_ensures();
    t.to_multiset_ensures();
    assert(s.contains(x) <==> s.to_multiset().count(x) > 0);
    assert(t.contains(x) <==> t.to_multiset().count(x) > 0);
}


/// Insert `e` into `s` from the back: it moves before every trailing element it
/// is `less` than.
pub open spec fn insert_from_end<A>(s: Seq<A>, e: A, less: spec_fn(A, A) -> bool) -> Seq<A>
    decreases s.len(),
{
    if s.len() == 0 {
        seq![e]
    } else if less(e, s.last()) {
        insert_from_end(s.drop_last(), e, less).push(s.last())
    } else {
        s.push(e)
    }
}

/// Stable insertion sort of `s` under the strict comparison `less`.
pub open spec fn isort<A>(s: Seq<A>, less: spec_fn(A, A) -> bool) -> Seq<A>
    decreases s.len(),
{
    if s.len() == 0 {
        s
    } else {
        insert_from_end(isort(s.drop_last(), less), s.last(), less)
    }
}

/// Inserting at the first position after which `e` is less than every element
/// is what `insert_from_end` does.
pub proof fn lemma_insert_from_end_at<A>(s: Seq<A>, e: A, less: spec_fn(A, A) -> bool, p: int)
    requires
        0 <= p <= s.len(),
        forall|k: int| p <= k < s.len() ==> less(e, #[trigger] s[k]),
        p > 0 ==> !less(e, s[p - 1]),
    ensures
        insert_from_end(s, e, less) == s.insert(p, e),
    decreases s.len(),
{
    if s.len() == 0 {
        assert(s.insert(p, e) =~= seq![e]);
    } else if p == s.len() {
        assert(!less(e, s.last()));
        assert(s.insert(p, e) =~= s.push(e));
    } else {
        assert(less(e, s.last()));
        let t = s.drop_last();
        assert forall|k: int| p <= k < t.len() implies less(e, #[trigger] t[k]) by {
            assert(t[k] == s[k]);
        }
        lemma_insert_from_end_at(t, e, less, p);
        assert(t.insert(p, e).push(s.last()) =~= s.insert(p, e));
    }
}

pub proof fn lemma_insert_from_end_multiset<A>(s: Seq<A>, e: A, less: spec_fn(A, A) -> bool)
    ensures
        insert_from_end(s, e, less).to_multiset() =~= s.to_multiset().insert(e),
    decreases s.len(),
{
    broadcast use vstd::seq_lib::group_to_multiset_ensures;
    broadcast use vstd::multiset::group_multiset_axioms;
    if s.len() == 0 {
        assert(seq![e] =~= s.push(e));
    } else if less(e, s.last()) {
        let t = s.drop_last();
        lemma_insert_from_end_multiset(t, e, less);
        assert(s =~= t.push(s.last()));
    } else {
    }
}

/// Insertion sort permutes its input.
pub proof fn lemma_isort_multiset<A>(s: Seq<A>, less: spec_fn(A, A) -> bool)
    ensures
        isort(s, less).to_multiset() =~= s.to_multiset(),
        isort(s, less).len() == s.len(),
    decreases s.len(),
{
    broadcast use vstd::seq_lib::group_to_multiset_ensures;
    broadcast use vstd::multiset::group_multiset_axioms;
    if s.len() > 0 {
        let t = s.drop_last();
        lemma_isort_multiset(t, less);
        lemma_insert_from_end_multiset(isort(t, less), s.last(), less);
        assert(s =~= t.push(s.last()));
        isort(s, less).to_multiset_ensures();
        isort(t, less).to_multiset_ensures();
    }
}

/// No two neighbours are out of order.
pub open spec fn adjacent_ordered<A>(s: Seq<A>, less: spec_fn(A, A) -> bool) -> bool {
    forall|k: int| 0 <= k < s.len() - 1 ==> !less(#[trigger] s[k + 1], s[k])
}

/// `less` never holds both ways.
pub open spec fn asymmetric<A>(less: spec_fn(A, A) -> bool) -> bool {
    forall|a: A, b: A| #[trigger] less(a, b) ==> !less(b, a)
}

proof fn lemma_insert_from_end_ordered<A>(s: Seq<A>, e: A, less: spec_fn(A, A) -> bool)
    requires
        adjacent_ordered(s, less),
        asymmetric(less),
    ensures
        adjacent_ordered(insert_from_end(s, e, less), less),
        insert_from_end(s, e, less).len() == s.len() + 1,
        s.len() > 0 ==> (insert_from_end(s, e, less).last() == s.last()
            || insert_from_end(s, e, less).last() == e),
        s.len() > 0 && !less(e, s.last()) ==> insert_from_end(s, e, less).last() == e,
        s.len() > 0 && less(e, s.last()) ==> insert_from_end(s, e, less).last() == s.last(),
    decreases s.len(),
{
    if s.len() == 0 {
    } else if less(e, s.last()) {
        let t = s.drop_last();
        assert(adjacent_ordered(t, less)) by {
            assert forall|k: int| 0 <= k < t.len() - 1 implies !less(#[trigger] t[k + 1], t[k]) by {
                assert(t[k + 1] == s[k + 1] && t[k] == s[k]);
            }
        }
        lemma_insert_from_end_ordered(t, e, less);
        let r = insert_from_end(t, e, less);
        let out = r.push(s.last());
        assert forall|k: int| 0 <= k < out.len() - 1 implies !less(#[trigger] out[k + 1], out[k]) by {
            if k < r.len() - 1 {
                assert(out[k + 1] == r[k + 1] && out[k] == r[k]);
            } else {
                // the last pair: r.last() is e or t.last()
                assert(out[k] == r.last());
                assert(out[k + 1] == s.last());
                if t.len() > 0 && r.last() == t.last() {
                    let k2 = s.len() - 2;
                    assert(t.last() == s[k2]);
                    assert(!less(s[k2 + 1], s[k2]));
                } else {
                    assert(r.last() == e);
                }
            }
        }
    } else {
        let out = s.push(e);
        assert forall|k: int| 0 <= k < out.len() - 1 implies !less(#[trigger] out[k + 1], out[k]) by {
            if k < s.len() - 1 {
                assert(out[k + 1] == s[k + 1] && out[k] == s[k]);
            }
        }
    }
}

/// Insertion sort under an asymmetric comparison leaves no neighbours out of order.
pub proof fn lemma_isort_ordered<A>(s: Seq<A>, less: spec_fn(A, A) -> bool)
    requires
        asymmetric(less),
    ensures
        adjacent_ordered(isort(s, less), less),
    decreases s.len(),
{
    if s.len() > 0 {
        lemma_isort_ordered(s.drop_last(), less);
        lemma_insert_from_end_ordered(isort(s.drop_last(), less), s.last(), less);
    }
}

/// Sorting one more element of the input inserts it into the sorted prefix.
pub proof fn lemma_isort_take<A>(s: Seq<A>, i: int, less: spec_fn(A, A) -> bool)
    requires
        0 <= i < s.len(),
    ensures
        isort(s.take(i + 1), less) == insert_from_end(isort(s.take(i), less), s[i], less),
{
    assert(s.take(i + 1).drop_last() =~= s.take(i));
}


/// `s[a..b]`, with machine indices.
pub open spec fn slice_of<A>(s: Seq<A>, a: usize, b: usize) -> Seq<A> {
    s.subrange(a as int, b as int)
}

/// `s[i..]`, with a machine index.
pub open spec fn skip_from<A>(s: Seq<A>, i: usize) -> Seq<A> {
    s.skip(i as int)
}

/// `s[..i]`, with a machine index.
pub open spec fn take_to<A>(s: Seq<A>, i: usize) -> Seq<A> {
    s.take(i as int)
}

/// `lemma_insert_from_end_at` with a machine index.
pub proof fn lemma_insert_from_end_at_index<A>(s: Seq<A>, e: A, less: spec_fn(A, A) -> bool, p: usize)
    requires
        p <= s.len(),
        forall|k: int| p <= k < s.len() ==> less(e, #[trigger] s[k]),
        p > 0 ==> !less(e, s[p - 1]),
    ensures
        insert_from_end(s, e, less) == s.insert(p as int, e),
{
    lemma_insert_from_end_at(s, e, less, p as int);
}

/// `lemma_isort_take` with a machine index.
pub proof fn lemma_isort_take_index<A>(s: Seq<A>, i: usize, less: spec_fn(A, A) -> bool)
    requires
        i < s.len(),
        i + 1 <= usize::MAX,
    ensures
        isort(take_to(s, (i + 1) as usize), less) == insert_from_end(isort(take_to(s, i), less), s[i as int], less),
{
    lemma_isort_take(s, i as int, less);
    assert(take_to(s, (i + 1) as usize) == s.take(i + 1));
}


proof fn lemma_insert_from_end_map<A, B>(
    s: Seq<A>,
    e: A,
    f: spec_fn(A) -> B,
    less_a: spec_fn(A, A) -> bool,
    less_b: spec_fn(B, B) -> bool,
)
    requires
        forall|x: A, y: A| #[trigger] less_a(x, y) == less_b(f(x), f(y)),
    ensures
        insert_from_end(s, e, less_a).map_values(f) == insert_from_end(s.map_values(f), f(e), less_b),
    decreases s.len(),
{
    if s.len() == 0 {
        assert(seq![e].map_values(f) =~= seq![f(e)]);
    } else {
        assert(s.map_values(f).last() == f(s.last()));
        assert(s.map_values(f).drop_last() =~= s.drop_last().map_values(f));
        assert(less_a(e, s.last()) == less_b(f(e), f(s.last())));
        if less_a(e, s.last()) {
            lemma_insert_from_end_map(s.drop_last(), e, f, less_a, less_b);
            assert(insert_from_end(s.drop_last(), e, less_a).push(s.last()).map_values(f)
                =~= insert_from_end(s.drop_last(), e, less_a).map_values(f).push(f(s.last())));
        } else {
            assert(s.push(e).map_values(f) =~= s.map_values(f).push(f(e)));
        }
    }
}

/// Sorting commutes with a map that carries one comparison to the other.
pub proof fn lemma_isort_map<A, B>(
    s: Seq<A>,
    f: spec_fn(A) -> B,
    less_a: spec_fn(A, A) -> bool,
    less_b: spec_fn(B, B) -> bool,
)
    requires
        forall|x: A, y: A| #[trigger] less_a(x, y) == less_b(f(x), f(y)),
    ensures
        isort(s, less_a).map_values(f) == isort(s.map_values(f), less_b),
    decreases s.len(),
{
    if s.len() > 0 {
        lemma_isort_map(s.drop_last(), f, less_a, less_b);
        assert(s.map_values(f).drop_last() =~= s.drop_last().map_values(f));
        assert(s.map_values(f).last() == f(s.last()));
        lemma_insert_from_end_map(isort(s.drop_last(), less_a), s.last(), f, less_a, less_b);
    }
}


/// `insert_from_end` puts `e` somewhere into `s` and changes nothing else.
pub proof fn lemma_insert_from_end_is_insert<A>(s: Seq<A>, e: A, less: spec_fn(A, A) -> bool) -> (p: int)
    ensures
        0 <= p <= s.len(),
        insert_from_end(s, e, less) == s.insert(p, e),
    decreases s.len(),
{
    if s.len() == 0 {
        assert(s.insert(0, e) =~= seq![e]);
        0
    } else if less(e, s.last()) {
        let q = lemma_insert_from_end_is_insert(s.drop_last(), e, less);
        assert(s.drop_last().insert(q, e).push(s.last()) =~= s.insert(q, e));
        q
    } else {
        assert(s.insert(s.len() as int, e) =~= s.push(e));
        s.len() as int
    }
}

} // verus!
