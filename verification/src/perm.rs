//! Rearrangements of sequences.

use crate::layout::swapped;
use vstd::prelude::*;
use vstd::seq_lib::lemma_multiset_commutative;

verus! {

/// `b` holds the items of `a`, in some order.
pub open spec fn same_items<T>(a: Seq<T>, b: Seq<T>) -> bool {
    a.to_multiset() == b.to_multiset()
}

/// Exchanging two items rearranges.
pub proof fn lemma_swap_same_items<T>(s: Seq<T>, i: int, j: int)
    requires
        0 <= i < s.len(),
        0 <= j < s.len(),
    ensures
        same_items(s, swapped(s, i, j)),
{
    broadcast use vstd::multiset::group_multiset_axioms;

    let t = s.update(i, s[j]);
    vstd::seq_lib::to_multiset_update(s, i, s[j]);
    vstd::seq_lib::to_multiset_update(t, j, s[i]);
    vstd::seq_lib::to_multiset_contains(s, s[i]);
    vstd::seq_lib::to_multiset_contains(s, s[j]);
    assert(t[j] == s[j]);
    assert(swapped(s, i, j).to_multiset() =~= s.to_multiset());
}

/// Rearranging both parts of a sequence rearranges it.
pub proof fn lemma_concat_same_items<T>(a: Seq<T>, b: Seq<T>, c: Seq<T>, d: Seq<T>)
    requires
        same_items(a, c),
        same_items(b, d),
    ensures
        same_items(a + b, c + d),
{
    lemma_multiset_commutative(a, b);
    lemma_multiset_commutative(c, d);
}

/// A rearrangement keeps the length and the items.
pub proof fn lemma_same_items_contains<T>(a: Seq<T>, b: Seq<T>)
    requires
        same_items(a, b),
    ensures
        a.len() == b.len(),
        forall|x: T| a.contains(x) <==> b.contains(x),
{
    vstd::seq_lib::to_multiset_len(a);
    vstd::seq_lib::to_multiset_len(b);
    assert forall|x: T| a.contains(x) <==> b.contains(x) by {
        vstd::seq_lib::to_multiset_contains(a, x);
        vstd::seq_lib::to_multiset_contains(b, x);
    }
}

/// A rearrangement repeats nothing that was not repeated.
pub proof fn lemma_same_items_distinct<T>(a: Seq<T>, b: Seq<T>)
    requires
        same_items(a, b),
        a.no_duplicates(),
    ensures
        b.no_duplicates(),
{
    a.lemma_multiset_has_no_duplicates();
    b.lemma_multiset_has_no_duplicates_conv();
}

/// How many items `p` holds of.
pub open spec fn count_by<T>(s: Seq<T>, p: spec_fn(T) -> bool) -> nat
    decreases s.len(),
{
    if s.len() == 0 {
        0
    } else {
        count_by(s.drop_last(), p) + if p(s.last()) {
            1nat
        } else {
            0
        }
    }
}

pub proof fn lemma_count_concat<T>(a: Seq<T>, b: Seq<T>, p: spec_fn(T) -> bool)
    ensures
        count_by(a + b, p) == count_by(a, p) + count_by(b, p),
    decreases b.len(),
{
    if b.len() == 0 {
        assert(a + b =~= a);
    } else {
        lemma_count_concat(a, b.drop_last(), p);
        assert((a + b).drop_last() =~= a + b.drop_last());
    }
}

pub proof fn lemma_count_all<T>(s: Seq<T>, p: spec_fn(T) -> bool)
    requires
        forall|i: int| 0 <= i < s.len() ==> p(#[trigger] s[i]),
    ensures
        count_by(s, p) == s.len(),
    decreases s.len(),
{
    if s.len() > 0 {
        lemma_count_all(s.drop_last(), p);
    }
}

pub proof fn lemma_count_none<T>(s: Seq<T>, p: spec_fn(T) -> bool)
    requires
        forall|i: int| 0 <= i < s.len() ==> !p(#[trigger] s[i]),
    ensures
        count_by(s, p) == 0,
    decreases s.len(),
{
    if s.len() > 0 {
        lemma_count_none(s.drop_last(), p);
    }
}

pub proof fn lemma_count_at_most<T>(s: Seq<T>, p: spec_fn(T) -> bool)
    ensures
        count_by(s, p) <= s.len(),
    decreases s.len(),
{
    if s.len() > 0 {
        lemma_count_at_most(s.drop_last(), p);
    }
}

/// A rearrangement keeps every count.
pub proof fn lemma_same_items_count<T>(a: Seq<T>, b: Seq<T>, p: spec_fn(T) -> bool)
    requires
        same_items(a, b),
    ensures
        count_by(a, p) == count_by(b, p),
    decreases a.len(),
{
    lemma_same_items_contains(a, b);
    if a.len() > 0 {
        let x = a.last();
        assert(a.contains(x));
        let i = choose|i: int| 0 <= i < b.len() && b[i] == x;
        let rest = b.remove(i);
        vstd::seq_lib::to_multiset_remove(b, i);
        vstd::seq_lib::to_multiset_remove(a, a.len() - 1);
        assert(a.remove(a.len() - 1) =~= a.drop_last());
        lemma_same_items_count(a.drop_last(), rest, p);
        let (l, r) = (b.subrange(0, i), b.subrange(i + 1, b.len() as int));
        assert(b =~= l.push(x) + r);
        assert(rest =~= l + r);
        lemma_count_concat(l.push(x), r, p);
        lemma_count_concat(l, r, p);
        assert(l.push(x).drop_last() =~= l);
    }
}

/// Rearranging the items rearranges what a function makes of them.
pub proof fn lemma_map_same_items<T, U>(a: Seq<T>, b: Seq<T>, f: spec_fn(T) -> U)
    requires
        same_items(a, b),
    ensures
        same_items(a.map_values(f), b.map_values(f)),
    decreases a.len(),
{
    broadcast use vstd::multiset::group_multiset_axioms;

    lemma_same_items_contains(a, b);
    if a.len() == 0 {
        assert(a.map_values(f) =~= b.map_values(f));
    } else {
        let x = a.last();
        assert(a.contains(x));
        let i = choose|i: int| 0 <= i < b.len() && b[i] == x;
        let rest = b.remove(i);
        vstd::seq_lib::to_multiset_remove(b, i);
        vstd::seq_lib::to_multiset_remove(a, a.len() - 1);
        assert(a.remove(a.len() - 1) =~= a.drop_last());
        lemma_map_same_items(a.drop_last(), rest, f);
        let fa = a.map_values(f);
        let fb = b.map_values(f);
        assert(fb.remove(i) =~= rest.map_values(f));
        assert(fa.remove(fa.len() - 1) =~= a.drop_last().map_values(f));
        vstd::seq_lib::to_multiset_remove(fb, i);
        vstd::seq_lib::to_multiset_remove(fa, fa.len() - 1);
        vstd::seq_lib::to_multiset_contains(fa, f(x));
        vstd::seq_lib::to_multiset_contains(fb, f(x));
        assert(fa[fa.len() - 1] == f(x));
        assert(fb[i] == f(x));
        let (ma, mb) = (fa.to_multiset(), fb.to_multiset());
        assert(ma.contains(f(x)) && mb.contains(f(x)));
        assert forall|v: U| #[trigger] ma.count(v) == mb.count(v) by {
            assert(ma.remove(f(x)).count(v) == mb.remove(f(x)).count(v));
        }
        assert(ma =~= mb);
    }
}

} // verus!
