//! Sum of a multiset of integers.
//!
//! `mset_sum` gives the total of all values in a multiset, counted with
//! multiplicity.  It is the specification-level meaning of a record's
//! running `sum` field: because it is a function of the multiset alone,
//! any order of additions and merges yields the same total.

use vstd::multiset::Multiset;
use vstd::prelude::*;

verus! {

broadcast use vstd::multiset::group_multiset_axioms;

/// Total of all values of `m`, counted with multiplicity.
pub open spec fn mset_sum(m: Multiset<int>) -> int
    decreases m.len(),
    via mset_sum_decreases
{
    if m.len() == 0 {
        0
    } else {
        let x = m.choose();
        x + mset_sum(m.remove(x))
    }
}

#[via_fn]
proof fn mset_sum_decreases(m: Multiset<int>) {
    if m.len() != 0 {
        let x = m.choose();
        lemma_remove_len(m, x);
    }
}

/// Removing one occurrence of a contained value lowers the size by one.
proof fn lemma_remove_len(m: Multiset<int>, x: int)
    requires
        m.count(x) > 0,
    ensures
        m.remove(x).len() == m.len() - 1,
{
    assert(Multiset::singleton(x).subset_of(m)) by {
        assert(forall|v: int| #[trigger] Multiset::singleton(x).count(v) <= m.count(v));
    }
}

/// Removing any contained value takes exactly that value out of the sum.
pub proof fn lemma_mset_sum_remove(m: Multiset<int>, y: int)
    requires
        m.count(y) > 0,
    ensures
        mset_sum(m) == y + mset_sum(m.remove(y)),
    decreases m.len(),
{
    assert(m.len() > 0);
    let x = m.choose();
    if x == y {
    } else {
        lemma_remove_len(m, x);
        let m1 = m.remove(x);
        assert(m1.count(y) == m.count(y));
        lemma_mset_sum_remove(m1, y);
        let m2 = m.remove(y);
        assert(m2.count(x) == m.count(x));
        lemma_remove_len(m, y);
        lemma_mset_sum_remove(m2, x);
        assert(m1.remove(y) =~= m2.remove(x));
    }
}

/// Inserting a value adds exactly that value to the sum.
pub proof fn lemma_mset_sum_insert(m: Multiset<int>, v: int)
    ensures
        mset_sum(m.insert(v)) == mset_sum(m) + v,
{
    lemma_mset_sum_remove(m.insert(v), v);
    assert(m.insert(v).remove(v) =~= m);
}

/// The sum of a union is the sum of the parts.
pub proof fn lemma_mset_sum_add(a: Multiset<int>, b: Multiset<int>)
    ensures
        mset_sum(a.add(b)) == mset_sum(a) + mset_sum(b),
    decreases b.len(),
{
    if b.len() == 0 {
        assert(b =~= Multiset::<int>::empty());
        assert(a.add(b) =~= a);
    } else {
        let x = b.choose();
        lemma_remove_len(b, x);
        lemma_mset_sum_remove(b, x);
        lemma_mset_sum_add(a, b.remove(x));
        lemma_mset_sum_remove(a.add(b), x);
        assert(a.add(b).remove(x) =~= a.add(b.remove(x)));
    }
}

/// Element bounds carry over to the sum: each of `m.len()` values lies in
/// `[lo, hi]`, so the total lies in `[lo * len, hi * len]`.
pub proof fn lemma_mset_sum_bounds(m: Multiset<int>, lo: int, hi: int)
    requires
        forall|x: int| #[trigger] m.count(x) > 0 ==> lo <= x <= hi,
    ensures
        lo * m.len() <= mset_sum(m) <= hi * m.len(),
    decreases m.len(),
{
    if m.len() == 0 {
    } else {
        let x = m.choose();
        lemma_remove_len(m, x);
        let m1 = m.remove(x);
        assert(forall|v: int| #[trigger] m1.count(v) > 0 ==> m.count(v) > 0);
        lemma_mset_sum_bounds(m1, lo, hi);
        assert(lo * m.len() == lo * m1.len() + lo) by (nonlinear_arith)
            requires m.len() == m1.len() + 1;
        assert(hi * m.len() == hi * m1.len() + hi) by (nonlinear_arith)
            requires m.len() == m1.len() + 1;
    }
}

} // verus!
