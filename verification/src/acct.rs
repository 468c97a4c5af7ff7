//! Byte accounting: the sum of the usable sizes recorded in a map from block
//! address to size, and the lemmas that let the space keep `active_bytes`
//! equal to that sum across allocation, free and sweep.

use vstd::prelude::*;

verus! {

/// Sum of all values of a finite map from address to usable size.
pub open spec fn sum_over(m: Map<u64, u64>) -> int
    decreases m.dom().len() when m.dom().finite()
{
    if m.dom().finite() && m.dom().len() > 0 {
        let k = m.dom().choose();
        m[k] + sum_over(m.remove(k))
    } else {
        0
    }
}

/// Taking out any one entry takes exactly its value out of the sum.
pub proof fn lemma_sum_remove(m: Map<u64, u64>, k: u64)
    requires
        m.dom().finite(),
        m.dom().contains(k),
    ensures
        sum_over(m) == m[k] + sum_over(m.remove(k)),
    decreases m.dom().len(),
{
    let c = m.dom().choose();
    assert(m.dom().len() > 0);
    if c == k {
        assert(sum_over(m) == m[k] + sum_over(m.remove(k)));
    } else {
        lemma_sum_remove(m.remove(c), k);
        lemma_sum_remove(m.remove(k), c);
        assert(m.remove(c).remove(k) =~= m.remove(k).remove(c));
        assert(sum_over(m) == m[c] + sum_over(m.remove(c)));
        assert(sum_over(m.remove(c)) == m[k] + sum_over(m.remove(c).remove(k)));
        assert(sum_over(m.remove(k)) == m[c] + sum_over(m.remove(k).remove(c)));
    }
}

/// Adding a fresh entry adds exactly its value to the sum.
pub proof fn lemma_sum_insert(m: Map<u64, u64>, k: u64, v: u64)
    requires
        m.dom().finite(),
        !m.dom().contains(k),
    ensures
        sum_over(m.insert(k, v)) == sum_over(m) + v,
{
    lemma_sum_remove(m.insert(k, v), k);
    assert(m.insert(k, v).remove(k) =~= m);
}

/// A sum of unsigned sizes is never negative.
pub proof fn lemma_sum_nonneg(m: Map<u64, u64>)
    requires
        m.dom().finite(),
    ensures
        sum_over(m) >= 0,
    decreases m.dom().len(),
{
    if m.dom().len() > 0 {
        let k = m.dom().choose();
        lemma_sum_nonneg(m.remove(k));
    }
}

/// Allocating a fresh block and then freeing that same block leaves the
/// recorded live bytes — and with them `active_bytes` — exactly where they
/// were.
pub proof fn lemma_alloc_free_restores(m: Map<u64, u64>, a: u64, bytes: u64)
    requires
        m.dom().finite(),
        !m.dom().contains(a),
    ensures
        sum_over(m.insert(a, bytes).remove(a)) == sum_over(m),
        sum_over(m.insert(a, bytes)) - bytes == sum_over(m),
{
    lemma_sum_insert(m, a, bytes);
    lemma_sum_remove(m.insert(a, bytes), a);
}

} // verus!
