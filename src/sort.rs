use vstd::prelude::*;

/* -------------------------- */
/*  Comparison-based Sorting  */
/* -------------------------- */

/// # Bubble Sort
pub mod bubble;
pub use bubble::Bubble;

/// # Insertion Sort
pub mod insertion;
pub use insertion::Insertion;

/// # Merge Sort
pub mod merge;
pub use merge::Merge;

/// # Quick Sort
pub mod quick;
pub use quick::Quick;

/// # Selection Sort
pub mod selection;
pub use selection::Selection;

verus! {

broadcast use vstd::seq_lib::group_to_multiset_ensures;

/// `a` is `b` with the elements from `lo` up to `hi` permuted among
/// themselves and every other element in place.
pub open spec fn perm_range(a: Seq<i32>, b: Seq<i32>, lo: int, hi: int) -> bool {
    &&& a.len() == b.len()
    &&& forall|t: int| 0 <= t < a.len() && !(lo <= t < hi) ==> a[t] == b[t]
    &&& a.subrange(lo, hi).to_multiset() == b.subrange(lo, hi).to_multiset()
}

/// A permutation of a range is a permutation of every range around it.
pub proof fn lemma_perm_widen(a: Seq<i32>, b: Seq<i32>, lo: int, hi: int, lo2: int, hi2: int)
    requires
        perm_range(a, b, lo, hi),
        0 <= lo2 <= lo <= hi <= hi2 <= a.len(),
    ensures
        perm_range(a, b, lo2, hi2),
{
    let a1 = a.subrange(lo2, lo);
    let a2 = a.subrange(lo, hi);
    let a3 = a.subrange(hi, hi2);
    let b1 = b.subrange(lo2, lo);
    let b2 = b.subrange(lo, hi);
    let b3 = b.subrange(hi, hi2);
    assert(a1 =~= b1);
    assert(a3 =~= b3);
    assert(a.subrange(lo2, hi2) =~= a1 + a2 + a3);
    assert(b.subrange(lo2, hi2) =~= b1 + b2 + b3);
    vstd::seq_lib::lemma_multiset_commutative(a1 + a2, a3);
    vstd::seq_lib::lemma_multiset_commutative(a1, a2);
    vstd::seq_lib::lemma_multiset_commutative(b1 + b2, b3);
    vstd::seq_lib::lemma_multiset_commutative(b1, b2);
}

/// Exchanging two elements of a range permutes that range.
pub proof fn lemma_swap_perm(s: Seq<i32>, i: int, j: int, lo: int, hi: int)
    requires
        0 <= lo <= i < hi <= s.len(),
        lo <= j < hi,
    ensures
        perm_range(s.update(i, s[j]).update(j, s[i]), s, lo, hi),
{
    let n = s.update(i, s[j]).update(j, s[i]);
    let sub = s.subrange(lo, hi);
    let s1 = sub.update(i - lo, s[j]);
    let s2 = s1.update(j - lo, s[i]);
    assert(n.subrange(lo, hi) =~= s2);
    assert(s1.to_multiset() == sub.to_multiset().insert(s[j]).remove(s[i]));
    assert(s2.to_multiset() == s1.to_multiset().insert(s[i]).remove(s1[j - lo]));
    assert(s1[j - lo] == s[j]);
    assert(sub.to_multiset().insert(s[j]).remove(s[i]).insert(s[i]).remove(s[j]) =~= sub.to_multiset());
}

/// Permutations of one range compose.
pub proof fn lemma_perm_trans(a: Seq<i32>, b: Seq<i32>, c: Seq<i32>, lo: int, hi: int)
    requires
        perm_range(a, b, lo, hi),
        perm_range(b, c, lo, hi),
    ensures
        perm_range(a, c, lo, hi),
{
}

/// A permutation of a range keeps the multiset of the whole sequence.
pub proof fn lemma_perm_whole(a: Seq<i32>, b: Seq<i32>, lo: int, hi: int)
    requires
        perm_range(a, b, lo, hi),
        0 <= lo <= hi <= a.len(),
    ensures
        a.to_multiset() == b.to_multiset(),
{
    lemma_perm_widen(a, b, lo, hi, 0, a.len() as int);
    assert(a.subrange(0, a.len() as int) =~= a);
    assert(b.subrange(0, b.len() as int) =~= b);
}

/// Each element of a permuted range comes from the range before.
pub proof fn lemma_perm_member(a: Seq<i32>, b: Seq<i32>, lo: int, hi: int, t: int)
    requires
        perm_range(a, b, lo, hi),
        0 <= lo <= t < hi <= a.len(),
    ensures
        exists|u: int| lo <= u < hi && b[u] == a[t],
{
    let sa = a.subrange(lo, hi);
    let sb = b.subrange(lo, hi);
    assert(sa[t - lo] == a[t]);
    assert(sa.contains(a[t]));
    assert(sa.to_multiset().count(a[t]) > 0);
    assert(sb.to_multiset().count(a[t]) > 0);
    assert(sb.contains(a[t]));
    let u = choose|u: int| 0 <= u < sb.len() && sb[u] == a[t];
    assert(b[lo + u] == a[t]);
}

/// A bound on every element of a range survives its permutation.
pub proof fn lemma_perm_bounds(a: Seq<i32>, b: Seq<i32>, lo: int, hi: int, below: int, above: int)
    requires
        perm_range(a, b, lo, hi),
        0 <= lo <= hi <= a.len(),
        forall|u: int| #![trigger b[u]] lo <= u < hi ==> below <= b[u] <= above,
    ensures
        forall|t: int| #![trigger a[t]] lo <= t < hi ==> below <= a[t] <= above,
{
    assert forall|t: int| #![trigger a[t]] lo <= t < hi implies below <= a[t] <= above by {
        lemma_perm_member(a, b, lo, hi, t);
    }
}

/// Every element is at most every later one.
pub open spec fn sorted(s: Seq<i32>) -> bool {
    forall|a: int, b: int| 0 <= a < b < s.len() ==> s[a] <= s[b]
}

/// The elements from `lo` up to, not including, `hi` are in order.
pub open spec fn sorted_range(s: Seq<i32>, lo: int, hi: int) -> bool {
    forall|a: int, b: int| lo <= a < b < hi ==> s[a] <= s[b]
}

/// `after` is `before` put in order.
pub open spec fn sorts(after: Seq<i32>, before: Seq<i32>) -> bool {
    sorted(after) && after.to_multiset() == before.to_multiset()
}

/// Exchanges `a[i]` and `a[j]`; the multiset of elements stays.
pub fn swap_at(a: &mut [i32], i: usize, j: usize)
    requires
        i < old(a)@.len(),
        j < old(a)@.len(),
    ensures
        final(a)@ == old(a)@.update(i as int, old(a)@[j as int]).update(j as int, old(a)@[i as int]),
        final(a)@.to_multiset() == old(a)@.to_multiset(),
{
    let x = a[i];
    let y = a[j];
    a[i] = y;
    a[j] = x;
    proof {
        let s = old(a)@;
        let s1 = s.update(i as int, y);
        assert(s1.to_multiset() == s.to_multiset().insert(y).remove(x));
        assert(final(a)@.to_multiset() == s1.to_multiset().insert(x).remove(s1[j as int]));
        if i == j {
            assert(s1[j as int] == y);
        } else {
            assert(s1[j as int] == y);
        }
        assert(s.to_multiset().insert(y).remove(x).insert(x).remove(y) =~= s.to_multiset());
    }
}

} // verus!
