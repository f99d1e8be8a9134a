//! Stable sorting, specified exactly: `sort_le` is insertion sort at the
//! specification level, inserting each element after every element it is
//! `leq`-related to, so equal elements keep their input order.

use vstd::prelude::*;

verus! {

/// `s` is ordered by `leq`.
pub open spec fn sorted_by<T>(leq: spec_fn(T, T) -> bool, s: Seq<T>) -> bool {
    forall|i: int, j: int| 0 <= i < j < s.len() ==> leq(s[i], s[j])
}

/// `leq` compares any two values and chains.
pub open spec fn total_preorder<T>(leq: spec_fn(T, T) -> bool) -> bool {
    &&& forall|a: T, b: T| #[trigger] leq(a, b) || #[trigger] leq(b, a)
    &&& forall|a: T, b: T, c: T| #[trigger] leq(a, b) && #[trigger] leq(b, c) ==> leq(a, c)
}

/// `x` placed into `s` after every element `leq`-below or equal to it.
pub open spec fn insert_le<T>(leq: spec_fn(T, T) -> bool, s: Seq<T>, x: T) -> Seq<T>
    decreases s.len(),
{
    if s.len() == 0 {
        seq![x]
    } else if leq(s.last(), x) {
        s.push(x)
    } else {
        insert_le(leq, s.drop_last(), x).push(s.last())
    }
}

/// Stable insertion sort of `s` by `leq`.
pub open spec fn sort_le<T>(leq: spec_fn(T, T) -> bool, s: Seq<T>) -> Seq<T>
    decreases s.len(),
{
    if s.len() == 0 {
        s
    } else {
        insert_le(leq, sort_le(leq, s.drop_last()), s.last())
    }
}

/// On a sorted sequence, `insert_le` is insertion at the boundary index `j`
/// between the elements `leq` `x` and the rest, and the result is sorted.
pub proof fn lemma_insert_le_exact<T>(leq: spec_fn(T, T) -> bool, s: Seq<T>, x: T, j: int)
    requires
        total_preorder(leq),
        sorted_by(leq, s),
        0 <= j <= s.len(),
        forall|i: int| 0 <= i < j ==> leq(s[i], x),
        forall|i: int| j <= i < s.len() ==> !leq(s[i], x),
    ensures
        insert_le(leq, s, x) == s.insert(j, x),
        sorted_by(leq, s.insert(j, x)),
    decreases s.len(),
{
    let t = s.insert(j, x);
    assert forall|a: int, b: int| 0 <= a < b < t.len() implies leq(t[a], t[b]) by {
        if a == j {
            assert(t[b] == s[b - 1] && b - 1 >= j);
            assert(leq(x, s[b - 1]));
        } else if b == j {
            assert(t[a] == s[a] && a < j);
        } else {
            let a0: int = if a < j { a } else { a - 1 };
            let b0: int = if b < j { b } else { b - 1 };
            assert(t[a] == s[a0] && t[b] == s[b0] && a0 < b0);
        }
    }
    if s.len() == 0 {
        assert(insert_le(leq, s, x) =~= s.insert(j, x));
    } else if leq(s.last(), x) {
        assert(j == s.len());
        assert(s.push(x) =~= s.insert(j, x));
    } else {
        assert(j < s.len());
        lemma_insert_le_exact(leq, s.drop_last(), x, j);
        assert(insert_le(leq, s.drop_last(), x).push(s.last()) =~= s.insert(j, x)) by {
            assert(insert_le(leq, s.drop_last(), x) == s.drop_last().insert(j, x));
            assert(s.drop_last().insert(j, x).push(s.last()) =~= s.insert(j, x));
        }
    }
}

/// The first index whose element is not `leq`-below-or-equal `x`.
pub open spec fn spec_boundary<T>(leq: spec_fn(T, T) -> bool, s: Seq<T>, x: T) -> int
    decreases s.len(),
{
    if s.len() == 0 {
        0
    } else if !leq(s[0], x) {
        0
    } else {
        1 + spec_boundary(leq, s.drop_first(), x)
    }
}

/// On a sorted sequence, the boundary splits it into the elements `leq` `x`
/// and the rest.
pub proof fn lemma_boundary_props<T>(leq: spec_fn(T, T) -> bool, s: Seq<T>, x: T)
    requires
        total_preorder(leq),
        sorted_by(leq, s),
    ensures
        0 <= spec_boundary(leq, s, x) <= s.len(),
        forall|i: int| 0 <= i < spec_boundary(leq, s, x) ==> leq(#[trigger] s[i], x),
        forall|i: int| spec_boundary(leq, s, x) <= i < s.len() ==> !leq(#[trigger] s[i], x),
    decreases s.len(),
{
    if s.len() > 0 {
        let b = spec_boundary(leq, s, x);
        if !leq(s[0], x) {
            assert forall|i: int| b <= i < s.len() implies !leq(#[trigger] s[i], x) by {
                if i > 0 && leq(s[i], x) {
                    assert(leq(s[0], s[i]));
                }
            }
        } else {
            assert(sorted_by(leq, s.drop_first())) by {
                assert forall|i: int, j: int|
                    0 <= i < j < s.drop_first().len() implies leq(
                    #[trigger] s.drop_first()[i],
                    #[trigger] s.drop_first()[j],
                ) by {
                    assert(s.drop_first()[i] == s[i + 1] && s.drop_first()[j] == s[j + 1]);
                }
            }
            lemma_boundary_props(leq, s.drop_first(), x);
            assert forall|i: int| 0 <= i < b implies leq(#[trigger] s[i], x) by {
                if i > 0 {
                    assert(s[i] == s.drop_first()[i - 1]);
                }
            }
            assert forall|i: int| b <= i < s.len() implies !leq(#[trigger] s[i], x) by {
                assert(s[i] == s.drop_first()[i - 1]);
            }
        }
    }
}

/// The stable sort of the indices `0..k`: it holds exactly the indices
/// below `k`, in `leq` order, and two indices tied under `leq` keep their
/// numeric order.
pub proof fn lemma_sort_ids_props(leq: spec_fn(usize, usize) -> bool, k: int)
    requires
        total_preorder(leq),
        0 <= k <= usize::MAX,
    ensures
        ({
            let ord = sort_le(leq, Seq::new(k as nat, |i: int| i as usize));
            &&& ord.len() == k
            &&& sorted_by(leq, ord)
            &&& forall|m: int| 0 <= m < ord.len() ==> (#[trigger] ord[m]) < k
            &&& forall|p: int, q: int|
                0 <= p < q < ord.len() && #[trigger] leq(ord[p], ord[q]) && #[trigger] leq(
                    ord[q],
                    ord[p],
                ) ==> ord[p] < ord[q]
        }),
    decreases k,
{
    let ids = Seq::new(k as nat, |i: int| i as usize);
    if k > 0 {
        let ids0 = Seq::new((k - 1) as nat, |i: int| i as usize);
        assert(ids.drop_last() =~= ids0);
        assert(ids.last() == (k - 1) as usize);
        lemma_sort_ids_props(leq, k - 1);
        let prev = sort_le(leq, ids0);
        let x = (k - 1) as usize;
        lemma_boundary_props(leq, prev, x);
        let b = spec_boundary(leq, prev, x);
        lemma_insert_le_exact(leq, prev, x, b);
        let ord = prev.insert(b, x);
        assert(sort_le(leq, ids) == ord);
        assert forall|m: int| 0 <= m < ord.len() implies (#[trigger] ord[m]) < k by {
            if m < b {
                assert(ord[m] == prev[m]);
            } else if m > b {
                assert(ord[m] == prev[m - 1]);
            }
        }
        assert forall|p: int, q: int|
            0 <= p < q < ord.len() && #[trigger] leq(ord[p], ord[q]) && #[trigger] leq(
                ord[q],
                ord[p],
            ) implies ord[p] < ord[q] by {
            if q == b {
                assert(ord[p] == prev[p] && prev[p] < k - 1);
            } else if p == b {
                assert(ord[q] == prev[q - 1] && q - 1 >= b);
                assert(!leq(prev[q - 1], x));
            } else {
                let p0: int = if p < b {
                    p
                } else {
                    p - 1
                };
                let q0: int = if q < b {
                    q
                } else {
                    q - 1
                };
                assert(ord[p] == prev[p0] && ord[q] == prev[q0] && p0 < q0);
            }
        }
    } else {
        assert(ids =~= Seq::<usize>::empty());
    }
}

} // verus!
