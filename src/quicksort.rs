//! Randomized quicksort with a three-way partition.
use vstd::prelude::*;
use vstd::seq_lib::to_multiset_update;

verus! {

broadcast use vstd::multiset::group_multiset_axioms;

/// The values are in non-decreasing order.
pub open spec fn sorted(s: Seq<i64>) -> bool {
    forall|x: int, y: int| 0 <= x <= y < s.len() ==> s[x] <= s[y]
}

/// Sorts `a` in place. Each pivot is the `pick(n)`-th of the `n` values of
/// the range being split, so `pick` is where the randomness comes from.
pub fn quicksort<F: Fn(usize) -> usize>(a: &mut Vec<i64>, pick: &F)
    requires
        forall|n: usize| 0 < n ==> call_requires(*pick, (n,)),
        forall|n: usize, r: usize| call_ensures(*pick, (n,), r) ==> r < n,
    ensures
        final(a)@.len() == old(a)@.len(),
        final(a)@.to_multiset() == old(a)@.to_multiset(),
        sorted(final(a)@),
{
    let n = a.len();
    quicksort_impl(a, 0, n, pick, Ghost(i64::MIN as int), Ghost(i64::MAX as int));
}

/// Exchanges `a[x]` and `a[y]`.
fn swap(a: &mut Vec<i64>, x: usize, y: usize)
    requires
        x < old(a)@.len(),
        y < old(a)@.len(),
    ensures
        final(a)@ == old(a)@.update(x as int, old(a)@[y as int]).update(y as int, old(a)@[x as int]),
        final(a)@.to_multiset() == old(a)@.to_multiset(),
{
    let ghost s = a@;
    let tmp = a[x];
    a[x] = a[y];
    a[y] = tmp;
    proof {
        let s1 = s.update(x as int, s[y as int]);
        to_multiset_update(s, x as int, s[y as int]);
        to_multiset_update(s1, y as int, s[x as int]);
        if x == y {
            assert(a@ =~= s);
        } else {
            assert(s1[y as int] == s[y as int]);
            assert(s.to_multiset().count(s[x as int]) > 0) by {
                broadcast use vstd::seq_lib::group_to_multiset_ensures;
                assert(s.contains(s[x as int]));
            }
            assert(a@.to_multiset() =~= s.to_multiset());
        }
    }
}

/// Sorts `a[i..i + n]`, whose values all lie in `lo..=hi`, and leaves the
/// rest of `a` alone.
fn quicksort_impl<F: Fn(usize) -> usize>(
    a: &mut Vec<i64>,
    i: usize,
    n: usize,
    pick: &F,
    Ghost(lo): Ghost<int>,
    Ghost(hi): Ghost<int>,
)
    requires
        forall|m: usize| 0 < m ==> call_requires(*pick, (m,)),
        forall|m: usize, r: usize| call_ensures(*pick, (m,), r) ==> r < m,
        i + n <= old(a)@.len(),
        forall|k: int| i <= k < i + n ==> lo <= #[trigger] old(a)@[k] <= hi,
    ensures
        final(a)@.len() == old(a)@.len(),
        final(a)@.to_multiset() == old(a)@.to_multiset(),
        forall|k: int|
            0 <= k < old(a)@.len() && !(i <= k < i + n) ==> #[trigger] final(a)@[k] == old(a)@[k],
        forall|k: int| i <= k < i + n ==> lo <= #[trigger] final(a)@[k] <= hi,
        forall|x: int, y: int| i <= x <= y < i + n ==> final(a)@[x] <= final(a)@[y],
    decreases n,
{
    if n <= 1 {
        return;
    }
    // The length is a `usize`, so `i + n` fits in one.
    let _len = a.len();
    let mut r = i + pick(n);
    let pv = a[r];
    let mut lt = i;
    let mut j = i;
    let mut q = i + n;
    while j < q
        invariant
            i + n <= a@.len(),
            a@.len() == old(a)@.len(),
            a@.to_multiset() == old(a)@.to_multiset(),
            forall|k: int| 0 <= k < a@.len() && !(i <= k < i + n) ==> #[trigger] a@[k] == old(a)@[k],
            forall|k: int| i <= k < i + n ==> lo <= #[trigger] a@[k] <= hi,
            i <= lt <= j <= q <= i + n,
            lt <= r < q,
            a@[r as int] == pv,
            forall|k: int| i <= k < lt ==> #[trigger] a@[k] < pv,
            forall|k: int| lt <= k < j ==> #[trigger] a@[k] == pv,
            forall|k: int| q <= k < i + n ==> #[trigger] a@[k] > pv,
        decreases q - j,
    {
        if a[j] < a[r] {
            swap(a, j, lt);
            if r == lt {
                r = j;
            } else if r == j {
                r = lt;
            }
            lt = lt + 1;
            j = j + 1;
        } else if a[j] == a[r] {
            j = j + 1;
        } else {
            q = q - 1;
            swap(a, j, q);
            if r == q {
                r = j;
            } else if r == j {
                r = q;
            }
        }
    }
    let ghost mid = a@;
    quicksort_impl(a, i, lt - i, pick, Ghost(lo), Ghost(pv as int - 1));
    let ghost left_done = a@;
    quicksort_impl(a, q, i + n - q, pick, Ghost(pv as int + 1), Ghost(hi));
    proof {
        assert forall|k: int| lt <= k < q implies #[trigger] a@[k] == pv by {
            assert(left_done[k] == mid[k]);
        }
        assert forall|k: int| i <= k < lt implies #[trigger] a@[k] < pv by {
            assert(a@[k] == left_done[k]);
        }
        assert forall|x: int, y: int| i <= x <= y < i + n implies a@[x] <= a@[y] by {
            if y < lt {
                assert(a@[x] == left_done[x]);
                assert(a@[y] == left_done[y]);
            }
        }
        assert forall|k: int| i <= k < i + n implies lo <= #[trigger] a@[k] <= hi by {
            if k < lt {
                assert(a@[k] == left_done[k]);
            } else if k < q {
                assert(left_done[k] == mid[k]);
            }
        }
    }
}

} // verus!
