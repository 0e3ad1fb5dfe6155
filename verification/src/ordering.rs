//! Stable sorting into non-increasing key order, and the permutation
//! facts that describe its result.
use vstd::prelude::*;

verus! {

/// An item with an integer sort key.
pub trait SortKey {
    /// The key by which items are ordered.
    spec fn key(&self) -> int;

    /// The key, computed.
    fn sort_key(&self) -> (k: u128)
        ensures
            k == self.key(),
    ;
}

/// `perm` maps each position of `out` to the position of `inp` that holds
/// the same item, and no two positions to the same one.
pub open spec fn is_permutation_by<T>(out: Seq<T>, inp: Seq<T>, perm: Seq<int>) -> bool {
    &&& perm.len() == out.len()
    &&& out.len() == inp.len()
    &&& forall|q: int| 0 <= q < out.len() ==> 0 <= #[trigger] perm[q] < inp.len()
    &&& forall|q: int| 0 <= q < out.len() ==> #[trigger] out[q] == inp[perm[q]]
    &&& forall|q: int, r: int|
        0 <= q < out.len() && 0 <= r < out.len() && q != r ==> #[trigger] perm[q] != #[trigger] perm[r]
}

/// `out` holds the items of `inp` in non-increasing key order, and items
/// with equal keys in the order they had in `inp`: the result of a stable
/// sort into descending order.
pub open spec fn stable_sorted_desc<T: SortKey>(out: Seq<T>, inp: Seq<T>) -> bool {
    exists|perm: Seq<int>|
        {
            &&& #[trigger] is_permutation_by(out, inp, perm)
            &&& forall|q: int, r: int|
                0 <= q < r < out.len() ==> (#[trigger] out[q]).key() >= (#[trigger] out[r]).key()
            &&& forall|q: int, r: int|
                0 <= q < r < out.len() && (#[trigger] out[q]).key() == (#[trigger] out[r]).key()
                    ==> perm[q] < perm[r]
        }
}

/// Sorts `v` stably into non-increasing key order (insertion sort).
pub fn stable_sort_desc<T: SortKey>(v: &mut Vec<T>)
    ensures
        stable_sorted_desc(final(v)@, old(v)@),
{
    let n = v.len();
    let ghost orig = v@;
    let ghost mut perm: Seq<int> = Seq::new(n as nat, |q: int| q);
    let mut k: usize = if n == 0 { 0 } else { 1 };
    while k < n
        invariant
            n == v@.len(),
            n == orig.len(),
            0 < k <= n || (n == 0 && k == 0),
            perm.len() == n,
            forall|q: int| 0 <= q < n ==> 0 <= #[trigger] perm[q] < n,
            forall|q: int| 0 <= q < n ==> #[trigger] v@[q] == orig[perm[q]],
            forall|q: int, r: int|
                0 <= q < n && 0 <= r < n && q != r ==> #[trigger] perm[q] != #[trigger] perm[r],
            forall|q: int| k <= q < n ==> #[trigger] perm[q] == q,
            forall|q: int| 0 <= q < k ==> #[trigger] perm[q] < k,
            forall|q: int, r: int|
                0 <= q < r < k ==> (#[trigger] v@[q]).key() >= (#[trigger] v@[r]).key(),
            forall|q: int, r: int|
                0 <= q < r < k && (#[trigger] v@[q]).key() == (#[trigger] v@[r]).key()
                    ==> perm[q] < perm[r],
        decreases n - k,
    {
        let ghost before = v@;
        let ghost pbefore = perm;
        let x = v.remove(k);
        let kx = x.sort_key();
        let mut p: usize = 0;
        while p < k && v[p].sort_key() >= kx
            invariant
                0 <= p <= k,
                k < n,
                v@ == before.remove(k as int),
                before.len() == n,
                kx == x.key(),
                forall|q: int| 0 <= q < p ==> (#[trigger] v@[q]).key() >= x.key(),
            decreases k - p,
        {
            p = p + 1;
        }
        // every item from p onwards in the sorted prefix has a key below x's
        assert(forall|q: int| p <= q < k ==> (#[trigger] v@[q]).key() < x.key()) by {
            if p < k {
                assert forall|q: int| p <= q < k implies (#[trigger] v@[q]).key() < x.key() by {
                    assert(before[p as int].key() >= before[q].key() || p == q);
                }
            }
        }
        v.insert(p, x);
        proof {
            let ghost pk = pbefore.remove(k as int);
            perm = pk.insert(p as int, k as int);
            assert(x == orig[k as int]);
            assert forall|q: int| 0 <= q < n implies #[trigger] v@[q] == orig[perm[q]] by {
                if q < p {
                    assert(v@[q] == before[q]);
                } else if q == p {
                } else if q <= k {
                    assert(v@[q] == before[q - 1]);
                } else {
                    assert(v@[q] == before[q]);
                }
            }
            assert forall|q: int| 0 <= q < n implies 0 <= #[trigger] perm[q] < n by {
                if q < p {
                } else if q == p {
                } else if q <= k {
                    assert(perm[q] == pbefore[q - 1]);
                } else {
                    assert(perm[q] == pbefore[q]);
                }
            }
            assert forall|q: int| 0 <= q < k + 1 implies #[trigger] perm[q] < k + 1 by {
                if q < p {
                } else if q == p {
                } else {
                    assert(perm[q] == pbefore[q - 1]);
                }
            }
            assert forall|q: int| k + 1 <= q < n implies #[trigger] perm[q] == q by {
                assert(perm[q] == pbefore[q]);
            }
            assert forall|q: int, r: int|
                0 <= q < n && 0 <= r < n && q != r implies #[trigger] perm[q] != #[trigger] perm[r] by {
                let qq = if q < p { q } else if q == p { k as int } else if q <= k { q - 1 } else { q };
                let rr = if r < p { r } else if r == p { k as int } else if r <= k { r - 1 } else { r };
                assert(perm[q] == pbefore[qq]);
                assert(perm[r] == pbefore[rr]);
            }
            assert forall|q: int, r: int|
                0 <= q < r < k + 1 implies (#[trigger] v@[q]).key() >= (#[trigger] v@[r]).key() by {
                if r < p {
                    assert(v@[q] == before[q] && v@[r] == before[r]);
                } else if r == p {
                    assert(v@[q] == before[q]);
                } else if q < p {
                    assert(v@[q] == before[q] && v@[r] == before[r - 1]);
                    assert(before[q].key() >= before[r - 1].key() || q == r - 1);
                } else if q == p {
                    assert(v@[r] == before[r - 1]);
                } else {
                    assert(v@[q] == before[q - 1] && v@[r] == before[r - 1]);
                }
            }
            assert forall|q: int, r: int|
                0 <= q < r < k + 1 && (#[trigger] v@[q]).key() == (#[trigger] v@[r]).key()
                    implies perm[q] < perm[r] by {
                if r < p {
                    assert(v@[q] == before[q] && v@[r] == before[r]);
                } else if r == p {
                    assert(v@[q] == before[q]);
                    assert(perm[q] == pbefore[q]);
                } else if q < p {
                    assert(v@[q] == before[q] && v@[r] == before[r - 1]);
                    assert(before[q].key() >= before[r - 1].key() || q == r - 1);
                    assert(perm[r] == pbefore[r - 1]);
                } else if q == p {
                    assert(v@[r] == before[r - 1]);
                } else {
                    assert(v@[q] == before[q - 1] && v@[r] == before[r - 1]);
                    assert(perm[q] == pbefore[q - 1] && perm[r] == pbefore[r - 1]);
                }
            }
        }
        k = k + 1;
    }
    proof {
        assert(is_permutation_by(v@, orig, perm));
    }
}

} // verus!
