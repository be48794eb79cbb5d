//! A merge sort.

use vstd::prelude::*;

use crate::seq_util::sorted;

verus! {

/// Merges two sorted runs into one.
fn merge(a: Vec<i32>, b: Vec<i32>) -> (r: Vec<i32>)
    requires
        sorted(a@),
        sorted(b@),
    ensures
        sorted(r@),
        r@.to_multiset() == a@.to_multiset().add(b@.to_multiset()),
{
    broadcast use vstd::seq_lib::group_to_multiset_ensures;
    broadcast use vstd::multiset::group_multiset_axioms;

    let mut r: Vec<i32> = Vec::new();
    let mut i: usize = 0;
    let mut j: usize = 0;
    proof {
        assert(a@.take(0) =~= Seq::<i32>::empty());
        assert(b@.take(0) =~= Seq::<i32>::empty());
        assert(Seq::<i32>::empty().to_multiset().add(Seq::<i32>::empty().to_multiset())
            =~= Seq::<i32>::empty().to_multiset());
    }
    while i < a.len() || j < b.len()
        invariant
            i <= a@.len(),
            j <= b@.len(),
            sorted(a@),
            sorted(b@),
            sorted(r@),
            r@.len() == i + j,
            r@.to_multiset() == a@.take(i as int).to_multiset().add(
                b@.take(j as int).to_multiset(),
            ),
            forall|k: int| i <= k < a@.len() && r@.len() > 0 ==> r@.last() <= #[trigger] a@[k],
            forall|k: int| j <= k < b@.len() && r@.len() > 0 ==> r@.last() <= #[trigger] b@[k],
        decreases a@.len() - i + b@.len() - j,
    {
        let take_a = if i < a.len() {
            j >= b.len() || a[i] <= b[j]
        } else {
            false
        };
        if take_a {
            let x = a[i];
            let ghost r0 = r@;
            r.push(x);
            proof {
                assert(a@.take(i as int + 1) =~= a@.take(i as int).push(x));
                vstd::seq_lib::to_multiset_build::<i32>(a@.take(i as int), x);
                assert(r@ == r0.push(x));
                vstd::seq_lib::to_multiset_build::<i32>(r0, x);
                assert(r@.to_multiset() =~= a@.take(i as int + 1).to_multiset().add(
                    b@.take(j as int).to_multiset(),
                ));
                assert forall|p: int, q: int| 0 <= p <= q < r@.len() implies r@[p] <= r@[q] by {
                    if q == r@.len() - 1 && p < q {
                        assert(r@[p] == r@.drop_last()[p]);
                    }
                }
            }
            i = i + 1;
        } else {
            let x = b[j];
            let ghost r0 = r@;
            r.push(x);
            proof {
                assert(b@.take(j as int + 1) =~= b@.take(j as int).push(x));
                vstd::seq_lib::to_multiset_build::<i32>(b@.take(j as int), x);
                assert(r@ == r0.push(x));
                vstd::seq_lib::to_multiset_build::<i32>(r0, x);
                assert(r@.to_multiset() =~= a@.take(i as int).to_multiset().add(
                    b@.take(j as int + 1).to_multiset(),
                ));
                assert forall|p: int, q: int| 0 <= p <= q < r@.len() implies r@[p] <= r@[q] by {
                    if q == r@.len() - 1 && p < q {
                        assert(r@[p] == r@.drop_last()[p]);
                    }
                }
            }
            j = j + 1;
        }
    }
    proof {
        assert(a@.take(a@.len() as int) =~= a@);
        assert(b@.take(b@.len() as int) =~= b@);
    }
    r
}

/// Sorts by splitting in half, sorting the halves and merging them.
pub fn merge_sort(v: Vec<i32>) -> (r: Vec<i32>)
    ensures
        sorted(r@),
        r@.to_multiset() == v@.to_multiset(),
    decreases v@.len(),
{
    broadcast use vstd::seq_lib::lemma_multiset_commutative;

    if v.len() <= 1 {
        return v;
    }
    let mut v = v;
    let ghost whole = v@;
    let at = v.len() / 2;
    let right = v.split_off(at);
    proof {
        assert(v@ + right@ =~= whole);
    }
    let a = merge_sort(v);
    let b = merge_sort(right);
    merge(a, b)
}

} // verus!
