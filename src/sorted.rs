//! Sorted sequences of integers: the shape of every posting list.

use vstd::prelude::*;

verus! {

/// Every element is smaller than the next one: sorted, without duplicates.
pub open spec fn strictly_increasing(s: Seq<u32>) -> bool {
    forall|i: int, j: int| 0 <= i < j < s.len() ==> s[i] < s[j]
}

/// Sorted in nondecreasing order.
pub open spec fn nondecreasing(s: Seq<u64>) -> bool {
    forall|i: int, j: int| 0 <= i <= j < s.len() ==> s[i] <= s[j]
}

/// Relies on `slice::sort_unstable`: the same elements, in nondecreasing order.
#[verifier::external_body]
pub(crate) fn sort_keys(v: &mut Vec<u64>)
    ensures
        final(v)@.to_multiset() == old(v)@.to_multiset(),
        nondecreasing(final(v)@),
{
    v.sort_unstable()
}

/// The elements of `s`, each once, in increasing order, narrowed to `u32`.
pub fn distinct_sorted(s: &Vec<u64>) -> (r: Vec<u32>)
    requires
        nondecreasing(s@),
        forall|i: int| 0 <= i < s@.len() ==> s@[i] <= u32::MAX,
    ensures
        strictly_increasing(r@),
        forall|x: u32| r@.contains(x) <==> s@.contains(x as u64),
{
    let mut r: Vec<u32> = Vec::new();
    let mut i: usize = 0;
    while i < s.len()
        invariant
            i <= s@.len(),
            nondecreasing(s@),
            forall|k: int| 0 <= k < s@.len() ==> s@[k] <= u32::MAX,
            strictly_increasing(r@),
            r@.len() > 0 ==> i > 0 && r@.last() as u64 == s@[i - 1],
            i > 0 ==> r@.len() > 0,
            forall|x: u32| r@.contains(x) <==> exists|k: int| 0 <= k < i && s@[k] == x as u64,
        decreases s@.len() - i,
    {
        let ghost r0 = r@;
        let x = s[i] as u32;
        if r.len() == 0 || r[r.len() - 1] != x {
            r.push(x);
        }
        proof {
            assert forall|y: u32|
                r@.contains(y) <==> exists|k: int| 0 <= k < i + 1 && s@[k] == y as u64 by {
                if r@.contains(y) {
                    let j = choose|j: int| 0 <= j < r@.len() && r@[j] == y;
                    if j < r0.len() {
                        assert(r0[j] == y);
                        assert(r0.contains(y));
                        let k = choose|k: int| 0 <= k < i && s@[k] == y as u64;
                        assert(0 <= k < i + 1 && s@[k] == y as u64);
                    } else {
                        assert(s@[i as int] == y as u64);
                    }
                }
                if exists|k: int| 0 <= k < i + 1 && s@[k] == y as u64 {
                    let k = choose|k: int| 0 <= k < i + 1 && s@[k] == y as u64;
                    if k < i {
                        assert(r0.contains(y));
                        let j = choose|j: int| 0 <= j < r0.len() && r0[j] == y;
                        assert(r@[j] == y);
                    } else if r@.len() > r0.len() {
                        assert(r@[r@.len() - 1] == y);
                    } else {
                        assert(r0[r0.len() - 1] == y);
                    }
                }
            }
        }
        i += 1;
    }
    assert forall|x: u32| r@.contains(x) <==> s@.contains(x as u64) by {
        if s@.contains(x as u64) {
            let k = choose|k: int| 0 <= k < s@.len() && s@[k] == x as u64;
            assert(exists|k: int| 0 <= k < i && s@[k] == x as u64);
        }
    }
    r
}

} // verus!
