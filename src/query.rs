//! Trigram queries and their evaluation against an index by merging sorted
//! posting lists.

use crate::index::Index;
use crate::sorted::strictly_increasing;
use vstd::prelude::*;

verus! {

/// A boolean condition over the trigrams of a file.
pub enum Query {
    /// No condition: every file is a candidate.
    All,
    /// The file holds this trigram.
    Tri(u32),
    And(Box<Query>, Box<Query>),
    Or(Box<Query>, Box<Query>),
}

/// A file whose trigram set is `s` meets `q`.
pub open spec fn satisfies(q: Query, s: Set<u32>) -> bool
    decreases q,
{
    match q {
        Query::All => true,
        Query::Tri(t) => s.contains(t),
        Query::And(a, b) => satisfies(*a, s) && satisfies(*b, s),
        Query::Or(a, b) => satisfies(*a, s) || satisfies(*b, s),
    }
}

/// File `id` of `ix` meets `q`, going by the posting lists of `ix`.
pub open spec fn listed_for(ix: &Index, q: Query, id: u32) -> bool
    decreases q,
{
    match q {
        Query::All => true,
        Query::Tri(t) => ix.list_of(t).contains(id),
        Query::And(a, b) => listed_for(ix, *a, id) && listed_for(ix, *b, id),
        Query::Or(a, b) => listed_for(ix, *a, id) || listed_for(ix, *b, id),
    }
}

/// The elements that `a` and `b` share, in increasing order.
pub fn intersect(a: &Vec<u32>, b: &Vec<u32>) -> (r: Vec<u32>)
    requires
        strictly_increasing(a@),
        strictly_increasing(b@),
    ensures
        strictly_increasing(r@),
        forall|x: u32| #[trigger] r@.contains(x) <==> a@.contains(x) && b@.contains(x),
{
    let mut r: Vec<u32> = Vec::new();
    let mut i: usize = 0;
    let mut j: usize = 0;
    while i < a.len() && j < b.len()
        invariant
            i <= a@.len(),
            j <= b@.len(),
            strictly_increasing(a@),
            strictly_increasing(b@),
            strictly_increasing(r@),
            r@.len() > 0 && i < a@.len() ==> r@.last() < a@[i as int],
            r@.len() > 0 && j < b@.len() ==> r@.last() < b@[j as int],
            forall|x: u32| #[trigger] r@.contains(x) <==> (exists|p: int| 0 <= p < i && a@[p] == x) && (exists|q: int| 0 <= q < j && b@[q] == x),
            forall|p: int, q: int| 0 <= p < i && j <= q < b@.len() ==> a@[p] < b@[q],
            forall|p: int, q: int| 0 <= q < j && i <= p < a@.len() ==> b@[q] < a@[p],
        decreases a@.len() + b@.len() - i - j,
    {
        let ghost r0 = r@;
        let ghost i0 = i as int;
        let ghost j0 = j as int;
        let x = a[i];
        let y = b[j];
        if x == y {
            r.push(x);
            i += 1;
            j += 1;
        } else if x < y {
            i += 1;
        } else {
            j += 1;
        }
        proof {
            assert forall|z: u32| #[trigger] r@.contains(z) <==> (exists|p: int| 0 <= p < i && a@[p] == z) && (exists|q: int| 0 <= q < j && b@[q] == z) by {
                if r@.contains(z) && !r0.contains(z) {
                    assert(r@[r@.len() - 1] == z);
                    assert(a@[i0] == z && b@[j0] == z);
                }
                if r0.contains(z) {
                    let w = choose|w: int| 0 <= w < r0.len() && r0[w] == z;
                    assert(r@[w] == z);
                }
                if (exists|p: int| 0 <= p < i && a@[p] == z) && (exists|q: int| 0 <= q < j && b@[q] == z) {
                    let p = choose|p: int| 0 <= p < i && a@[p] == z;
                    let q = choose|q: int| 0 <= q < j && b@[q] == z;
                    if p < i0 && q < j0 {
                        assert(r0.contains(z));
                        let w = choose|w: int| 0 <= w < r0.len() && r0[w] == z;
                        assert(r@[w] == z);
                    } else if p == i0 && q == j0 {
                        assert(r@[r@.len() - 1] == z);
                    } else if p == i0 {
                        assert(b@[q] < a@[p]);
                    } else {
                        assert(a@[p] < b@[q]);
                    }
                }
            }
        }
    }
    proof {
        assert forall|x: u32| #[trigger] r@.contains(x) <==> a@.contains(x) && b@.contains(x) by {
            if a@.contains(x) && b@.contains(x) {
                let p = choose|p: int| 0 <= p < a@.len() && a@[p] == x;
                let q = choose|q: int| 0 <= q < b@.len() && b@[q] == x;
                if p >= i {
                    assert(b@[q] < a@[p]);
                } else if q >= j {
                    assert(a@[p] < b@[q]);
                }
            }
            if r@.contains(x) {
                let p = choose|p: int| 0 <= p < i && a@[p] == x;
                let q = choose|q: int| 0 <= q < j && b@[q] == x;
            }
        }
    }
    r
}

/// The elements of `a` or `b`, each once, in increasing order.
pub fn union(a: &Vec<u32>, b: &Vec<u32>) -> (r: Vec<u32>)
    requires
        strictly_increasing(a@),
        strictly_increasing(b@),
    ensures
        strictly_increasing(r@),
        forall|x: u32| #[trigger] r@.contains(x) <==> a@.contains(x) || b@.contains(x),
{
    let mut r: Vec<u32> = Vec::new();
    let mut i: usize = 0;
    let mut j: usize = 0;
    while i < a.len() || j < b.len()
        invariant
            i <= a@.len(),
            j <= b@.len(),
            strictly_increasing(a@),
            strictly_increasing(b@),
            strictly_increasing(r@),
            r@.len() > 0 && i < a@.len() ==> r@.last() < a@[i as int],
            r@.len() > 0 && j < b@.len() ==> r@.last() < b@[j as int],
            forall|x: u32| #[trigger] r@.contains(x) <==> (exists|p: int| 0 <= p < i && a@[p] == x) || (exists|q: int| 0 <= q < j && b@[q] == x),
        decreases a@.len() + b@.len() - i - j,
    {
        let ghost r0 = r@;
        let ghost i0 = i as int;
        let ghost j0 = j as int;
        if i < a.len() && (j == b.len() || a[i] < b[j]) {
            r.push(a[i]);
            i += 1;
        } else if j < b.len() && (i == a.len() || b[j] < a[i]) {
            r.push(b[j]);
            j += 1;
        } else {
            r.push(a[i]);
            i += 1;
            j += 1;
        }
        proof {
            assert forall|z: u32| #[trigger] r@.contains(z) <==> (exists|p: int| 0 <= p < i && a@[p] == z) || (exists|q: int| 0 <= q < j && b@[q] == z) by {
                if r@.contains(z) && !r0.contains(z) {
                    assert(r@[r@.len() - 1] == z);
                    if i > i0 {
                        assert(a@[i0] == z);
                    } else {
                        assert(b@[j0] == z);
                    }
                }
                if r0.contains(z) {
                    let w = choose|w: int| 0 <= w < r0.len() && r0[w] == z;
                    assert(r@[w] == z);
                }
                if exists|p: int| 0 <= p < i && a@[p] == z {
                    let p = choose|p: int| 0 <= p < i && a@[p] == z;
                    if p == i0 {
                        assert(r@[r@.len() - 1] == z);
                    } else {
                        let w = choose|w: int| 0 <= w < r0.len() && r0[w] == z;
                        assert(r@[w] == z);
                    }
                }
                if exists|q: int| 0 <= q < j && b@[q] == z {
                    let q = choose|q: int| 0 <= q < j && b@[q] == z;
                    if q == j0 {
                        assert(r@[r@.len() - 1] == z);
                    } else {
                        let w = choose|w: int| 0 <= w < r0.len() && r0[w] == z;
                        assert(r@[w] == z);
                    }
                }
            }
        }
    }
    proof {
        assert forall|x: u32| #[trigger] r@.contains(x) <==> a@.contains(x) || b@.contains(x) by {
            if a@.contains(x) {
                let p = choose|p: int| 0 <= p < a@.len() && a@[p] == x;
            }
            if b@.contains(x) {
                let q = choose|q: int| 0 <= q < b@.len() && b@[q] == x;
            }
        }
    }
    r
}

/// The ids `0..n` in increasing order.
pub fn all_ids(n: u32) -> (r: Vec<u32>)
    ensures
        strictly_increasing(r@),
        forall|x: u32| #[trigger] r@.contains(x) <==> x < n,
{
    let mut r: Vec<u32> = Vec::new();
    let mut i: u32 = 0;
    while i < n
        invariant
            i <= n,
            r@.len() == i,
            forall|k: int| 0 <= k < i ==> r@[k] == k,
        decreases n - i,
    {
        r.push(i);
        i += 1;
    }
    proof {
        assert forall|x: u32| #[trigger] r@.contains(x) <==> x < n by {
            if x < n {
                assert(r@[x as int] == x);
            }
        }
    }
    r
}

/// The candidates for `q` in `ix`: the ids of the files that meet it, in
/// increasing order.
pub fn evaluate(ix: &Index, q: &Query) -> (r: Vec<u32>)
    requires
        ix.wf(),
    ensures
        strictly_increasing(r@),
        forall|id: u32| #[trigger] r@.contains(id) <==> id < ix.names@.len() && listed_for(ix, *q, id),
    decreases q,
{
    match q {
        Query::All => all_ids(ix.names.len() as u32),
        Query::Tri(t) => {
            let r = ix.posting_list(*t);
            proof {
                crate::index::lemma_lists_strictly_increasing(ix, *t);
                assert forall|id: u32| #[trigger] r@.contains(id) implies id < ix.names@.len() by {
                    let k = choose|k: int| 0 <= k < ix.postings@.len() && #[trigger] ix.postings@[k].trigram == *t;
                    let m = choose|m: int| 0 <= m < r@.len() && r@[m] == id;
                    assert(ix.postings@[k].ids@[m] == id);
                }
            }
            r
        },
        Query::And(a, b) => {
            let x = evaluate(ix, a);
            let y = evaluate(ix, b);
            intersect(&x, &y)
        },
        Query::Or(a, b) => {
            let x = evaluate(ix, a);
            let y = evaluate(ix, b);
            union(&x, &y)
        },
    }
}

} // verus!
