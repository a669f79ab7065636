//! Building posting lists from (trigram, file id) pairs packed in one integer.

use crate::index::Posting;
use crate::sorted::{nondecreasing, strictly_increasing};
use vstd::prelude::*;

verus! {

/// The pair (`t`, `id`) as one integer: `t` in the high half, `id` in the low
/// half, so that integer order is the order of the pairs.
pub open spec fn key(t: u32, id: u32) -> u64 {
    ((t as u64) << 32u64) | (id as u64)
}

pub open spec fn key_tri(k: u64) -> u32 {
    (k >> 32u64) as u32
}

pub open spec fn key_id(k: u64) -> u32 {
    (k & 0xffffffffu64) as u32
}

pub fn make_key(t: u32, id: u32) -> (r: u64)
    ensures
        r == key(t, id),
        key_tri(r) == t,
        key_id(r) == id,
{
    proof {
        lemma_key_parts(t, id);
    }
    ((t as u64) << 32u64) | (id as u64)
}

pub proof fn lemma_key_parts(t: u32, id: u32)
    ensures
        key_tri(key(t, id)) == t,
        key_id(key(t, id)) == id,
{
    let k = key(t, id);
    assert((((t as u64) << 32u64) | (id as u64)) >> 32u64 == t as u64) by (bit_vector);
    assert((((t as u64) << 32u64) | (id as u64)) & 0xffffffffu64 == id as u64) by (bit_vector);
}

pub proof fn lemma_key_of_parts(k: u64)
    ensures
        key(key_tri(k), key_id(k)) == k,
{
    assert((((k >> 32u64) as u32 as u64) << 32u64) | ((k & 0xffffffffu64) as u32 as u64) == k)
        by (bit_vector);
}

proof fn lemma_key_range(k: u64)
    ensures
        k >> 32u64 <= 0xffffffffu64,
        k & 0xffffffffu64 <= 0xffffffffu64,
{
    assert(k >> 32u64 <= 0xffffffffu64) by (bit_vector);
    assert(k & 0xffffffffu64 <= 0xffffffffu64) by (bit_vector);
}

/// Keys in order have their trigrams in order, and their ids in order where
/// the trigrams are equal.
pub proof fn lemma_key_order(a: u64, b: u64)
    requires
        a <= b,
    ensures
        key_tri(a) <= key_tri(b),
        key_tri(a) == key_tri(b) ==> key_id(a) <= key_id(b),
{
    lemma_key_range(a);
    lemma_key_range(b);
    assert(a <= b ==> (a >> 32u64) <= (b >> 32u64)) by (bit_vector);
    assert(a <= b && (a >> 32u64) == (b >> 32u64) ==> (a & 0xffffffffu64) <= (b & 0xffffffffu64))
        by (bit_vector);
}

/// `lists` holds the posting list of `t` and it contains `id`.
pub open spec fn listed(lists: Seq<Posting>, t: u32, id: u32) -> bool {
    exists|k: int| 0 <= k < lists.len() && #[trigger] lists[k].trigram == t && lists[k].ids@.contains(id)
}

/// Groups sorted keys into posting lists, one for each trigram, in increasing
/// order of trigram; a pair that stands twice is listed once.
pub fn group_keys(keys: &Vec<u64>) -> (r: Vec<Posting>)
    requires
        nondecreasing(keys@),
    ensures
        forall|i: int, j: int| 0 <= i < j < r@.len() ==> #[trigger] r@[i].trigram < #[trigger] r@[j].trigram,
        forall|k: int| 0 <= k < r@.len() ==> strictly_increasing(#[trigger] r@[k].ids@) && r@[k].ids@.len() > 0,
        forall|t: u32, id: u32| listed(r@, t, id) <==> keys@.contains(key(t, id)),
{
    let mut out: Vec<Posting> = Vec::new();
    let mut cur: Vec<u32> = Vec::new();
    let mut cur_t: u32 = 0;
    let mut i: usize = 0;
    while i < keys.len()
        invariant
            i <= keys@.len(),
            nondecreasing(keys@),
            i == 0 <==> cur@.len() == 0,
            i == 0 ==> out@.len() == 0,
            i > 0 ==> cur_t == key_tri(keys@[i - 1]) && cur@.last() == key_id(keys@[i - 1]),
            strictly_increasing(cur@),
            forall|id: u32| #[trigger] cur@.contains(id) <==> exists|j: int|
                0 <= j < i && keys@[j] == #[trigger] key(cur_t, id),
            forall|a: int, b: int| 0 <= a < b < out@.len() ==> #[trigger] out@[a].trigram < #[trigger] out@[b].trigram,
            forall|a: int| 0 <= a < out@.len() ==> #[trigger] out@[a].trigram < cur_t,
            forall|a: int| 0 <= a < out@.len() ==> strictly_increasing(#[trigger] out@[a].ids@) && out@[a].ids@.len() > 0,
            forall|t: u32, id: u32| #[trigger] listed(out@, t, id) <==> (t != cur_t || i == 0) && exists|j: int|
                0 <= j < i && keys@[j] == #[trigger] key(t, id),
        decreases keys@.len() - i,
    {
        let k = keys[i];
        proof {
            lemma_key_range(k);
        }
        let t = (k >> 32u64) as u32;
        let id = (k & 0xffffffffu64) as u32;
        proof {
            lemma_key_of_parts(k);
            if i > 0 {
                lemma_key_order(keys@[i - 1], k);
            }
        }
        let ghost out0 = out@;
        let ghost cur0 = cur@;
        let ghost t0 = cur_t;
        proof {
            assert(key(t, id) == k);
            assert forall|t2: u32, id2: u32| key(t2, id2) == k implies t2 == t && id2 == id by {
                lemma_key_parts(t2, id2);
            }
        }
        if i > 0 && t == cur_t {
            if cur[cur.len() - 1] != id {
                cur.push(id);
            }
            proof {
                assert forall|x: u32| #[trigger] cur@.contains(x) <==> exists|j: int|
                    0 <= j < i + 1 && keys@[j] == #[trigger] key(cur_t, x) by {
                    if cur@.contains(x) && !cur0.contains(x) {
                        assert(x == id);
                        assert(keys@[i as int] == key(cur_t, x));
                    }
                    if exists|j: int| 0 <= j < i + 1 && keys@[j] == #[trigger] key(cur_t, x) {
                        let j = choose|j: int| 0 <= j < i + 1 && keys@[j] == #[trigger] key(cur_t, x);
                        if j < i {
                            assert(cur0.contains(x));
                            let m = choose|m: int| 0 <= m < cur0.len() && cur0[m] == x;
                            assert(cur@[m] == x);
                        } else {
                            assert(x == id);
                            if cur@.len() == cur0.len() {
                                assert(cur@[cur@.len() - 1] == x);
                            } else {
                                assert(cur@[cur@.len() - 1] == x);
                            }
                        }
                    }
                }
                assert forall|t2: u32, id2: u32| #[trigger] listed(out@, t2, id2) <==> (t2 != cur_t || i + 1 == 0) && exists|j: int|
                    0 <= j < i + 1 && keys@[j] == #[trigger] key(t2, id2) by {
                    if exists|j: int| 0 <= j < i + 1 && keys@[j] == #[trigger] key(t2, id2) {
                        let j = choose|j: int| 0 <= j < i + 1 && keys@[j] == #[trigger] key(t2, id2);
                        if j < i {
                            assert(exists|j: int| 0 <= j < i && keys@[j] == #[trigger] key(t2, id2));
                        }
                    }
                }
            }
        } else {
            let mut next: Vec<u32> = Vec::new();
            next.push(id);
            if i > 0 {
                out.push(Posting { trigram: cur_t, ids: cur });
            }
            cur = next;
            cur_t = t;
            proof {
                if i > 0 {
                    assert(t0 < t);
                }
                assert forall|x: u32| #[trigger] cur@.contains(x) <==> exists|j: int|
                    0 <= j < i + 1 && keys@[j] == #[trigger] key(cur_t, x) by {
                    if cur@.contains(x) {
                        assert(cur@[0] == x);
                        assert(keys@[i as int] == key(cur_t, x));
                    }
                    if exists|j: int| 0 <= j < i + 1 && keys@[j] == #[trigger] key(cur_t, x) {
                        let j = choose|j: int| 0 <= j < i + 1 && keys@[j] == #[trigger] key(cur_t, x);
                        if j < i {
                            lemma_key_parts(cur_t, x);
                            lemma_key_order(keys@[j], keys@[i - 1]);
                            assert(false);
                        }
                        assert(x == id);
                        assert(cur@[0] == x);
                    }
                }
                assert forall|a: int| 0 <= a < out@.len() implies #[trigger] out@[a].trigram < cur_t by {
                    if a < out0.len() {
                        assert(out@[a] == out0[a]);
                        assert(out0[a].trigram < t0);
                    } else {
                        assert(out@[a].trigram == t0);
                    }
                }
                assert forall|t2: u32, id2: u32| #[trigger] listed(out@, t2, id2) <==> (t2 != cur_t || i + 1 == 0) && exists|j: int|
                    0 <= j < i + 1 && keys@[j] == #[trigger] key(t2, id2) by {
                    if listed(out@, t2, id2) {
                        let m = choose|m: int| 0 <= m < out@.len() && #[trigger] out@[m].trigram == t2 && out@[m].ids@.contains(id2);
                        if m < out0.len() {
                            assert(listed(out0, t2, id2));
                            assert(out0[m].trigram < t0);
                        } else {
                            assert(cur0.contains(id2));
                        }
                        let j = choose|j: int| 0 <= j < i && keys@[j] == #[trigger] key(t2, id2);
                        assert(0 <= j < i + 1 && keys@[j] == key(t2, id2));
                    }
                    if t2 != cur_t && exists|j: int| 0 <= j < i + 1 && keys@[j] == #[trigger] key(t2, id2) {
                        let j = choose|j: int| 0 <= j < i + 1 && keys@[j] == #[trigger] key(t2, id2);
                        assert(j < i);
                        if t2 == t0 {
                            assert(cur0.contains(id2));
                            let m = choose|m: int| 0 <= m < cur0.len() && cur0[m] == id2;
                            assert(out@[out@.len() - 1].ids@[m] == id2);
                            assert(out@[out@.len() - 1].trigram == t2);
                        } else {
                            assert(listed(out0, t2, id2));
                            let m = choose|m: int| 0 <= m < out0.len() && #[trigger] out0[m].trigram == t2 && out0[m].ids@.contains(id2);
                            assert(out@[m] == out0[m]);
                        }
                    }
                    if t2 == cur_t && listed(out@, t2, id2) {
                        let m = choose|m: int| 0 <= m < out@.len() && #[trigger] out@[m].trigram == t2 && out@[m].ids@.contains(id2);
                        if m < out0.len() {
                            assert(out0[m].trigram < t0);
                        }
                    }
                }
            }
        }
        i += 1;
    }
    let ghost out0 = out@;
    if i > 0 {
        out.push(Posting { trigram: cur_t, ids: cur });
    }
    proof {
        assert forall|t2: u32, id2: u32| listed(out@, t2, id2) <==> keys@.contains(key(t2, id2)) by {
            if keys@.contains(key(t2, id2)) {
                let j = choose|j: int| 0 <= j < keys@.len() && keys@[j] == key(t2, id2);
                if t2 == cur_t && i > 0 {
                    assert(cur@.contains(id2));
                    let m = choose|m: int| 0 <= m < cur@.len() && cur@[m] == id2;
                    assert(out@[out@.len() - 1].ids@[m] == id2);
                    assert(out@[out@.len() - 1].trigram == t2);
                } else {
                    assert(listed(out0, t2, id2));
                    let m = choose|m: int| 0 <= m < out0.len() && #[trigger] out0[m].trigram == t2 && out0[m].ids@.contains(id2);
                    assert(out@[m] == out0[m]);
                }
            }
            if listed(out@, t2, id2) {
                let m = choose|m: int| 0 <= m < out@.len() && #[trigger] out@[m].trigram == t2 && out@[m].ids@.contains(id2);
                if m < out0.len() {
                    assert(listed(out0, t2, id2));
                } else {
                    assert(cur@.contains(id2));
                }
            }
        }
    }
    out
}

} // verus!
