//! A finished index: the sorted file names, whose positions are the file ids,
//! and one posting list for each trigram that some file holds.

use crate::names::{compare_names, lemma_lex_asymmetric, lemma_lex_irreflexive, lex_lt, names_sorted};
use crate::sorted::strictly_increasing;
use vstd::prelude::*;

verus! {

/// Why an index operation failed.
#[derive(Clone, Copy, Debug, PartialEq, Eq, Structural)]
pub enum IndexError {
    /// A file was not indexed; the reason is given.
    Skipped(crate::trigram::SkipReason),
    /// A name was added that does not sort after the names before it.
    OutOfOrder,
    /// `flush` was called a second time.
    AlreadyFlushed,
    /// A file id or name has no entry.
    NotFound,
    /// The same name stands in both indexes of a merge.
    DuplicateName,
    /// More files than file ids can number.
    TooManyFiles,
    /// Bytes that do not hold a well-formed index.
    CorruptIndex,
}

/// The files that hold one trigram.
pub struct Posting {
    pub trigram: u32,
    /// File ids, in increasing order.
    pub ids: Vec<u32>,
}

pub struct Index {
    /// The roots that the index was built from.
    pub paths: Vec<Vec<u8>>,
    /// File names in sorted order; a name's position is its file id.
    pub names: Vec<Vec<u8>>,
    /// Posting lists in increasing order of trigram.
    pub postings: Vec<Posting>,
}

/// A sequence of byte strings as a sequence of sequences.
pub open spec fn byte_strings(v: Seq<Vec<u8>>) -> Seq<Seq<u8>> {
    v.map_values(|n: Vec<u8>| n@)
}

impl Index {
    pub open spec fn name_seq(&self) -> Seq<Seq<u8>> {
        byte_strings(self.names@)
    }

    pub open spec fn has_trigram(&self, t: u32) -> bool {
        exists|k: int| 0 <= k < self.postings@.len() && #[trigger] self.postings@[k].trigram == t
    }

    /// The posting list of `t`; empty where no file holds it.
    pub open spec fn list_of(&self, t: u32) -> Seq<u32> {
        if self.has_trigram(t) {
            self.postings@[choose|k: int|
                0 <= k < self.postings@.len() && #[trigger] self.postings@[k].trigram == t].ids@
        } else {
            Seq::empty()
        }
    }

    /// Names sorted, trigrams increasing, and every list increasing, nonempty
    /// and within the file ids.
    pub open spec fn wf(&self) -> bool {
        &&& names_sorted(self.name_seq())
        &&& self.names@.len() <= u32::MAX
        &&& forall|i: int, j: int|
            0 <= i < j < self.postings@.len() ==> #[trigger] self.postings@[i].trigram
                < #[trigger] self.postings@[j].trigram
        &&& forall|k: int|
            0 <= k < self.postings@.len() ==> {
                let ids = #[trigger] self.postings@[k].ids@;
                &&& strictly_increasing(ids)
                &&& ids.len() > 0
                &&& forall|m: int| 0 <= m < ids.len() ==> ids[m] < self.names@.len()
            }
    }

    /// The name of file `id`.
    pub fn name(&self, id: u32) -> (r: Result<&Vec<u8>, IndexError>)
        ensures
            id < self.names@.len() ==> r == Ok::<&Vec<u8>, IndexError>(&self.names@[id as int]),
            id >= self.names@.len() ==> r == Err::<&Vec<u8>, IndexError>(IndexError::NotFound),
    {
        if (id as usize) < self.names.len() {
            Ok(&self.names[id as usize])
        } else {
            Err(IndexError::NotFound)
        }
    }

    /// The id of the file named `name`, found by binary search.
    pub fn file_id(&self, name: &[u8]) -> (r: Option<u32>)
        requires
            self.wf(),
        ensures
            match r {
                Some(i) => i < self.names@.len() && self.name_seq()[i as int] == name@,
                None => !self.name_seq().contains(name@),
            },
    {
        let mut lo: usize = 0;
        let mut hi: usize = self.names.len();
        while lo < hi
            invariant
                self.wf(),
                lo <= hi <= self.names@.len(),
                forall|k: int| 0 <= k < lo ==> lex_lt(#[trigger] self.name_seq()[k], name@),
                forall|k: int| hi <= k < self.names@.len() ==> lex_lt(name@, #[trigger] self.name_seq()[k]),
            decreases hi - lo,
        {
            let mid = lo + (hi - lo) / 2;
            let c = compare_names(self.names[mid].as_slice(), name);
            assert(self.name_seq()[mid as int] == self.names@[mid as int]@);
            if c == 0 {
                return Some(mid as u32);
            } else if c < 0 {
                proof {
                    assert forall|k: int| 0 <= k < mid + 1 implies lex_lt(#[trigger] self.name_seq()[k], name@) by {
                        if k < mid {
                            crate::names::lemma_lex_transitive(self.name_seq()[k], self.name_seq()[mid as int], name@);
                        }
                    }
                }
                lo = mid + 1;
            } else {
                proof {
                    assert forall|k: int| mid <= k < self.names@.len() implies lex_lt(name@, #[trigger] self.name_seq()[k]) by {
                        if k > mid {
                            crate::names::lemma_lex_transitive(name@, self.name_seq()[mid as int], self.name_seq()[k]);
                        }
                    }
                }
                hi = mid;
            }
        }
        proof {
            assert forall|k: int| 0 <= k < self.name_seq().len() implies self.name_seq()[k] != name@ by {
                lemma_lex_irreflexive(name@);
            }
        }
        None
    }

    /// The posting list of trigram `t`, found by binary search; empty where no
    /// file holds `t`.
    pub fn posting_list(&self, t: u32) -> (r: Vec<u32>)
        requires
            self.wf(),
        ensures
            r@ == self.list_of(t),
    {
        let mut lo: usize = 0;
        let mut hi: usize = self.postings.len();
        while lo < hi
            invariant
                self.wf(),
                lo <= hi <= self.postings@.len(),
                forall|k: int| 0 <= k < lo ==> #[trigger] self.postings@[k].trigram < t,
                forall|k: int| hi <= k < self.postings@.len() ==> #[trigger] self.postings@[k].trigram > t,
            decreases hi - lo,
        {
            let mid = lo + (hi - lo) / 2;
            let m = self.postings[mid].trigram;
            if m == t {
                assert(self.has_trigram(t));
                let ids = copy_vec(&self.postings[mid].ids);
                proof {
                    let k = choose|k: int|
                        0 <= k < self.postings@.len() && #[trigger] self.postings@[k].trigram == t;
                    if k != mid {
                        assert(self.postings@[k].trigram != self.postings@[mid as int].trigram);
                    }
                }
                return ids;
            } else if m < t {
                lo = mid + 1;
            } else {
                hi = mid;
            }
        }
        Vec::new()
    }
}

/// A copy of `v`.
pub fn copy_vec<T: Copy>(v: &Vec<T>) -> (r: Vec<T>)
    ensures
        r@ == v@,
{
    let mut r: Vec<T> = Vec::new();
    let mut i: usize = 0;
    while i < v.len()
        invariant
            i <= v@.len(),
            r@ == v@.subrange(0, i as int),
        decreases v@.len() - i,
    {
        r.push(v[i]);
        i += 1;
        assert(r@ =~= v@.subrange(0, i as int));
    }
    assert(r@ =~= v@);
    r
}

/// In a well-formed index the list of `t` holds `id` exactly when some posting
/// of `t` does.
pub proof fn lemma_list_of_listed(ix: &Index, t: u32, id: u32)
    requires
        ix.wf(),
    ensures
        ix.list_of(t).contains(id) <==> crate::postings::listed(ix.postings@, t, id),
{
    if crate::postings::listed(ix.postings@, t, id) {
        let k = choose|k: int| 0 <= k < ix.postings@.len() && #[trigger] ix.postings@[k].trigram == t
            && ix.postings@[k].ids@.contains(id);
        let k2 = choose|k2: int| 0 <= k2 < ix.postings@.len() && #[trigger] ix.postings@[k2].trigram == t;
        if k2 != k {
            assert(ix.postings@[k2].trigram != ix.postings@[k].trigram);
        }
    }
    if ix.list_of(t).contains(id) {
        let k2 = choose|k2: int| 0 <= k2 < ix.postings@.len() && #[trigger] ix.postings@[k2].trigram == t;
        assert(ix.postings@[k2].ids@.contains(id));
    }
}

/// Copies of the byte strings of `v`.
pub fn copy_names(v: &Vec<Vec<u8>>) -> (r: Vec<Vec<u8>>)
    ensures
        byte_strings(r@) == byte_strings(v@),
{
    let mut r: Vec<Vec<u8>> = Vec::new();
    let mut i: usize = 0;
    while i < v.len()
        invariant
            i <= v@.len(),
            byte_strings(r@) == byte_strings(v@.subrange(0, i as int)),
        decreases v@.len() - i,
    {
        let ghost r0 = r@;
        r.push(copy_vec(&v[i]));
        assert(byte_strings(r@) =~= byte_strings(r0).push(v@[i as int]@));
        assert(byte_strings(v@.subrange(0, i + 1)) =~= byte_strings(v@.subrange(0, i as int)).push(v@[i as int]@));
        i += 1;
    }
    assert(v@.subrange(0, i as int) =~= v@);
    r
}

/// Every posting list of a well-formed index is strictly increasing, so it
/// holds no file id twice.
pub proof fn lemma_lists_strictly_increasing(ix: &Index, t: u32)
    requires
        ix.wf(),
    ensures
        strictly_increasing(ix.list_of(t)),
{
    if ix.has_trigram(t) {
        let k = choose|k: int| 0 <= k < ix.postings@.len() && #[trigger] ix.postings@[k].trigram == t;
        assert(strictly_increasing(ix.postings@[k].ids@));
    }
}

} // verus!
