//! Laws that relate several operations of the library.

use crate::index::Index;
use crate::planner::{full_match, lemma_satisfies_grows, lemma_trigrams_of_piece, sound_for};
use crate::query::{listed_for, satisfies, Query};
use crate::trigram::{extraction, trigram_set, ExtractConfig};
use crate::sorted::strictly_increasing;
use crate::writer::indexes;
use vstd::prelude::*;

verus! {

/// A file that holds trigram `t` is in the list of `t`; a file that does not
/// hold it is not.
pub proof fn law_flushed_lists(ix: &Index, files: Seq<Set<u32>>, id: u32, t: u32)
    requires
        indexes(ix, files),
        id < files.len(),
    ensures
        files[id as int].contains(t) ==> ix.list_of(t).contains(id),
        !files[id as int].contains(t) ==> !ix.list_of(t).contains(id),
{
}

/// In a well-formed index each name stands at one position only, so the id
/// that `file_id` finds for `name(i)` is `i`.
pub proof fn law_name_positions_unique(ix: &Index, i: int, j: int)
    requires
        ix.wf(),
        0 <= i < ix.names@.len(),
        0 <= j < ix.names@.len(),
        ix.name_seq()[i] == ix.name_seq()[j],
    ensures
        i == j,
{
    if i < j {
        assert(crate::names::lex_lt(ix.name_seq()[i], ix.name_seq()[j]));
        crate::names::lemma_lex_irreflexive(ix.name_seq()[i]);
    } else if j < i {
        assert(crate::names::lex_lt(ix.name_seq()[j], ix.name_seq()[i]));
        crate::names::lemma_lex_irreflexive(ix.name_seq()[i]);
    }
}

/// Extraction depends on the content and the limits alone: the same bytes
/// give the same trigrams, or the same reason to skip.
pub proof fn law_extraction_repeats(c1: Seq<u8>, c2: Seq<u8>, cfg: ExtractConfig)
    requires
        c1 == c2,
    ensures
        extraction(c1, cfg) == extraction(c2, cfg),
{
}

/// In an index built from `files`, file `id` meets a query by its posting
/// lists exactly when its trigram set meets it.
pub proof fn law_lists_follow_files(ix: &Index, files: Seq<Set<u32>>, q: Query, id: u32)
    requires
        indexes(ix, files),
        id < files.len(),
    ensures
        listed_for(ix, q, id) == satisfies(q, files[id as int]),
    decreases q,
{
    match q {
        Query::And(a, b) => {
            law_lists_follow_files(ix, files, *a, id);
            law_lists_follow_files(ix, files, *b, id);
        },
        Query::Or(a, b) => {
            law_lists_follow_files(ix, files, *a, id);
            law_lists_follow_files(ix, files, *b, id);
        },
        _ => {},
    }
}

/// A file whose content holds a match of `r` meets, in the index, every
/// query that is sound for `r`: the planner never drops a true match.
pub proof fn law_no_false_negatives(
    ix: &Index,
    files: Seq<Set<u32>>,
    id: u32,
    content: Seq<u8>,
    r: crate::planner::Regex,
    q: Query,
    i: int,
    j: int,
)
    requires
        indexes(ix, files),
        id < files.len(),
        files[id as int] == trigram_set(content),
        sound_for(q, r),
        0 <= i <= j <= content.len(),
        full_match(r, content.subrange(i, j)),
    ensures
        listed_for(ix, q, id),
{
    lemma_trigrams_of_piece(content, i, j);
    lemma_satisfies_grows(q, trigram_set(content.subrange(i, j)), trigram_set(content));
    law_lists_follow_files(ix, files, q, id);
}

/// Two strictly increasing sequences with the same elements are equal.
pub proof fn lemma_sorted_same_elements(a: Seq<u32>, b: Seq<u32>)
    requires
        strictly_increasing(a),
        strictly_increasing(b),
        forall|x: u32| a.contains(x) <==> b.contains(x),
    ensures
        a == b,
    decreases a.len(),
{
    if a.len() == 0 {
        if b.len() > 0 {
            assert(b.contains(b[0]));
        }
        assert(a =~= b);
    } else {
        assert(a.contains(a[0]));
        assert(b.contains(b[0]));
        let i = choose|i: int| 0 <= i < b.len() && b[i] == a[0];
        let j = choose|j: int| 0 <= j < a.len() && a[j] == b[0];
        if i > 0 {
            assert(b[0] < b[i]);
        }
        if j > 0 {
            assert(a[0] < a[j]);
        }
        assert(a[0] == b[0]);
        let ta = a.drop_first();
        let tb = b.drop_first();
        assert forall|x: u32| ta.contains(x) <==> tb.contains(x) by {
            if ta.contains(x) {
                let k = choose|k: int| 0 <= k < ta.len() && ta[k] == x;
                assert(a[k + 1] == x);
                assert(a.contains(x));
                let m = choose|m: int| 0 <= m < b.len() && b[m] == x;
                if m == 0 {
                    assert(a[0] < a[k + 1]);
                }
                assert(tb[m - 1] == x);
            }
            if tb.contains(x) {
                let k = choose|k: int| 0 <= k < tb.len() && tb[k] == x;
                assert(b[k + 1] == x);
                assert(b.contains(x));
                let m = choose|m: int| 0 <= m < a.len() && a[m] == x;
                if m == 0 {
                    assert(b[0] < b[k + 1]);
                }
                assert(ta[m - 1] == x);
            }
        }
        lemma_sorted_same_elements(ta, tb);
        assert(a =~= seq![a[0]] + ta);
        assert(b =~= seq![b[0]] + tb);
    }
}

/// Two builds over the same names and the same trigram sets, as extraction
/// gives for the same bytes under the same limits, give the same index:
/// the same names and, for every trigram, the same posting list.
pub proof fn law_builds_repeat(ix1: &Index, ix2: &Index, files: Seq<Set<u32>>)
    requires
        ix1.wf(),
        ix2.wf(),
        ix1.name_seq() == ix2.name_seq(),
        indexes(ix1, files),
        indexes(ix2, files),
    ensures
        forall|t: u32| #[trigger] ix1.list_of(t) == ix2.list_of(t),
{
    assert forall|t: u32| #[trigger] ix1.list_of(t) == ix2.list_of(t) by {
        crate::index::lemma_lists_strictly_increasing(ix1, t);
        crate::index::lemma_lists_strictly_increasing(ix2, t);
        assert forall|x: u32| ix1.list_of(t).contains(x) <==> ix2.list_of(t).contains(x) by {}
        lemma_sorted_same_elements(ix1.list_of(t), ix2.list_of(t));
    }
}

} // verus!
