//! The bytes of an index file.
//!
//! Layout: the header magic; the roots and then the file names, each list as
//! its length followed by each string as its length and its bytes; the number
//! of posting lists and each list as its trigram, the first id plus one, the
//! difference of each later id from the one before, and a zero that ends it;
//! the trailer magic. Every integer is a varint.

use crate::index::{Index, IndexError, Posting};
use crate::names::{compare_names, lex_lt, names_sorted};
use crate::sorted::strictly_increasing;
use crate::varint::{get_value, holds_at, lemma_varint_shape, put_varint, varint};
use vstd::prelude::*;

verus! {

/// The header magic, "csearch index 1\n".
pub open spec fn magic() -> Seq<u8> {
    seq![99u8, 115, 101, 97, 114, 99, 104, 32, 105, 110, 100, 101, 120, 32, 49, 10]
}

/// The trailer magic, "\ncsearch trailr\n".
pub open spec fn trailer_magic() -> Seq<u8> {
    seq![10u8, 99, 115, 101, 97, 114, 99, 104, 32, 116, 114, 97, 105, 108, 114, 10]
}

/// One string: its length, then its bytes.
pub open spec fn field(b: Seq<u8>) -> Seq<u8> {
    varint(b.len()) + b
}

/// A list of strings, its length not included.
pub open spec fn fields(v: Seq<Seq<u8>>) -> Seq<u8>
    decreases v.len(),
{
    if v.len() == 0 {
        Seq::empty()
    } else {
        fields(v.drop_last()) + field(v.last())
    }
}

/// The differences of a posting list: the first id plus one, then each id
/// less the one before; the ending zero not included.
pub open spec fn deltas(ids: Seq<u32>) -> Seq<u8>
    decreases ids.len(),
{
    if ids.len() == 0 {
        Seq::empty()
    } else if ids.len() == 1 {
        varint((ids[0] + 1) as nat)
    } else {
        deltas(ids.drop_last()) + varint((ids.last() - ids[ids.len() - 2]) as nat)
    }
}

pub open spec fn posting_bytes(t: u32, ids: Seq<u32>) -> Seq<u8> {
    varint(t as nat) + deltas(ids) + varint(0)
}

/// The posting lists, their number not included.
pub open spec fn postings_bytes(ps: Seq<Posting>) -> Seq<u8>
    decreases ps.len(),
{
    if ps.len() == 0 {
        Seq::empty()
    } else {
        postings_bytes(ps.drop_last()) + posting_bytes(ps.last().trigram, ps.last().ids@)
    }
}

pub open spec fn strings_of(v: Seq<Vec<u8>>) -> Seq<Seq<u8>> {
    crate::index::byte_strings(v)
}

/// The bytes of the index file for `ix`.
pub open spec fn index_bytes(ix: &Index) -> Seq<u8> {
    magic() + varint(ix.paths@.len()) + fields(strings_of(ix.paths@)) + varint(ix.names@.len()) + fields(
        strings_of(ix.names@),
    ) + varint(ix.postings@.len()) + postings_bytes(ix.postings@) + trailer_magic()
}

fn push_bytes(out: &mut Vec<u8>, b: &Vec<u8>)
    ensures
        final(out)@ == old(out)@ + b@,
{
    let mut i: usize = 0;
    while i < b.len()
        invariant
            i <= b@.len(),
            out@ == old(out)@ + b@.subrange(0, i as int),
        decreases b@.len() - i,
    {
        out.push(b[i]);
        i += 1;
        assert(out@ =~= old(out)@ + b@.subrange(0, i as int));
    }
    assert(b@.subrange(0, i as int) =~= b@);
}

fn push_magic(out: &mut Vec<u8>, trailer: bool)
    ensures
        final(out)@ == old(out)@ + if trailer { trailer_magic() } else { magic() },
{
    let mut m: Vec<u8> = Vec::new();
    if trailer {
        m.push(10u8);
    }
    m.push(99u8);
    m.push(115u8);
    m.push(101u8);
    m.push(97u8);
    m.push(114u8);
    m.push(99u8);
    m.push(104u8);
    m.push(32u8);
    if trailer {
        m.push(116u8);
        m.push(114u8);
        m.push(97u8);
        m.push(105u8);
        m.push(108u8);
        m.push(114u8);
        m.push(10u8);
    } else {
        m.push(105u8);
        m.push(110u8);
        m.push(100u8);
        m.push(101u8);
        m.push(120u8);
        m.push(32u8);
        m.push(49u8);
        m.push(10u8);
    }
    assert(m@ =~= if trailer { trailer_magic() } else { magic() });
    push_bytes(out, &m);
}

fn push_fields(out: &mut Vec<u8>, v: &Vec<Vec<u8>>)
    ensures
        final(out)@ == old(out)@ + varint(v@.len() as nat) + fields(strings_of(v@)),
{
    put_varint(out, v.len() as u64);
    let ghost start = out@;
    let mut i: usize = 0;
    while i < v.len()
        invariant
            i <= v@.len(),
            out@ == start + fields(strings_of(v@.subrange(0, i as int))),
        decreases v@.len() - i,
    {
        put_varint(out, v[i].len() as u64);
        push_bytes(out, &v[i]);
        proof {
            let s = strings_of(v@.subrange(0, i + 1));
            assert(s.drop_last() =~= strings_of(v@.subrange(0, i as int)));
            assert(s.last() == v@[i as int]@);
        }
        i += 1;
        assert(out@ =~= start + fields(strings_of(v@.subrange(0, i as int))));
    }
    assert(v@.subrange(0, i as int) =~= v@);
}

fn push_posting(out: &mut Vec<u8>, p: &Posting)
    requires
        crate::sorted::strictly_increasing(p.ids@),
    ensures
        final(out)@ == old(out)@ + posting_bytes(p.trigram, p.ids@),
{
    put_varint(out, p.trigram as u64);
    let ghost start = out@;
    let mut i: usize = 0;
    while i < p.ids.len()
        invariant
            i <= p.ids@.len(),
            crate::sorted::strictly_increasing(p.ids@),
            out@ == start + deltas(p.ids@.subrange(0, i as int)),
        decreases p.ids@.len() - i,
    {
        let ghost s = p.ids@.subrange(0, i + 1);
        assert(s.drop_last() =~= p.ids@.subrange(0, i as int));
        if i == 0 {
            put_varint(out, p.ids[0] as u64 + 1);
        } else {
            assert(p.ids@[i - 1] < p.ids@[i as int]);
            put_varint(out, (p.ids[i] - p.ids[i - 1]) as u64);
        }
        i += 1;
        assert(out@ =~= start + deltas(p.ids@.subrange(0, i as int)));
    }
    assert(p.ids@.subrange(0, i as int) =~= p.ids@);
    put_varint(out, 0);
}

/// The bytes of the index file for `ix`.
pub fn encode_index(ix: &Index) -> (r: Vec<u8>)
    requires
        ix.wf(),
    ensures
        r@ == index_bytes(ix),
{
    let mut out: Vec<u8> = Vec::new();
    push_magic(&mut out, false);
    push_fields(&mut out, &ix.paths);
    push_fields(&mut out, &ix.names);
    put_varint(&mut out, ix.postings.len() as u64);
    let ghost start = out@;
    let mut k: usize = 0;
    while k < ix.postings.len()
        invariant
            ix.wf(),
            k <= ix.postings@.len(),
            out@ == start + postings_bytes(ix.postings@.subrange(0, k as int)),
        decreases ix.postings@.len() - k,
    {
        assert(crate::sorted::strictly_increasing(ix.postings@[k as int].ids@));
        push_posting(&mut out, &ix.postings[k]);
        proof {
            let s = ix.postings@.subrange(0, k + 1);
            assert(s.drop_last() =~= ix.postings@.subrange(0, k as int));
        }
        k += 1;
        assert(out@ =~= start + postings_bytes(ix.postings@.subrange(0, k as int)));
    }
    assert(ix.postings@.subrange(0, k as int) =~= ix.postings@);
    push_magic(&mut out, true);
    assert(out@ =~= index_bytes(ix));
    out
}

/// Where `buf` holds `x + y`, it holds `x` and, right after it, `y`.
proof fn lemma_holds_split(buf: Seq<u8>, pos: int, x: Seq<u8>, y: Seq<u8>)
    requires
        holds_at(buf, pos, x + y),
    ensures
        holds_at(buf, pos, x),
        holds_at(buf, pos + x.len(), y),
{
    let whole = buf.subrange(pos, pos + x.len() + y.len());
    assert(whole == x + y);
    assert(buf.subrange(pos, pos + x.len()) =~= whole.subrange(0, x.len() as int));
    assert((x + y).subrange(0, x.len() as int) =~= x);
    assert(buf.subrange(pos + x.len(), pos + x.len() + y.len()) =~= whole.subrange(x.len() as int, (x.len() + y.len()) as int));
    assert((x + y).subrange(x.len() as int, (x.len() + y.len()) as int) =~= y);
}

/// Where `buf` holds `x`, it holds each prefix of `x`.
proof fn lemma_holds_prefix(buf: Seq<u8>, pos: int, x: Seq<u8>, k: int)
    requires
        holds_at(buf, pos, x),
        0 <= k <= x.len(),
    ensures
        holds_at(buf, pos, x.subrange(0, k)),
{
    assert(buf.subrange(pos, pos + k) =~= x.subrange(0, k));
}

proof fn lemma_fields_prefix(v: Seq<Seq<u8>>, i: int, j: int)
    requires
        0 <= i <= j <= v.len(),
    ensures
        fields(v.subrange(0, i)).len() <= fields(v.subrange(0, j)).len(),
        fields(v.subrange(0, j)).subrange(0, fields(v.subrange(0, i)).len() as int) == fields(v.subrange(0, i)),
    decreases j - i,
{
    if i < j {
        lemma_fields_prefix(v, i, j - 1);
        assert(v.subrange(0, j).drop_last() =~= v.subrange(0, j - 1));
        let a = fields(v.subrange(0, j - 1));
        let b = fields(v.subrange(0, i));
        assert(fields(v.subrange(0, j)).subrange(0, b.len() as int) =~= a.subrange(0, b.len() as int));
    } else {
        assert(fields(v.subrange(0, j)).subrange(0, fields(v.subrange(0, i)).len() as int) =~= fields(v.subrange(0, i)));
    }
}

proof fn lemma_deltas_prefix(v: Seq<u32>, i: int, j: int)
    requires
        0 <= i <= j <= v.len(),
    ensures
        deltas(v.subrange(0, i)).len() <= deltas(v.subrange(0, j)).len(),
        deltas(v.subrange(0, j)).subrange(0, deltas(v.subrange(0, i)).len() as int) == deltas(v.subrange(0, i)),
    decreases j - i,
{
    if i < j {
        lemma_deltas_prefix(v, i, j - 1);
        assert(v.subrange(0, j).drop_last() =~= v.subrange(0, j - 1));
        let a = deltas(v.subrange(0, j - 1));
        let b = deltas(v.subrange(0, i));
        if j - 1 == 0 {
            assert(v.subrange(0, i) =~= Seq::<u32>::empty());
        }
        assert(deltas(v.subrange(0, j)).subrange(0, b.len() as int) =~= a.subrange(0, b.len() as int));
    } else {
        assert(deltas(v.subrange(0, j)).subrange(0, deltas(v.subrange(0, i)).len() as int) =~= deltas(v.subrange(0, i)));
    }
}

proof fn lemma_postings_prefix(v: Seq<Posting>, i: int, j: int)
    requires
        0 <= i <= j <= v.len(),
    ensures
        postings_bytes(v.subrange(0, i)).len() <= postings_bytes(v.subrange(0, j)).len(),
        postings_bytes(v.subrange(0, j)).subrange(0, postings_bytes(v.subrange(0, i)).len() as int) == postings_bytes(v.subrange(0, i)),
    decreases j - i,
{
    if i < j {
        lemma_postings_prefix(v, i, j - 1);
        assert(v.subrange(0, j).drop_last() =~= v.subrange(0, j - 1));
        let a = postings_bytes(v.subrange(0, j - 1));
        let b = postings_bytes(v.subrange(0, i));
        assert(postings_bytes(v.subrange(0, j)).subrange(0, b.len() as int) =~= a.subrange(0, b.len() as int));
    } else {
        assert(postings_bytes(v.subrange(0, j)).subrange(0, postings_bytes(v.subrange(0, i)).len() as int) =~= postings_bytes(v.subrange(0, i)));
    }
}

fn read_magic(buf: &[u8], pos: usize, trailer: bool) -> (r: Option<usize>)
    requires
        pos <= buf@.len(),
    ensures
        r matches Some(e) ==> pos <= e <= buf@.len() && buf@.subrange(pos as int, e as int) == if trailer {
            trailer_magic()
        } else {
            magic()
        },
        holds_at(buf@, pos as int, if trailer { trailer_magic() } else { magic() }) ==> r is Some,
{
    let mut m: Vec<u8> = Vec::new();
    push_magic(&mut m, trailer);
    if buf.len() - pos < m.len() {
        return None;
    }
    let blen = buf.len();
    let mut i: usize = 0;
    while i < m.len()
        invariant
            blen == buf@.len(),
            i <= m@.len(),
            m@ == if trailer { trailer_magic() } else { magic() },
            pos + m@.len() <= buf@.len(),
            buf@.subrange(pos as int, pos + i) == m@.subrange(0, i as int),
        decreases m@.len() - i,
    {
        if buf[pos + i] != m[i] {
            proof {
                if holds_at(buf@, pos as int, m@) {
                    assert(buf@[pos + i] == buf@.subrange(pos as int, pos + m@.len())[i as int]);
                    assert(buf@.subrange(pos as int, pos + m@.len())[i as int] == m@[i as int]);
                }
            }
            return None;
        }
        i += 1;
        assert(buf@.subrange(pos as int, pos + i) =~= m@.subrange(0, i as int));
    }
    assert(m@.subrange(0, i as int) =~= m@);
    Some(pos + m.len())
}

proof fn lemma_fields_len(v: Seq<Seq<u8>>)
    ensures
        v.len() <= fields(v).len(),
    decreases v.len(),
{
    if v.len() > 0 {
        lemma_fields_len(v.drop_last());
        lemma_varint_shape(v.last().len());
    }
}

proof fn lemma_postings_len(v: Seq<Posting>)
    ensures
        v.len() <= postings_bytes(v).len(),
    decreases v.len(),
{
    if v.len() > 0 {
        lemma_postings_len(v.drop_last());
        lemma_varint_shape(v.last().trigram as nat);
    }
}

/// `buf` holds the list `v` at `pos`, sorted where `sorted` asks for it.
pub open spec fn fields_at(buf: Seq<u8>, pos: int, v: Seq<Seq<u8>>, sorted: bool) -> bool {
    holds_at(buf, pos, varint(v.len()) + fields(v)) && v.len() <= u64::MAX && (sorted ==> names_sorted(v))
}

fn read_fields(buf: &[u8], pos: usize, sorted: bool, hint: Ghost<Option<Seq<Seq<u8>>>>) -> (r: Option<(Vec<Vec<u8>>, usize)>)
    requires
        pos <= buf@.len(),
    ensures
        r matches Some((v, e)) ==> pos <= e <= buf@.len() && buf@.subrange(pos as int, e as int) == varint(
            v@.len() as nat,
        ) + fields(strings_of(v@)) && (sorted ==> names_sorted(strings_of(v@))),
        hint@ matches Some(v) ==> (fields_at(buf@, pos as int, v, sorted) ==> (r matches Some((w, _))
            && strings_of(w@) == v)),
{
    let blen = buf.len();
    let ghost h = match hint@ {
        Some(v) => fields_at(buf@, pos as int, v, sorted),
        None => false,
    };
    let ghost hv = if h { hint@->Some_0 } else { Seq::empty() };
    proof {
        if h {
            lemma_holds_split(buf@, pos as int, varint(hv.len()), fields(hv));
        }
    }
    let (count, mut p) = match get_value(buf, pos) {
        Some(x) => x,
        None => {
            return None;
        },
    };
    let mut v: Vec<Vec<u8>> = Vec::new();
    let mut i: u64 = 0;
    while i < count
        invariant
            pos < p <= buf@.len(),
            v@.len() == i,
            i <= count,
            buf@.subrange(pos as int, p as int) == varint(count as nat) + fields(strings_of(v@)),
            sorted ==> names_sorted(strings_of(v@)),
            blen == buf@.len(),
            h == match hint@ {
                Some(v) => fields_at(buf@, pos as int, v, sorted),
                None => false,
            },
            h ==> hv == hint@->Some_0,
            h ==> fields_at(buf@, pos as int, hv, sorted) && count == hv.len() && strings_of(v@) == hv.subrange(0, i as int)
                && p == pos + varint(count as nat).len() + fields(hv.subrange(0, i as int)).len(),
        decreases count - i,
    {
        proof {
            if h {
                let vc = varint(hv.len());
                lemma_holds_split(buf@, pos as int, vc, fields(hv));
                lemma_fields_prefix(hv, i + 1, hv.len() as int);
                assert(hv.subrange(0, hv.len() as int) =~= hv);
                lemma_holds_prefix(buf@, pos + vc.len(), fields(hv), fields(hv.subrange(0, i + 1)).len() as int);
                assert(hv.subrange(0, i + 1).drop_last() =~= hv.subrange(0, i as int));
                assert(fields(hv.subrange(0, i + 1)) == fields(hv.subrange(0, i as int)) + field(hv[i as int]));
                lemma_holds_split(buf@, pos + vc.len(), fields(hv.subrange(0, i as int)), field(hv[i as int]));
                lemma_holds_split(buf@, p as int, varint(hv[i as int].len()), hv[i as int]);
                assert(hv[i as int].len() <= buf@.len());
                assert(hv[i as int].len() <= u64::MAX);
                assert(holds_at(buf@, p as int, varint(hv[i as int].len())));
            }
        }
        let (n, q) = match get_value(buf, p) {
            Some(x) => x,
            None => {
                return None;
            },
        };
        if n > (buf.len() - q) as u64 {
            return None;
        }
        let end = q + n as usize;
        let mut b: Vec<u8> = Vec::new();
        let mut k: usize = q;
        while k < end
            invariant
                q <= k <= end <= buf@.len(),
                b@ == buf@.subrange(q as int, k as int),
            decreases end - k,
        {
            b.push(buf[k]);
            k += 1;
            assert(b@ =~= buf@.subrange(q as int, k as int));
        }
        proof {
            if h {
                assert(b@ =~= hv[i as int]);
                if i > 0 {
                    assert(strings_of(v@)[i - 1] == hv[i - 1]);
                    assert(v@[i - 1]@ == hv[i - 1]);
                    if sorted {
                        assert(lex_lt(hv[i - 1], hv[i as int]));
                    }
                }
            }
        }
        if sorted && v.len() > 0 {
            if compare_names(v[v.len() - 1].as_slice(), b.as_slice()) != -1 {
                return None;
            }
        }
        let ghost v0 = v@;
        v.push(b);
        proof {
            let s = strings_of(v@);
            assert(s.drop_last() =~= strings_of(v0));
            assert(s.last() == b@);
            assert(b@.len() == n);
            assert(buf@.subrange(pos as int, end as int) =~= buf@.subrange(pos as int, p as int) + buf@.subrange(
                p as int,
                q as int,
            ) + buf@.subrange(q as int, end as int));
            if sorted {
                assert forall|x: int, y: int| 0 <= x < y < s.len() implies lex_lt(#[trigger] s[x], #[trigger] s[y]) by {
                    let s0 = strings_of(v0);
                    if y == s.len() - 1 && x < y - 1 {
                        assert(lex_lt(s0[x], s0[y - 1]));
                        assert(s0[y - 1] == v0[y - 1]@);
                        crate::names::lemma_lex_transitive(s0[x], s0[y - 1], b@);
                    } else if y < s.len() - 1 {
                        assert(lex_lt(s0[x], s0[y]));
                    } else {
                        assert(s0[x] == v0[x]@);
                    }
                }
            }
        }
        proof {
            if h {
                assert(strings_of(v@) =~= hv.subrange(0, i + 1));
            }
        }
        p = end;
        i += 1;
    }
    proof {
        if h {
            assert(hv.subrange(0, i as int) =~= hv);
        }
    }
    Some((v, p))
}

/// `buf` holds at `pos` the posting list `ids` of `t`, a valid one for `n_files` files.
pub open spec fn posting_at(buf: Seq<u8>, pos: int, t: u32, ids: Seq<u32>, n_files: nat) -> bool {
    &&& holds_at(buf, pos, posting_bytes(t, ids))
    &&& strictly_increasing(ids)
    &&& ids.len() > 0
    &&& forall|m: int| 0 <= m < ids.len() ==> ids[m] < n_files
}

/// Reads one posting list at `pos`: ids in increasing order, each below `n_files`.
fn read_posting(buf: &[u8], pos: usize, n_files: u64, hint: Ghost<Option<(u32, Seq<u32>)>>) -> (r: Option<(Posting, usize)>)
    requires
        pos <= buf@.len(),
        n_files <= u32::MAX,
    ensures
        hint@ matches Some((t, ids)) ==> (posting_at(buf@, pos as int, t, ids, n_files as nat) ==> (r matches Some((
            ps,
            _,
        )) && ps.trigram == t && ps.ids@ == ids)),
        r matches Some((ps, e)) ==> pos <= e <= buf@.len() && buf@.subrange(pos as int, e as int) == posting_bytes(
            ps.trigram,
            ps.ids@,
        ) && strictly_increasing(ps.ids@) && ps.ids@.len() > 0 && forall|m: int|
            0 <= m < ps.ids@.len() ==> ps.ids@[m] < n_files,
{
    let blen = buf.len();
    let ghost h = match hint@ {
        Some((t, ids)) => posting_at(buf@, pos as int, t, ids, n_files as nat),
        None => false,
    };
    let ghost ht: u32 = if h { hint@->Some_0.0 } else { 0 };
    let ghost hids: Seq<u32> = if h { hint@->Some_0.1 } else { Seq::empty() };
    proof {
        if h {
            lemma_holds_split(buf@, pos as int, varint(ht as nat) + deltas(hids), varint(0));
            lemma_holds_split(buf@, pos as int, varint(ht as nat), deltas(hids));
        }
    }
    let (t, mut p) = match get_value(buf, pos) {
        Some(x) => x,
        None => {
            return None;
        },
    };
    if t > u32::MAX as u64 {
        return None;
    }
    let mut ids: Vec<u32> = Vec::new();
    proof {
        if h {
            assert(ids@ =~= hids.subrange(0, 0));
        }
    }
    loop
        invariant
            blen == buf@.len(),
            h == match hint@ {
                Some((t2, ids2)) => posting_at(buf@, pos as int, t2, ids2, n_files as nat),
                None => false,
            },
            h ==> ht == hint@->Some_0.0 && hids == hint@->Some_0.1,
            h ==> t == ht && ids@.len() <= hids.len() && ids@ == hids.subrange(0, ids@.len() as int) && p == pos
                + varint(t as nat).len() + deltas(ids@).len(),
            pos < p <= buf@.len(),
            t <= u32::MAX,
            n_files <= u32::MAX,
            buf@.subrange(pos as int, p as int) == varint(t as nat) + deltas(ids@),
            strictly_increasing(ids@),
            forall|m: int| 0 <= m < ids@.len() ==> ids@[m] < n_files,
        decreases buf@.len() - p,
    {
        let ghost k = ids@.len() as int;
        proof {
            if h {
                let vt = varint(ht as nat);
                lemma_holds_split(buf@, pos as int, vt + deltas(hids), varint(0));
                lemma_holds_split(buf@, pos as int, vt, deltas(hids));
                assert(hids.subrange(0, hids.len() as int) =~= hids);
                if k < hids.len() {
                    lemma_deltas_prefix(hids, k + 1, hids.len() as int);
                    lemma_holds_prefix(buf@, pos + vt.len(), deltas(hids), deltas(hids.subrange(0, k + 1)).len() as int);
                    let s1 = hids.subrange(0, k + 1);
                    assert(s1.drop_last() =~= hids.subrange(0, k));
                    if k == 0 {
                        assert(deltas(s1) =~= deltas(hids.subrange(0, k)) + varint((hids[0] + 1) as nat));
                    } else {
                        assert(s1[s1.len() - 2] == hids[k - 1]);
                        assert(hids[k - 1] < hids[k]);
                        assert(deltas(s1) == deltas(hids.subrange(0, k)) + varint((hids[k] - hids[k - 1]) as nat));
                    }
                    let dd: nat = if k == 0 { (hids[0] + 1) as nat } else { (hids[k] - hids[k - 1]) as nat };
                    lemma_holds_split(buf@, pos + vt.len(), deltas(hids.subrange(0, k)), varint(dd));
                    assert(holds_at(buf@, p as int, varint(dd)));
                    lemma_varint_shape(dd);
                } else {
                    assert(ids@ =~= hids);
                    assert(holds_at(buf@, p as int, varint(0)));
                }
            }
        }
        let (d, q) = match get_value(buf, p) {
            Some(x) => x,
            None => {
                return None;
            },
        };
        proof {
            assert(buf@.subrange(pos as int, q as int) =~= buf@.subrange(pos as int, p as int) + buf@.subrange(
                p as int,
                q as int,
            ));
        }
        if d == 0 {
            if ids.len() == 0 {
                return None;
            }
            let ps = Posting { trigram: t as u32, ids };
            return Some((ps, q));
        }
        proof {
            if h && k < hids.len() {
                if k == 0 {
                    assert(d == hids[0] + 1);
                } else {
                    assert(d == hids[k] - hids[k - 1]);
                }
            }
        }
        if d > n_files {
            return None;
        }
        let ghost ids0 = ids@;
        let id: u64 = if ids.len() == 0 {
            d - 1
        } else {
            ids[ids.len() - 1] as u64 + d
        };
        if id >= n_files {
            return None;
        }
        ids.push(id as u32);
        proof {
            if h {
                assert(ids@ =~= hids.subrange(0, ids@.len() as int));
            }
            assert(ids@.drop_last() =~= ids0);
            if ids0.len() > 0 {
                assert(ids@[ids@.len() - 2] == ids0.last());
            }
        }
        p = q;
    }
}

/// `buf` holds at `pos` the posting lists `ps`, valid ones for `n_files` files.
pub open spec fn postings_at(buf: Seq<u8>, pos: int, ps: Seq<Posting>, n_files: nat) -> bool {
    &&& holds_at(buf, pos, varint(ps.len()) + postings_bytes(ps))
    &&& forall|a: int, b: int| 0 <= a < b < ps.len() ==> #[trigger] ps[a].trigram < #[trigger] ps[b].trigram
    &&& forall|k: int|
        0 <= k < ps.len() ==> {
            let ids = #[trigger] ps[k].ids@;
            &&& strictly_increasing(ids)
            &&& ids.len() > 0
            &&& forall|m: int| 0 <= m < ids.len() ==> ids[m] < n_files
        }
}

/// Reads the posting lists at `start`, checking them against `n_files` files.
#[verifier::rlimit(50)]
fn read_postings(buf: &[u8], start: usize, n_files: u64, hint: Ghost<Option<Seq<Posting>>>) -> (r: Option<(Vec<Posting>, usize)>)
    requires
        start <= buf@.len(),
        n_files <= u32::MAX,
    ensures
        r matches Some((postings, e)) ==> {
            &&& start <= e <= buf@.len()
            &&& buf@.subrange(start as int, e as int) == varint(postings@.len() as nat) + postings_bytes(postings@)
            &&& forall|a: int, b: int| 0 <= a < b < postings@.len() ==> #[trigger] postings@[a].trigram < #[trigger] postings@[b].trigram
            &&& forall|k: int|
                0 <= k < postings@.len() ==> {
                    let ids = #[trigger] postings@[k].ids@;
                    &&& strictly_increasing(ids)
                    &&& ids.len() > 0
                    &&& forall|m: int| 0 <= m < ids.len() ==> ids[m] < n_files
                }
        },
        hint@ matches Some(hp) ==> (postings_at(buf@, start as int, hp, n_files as nat) ==> (r matches Some((_, e)) && e
            == start + varint(hp.len()).len() + postings_bytes(hp).len())),
{
    let blen = buf.len();
    let ghost h = match hint@ {
        Some(hp) => postings_at(buf@, start as int, hp, n_files as nat),
        None => false,
    };
    let ghost wp: Seq<Posting> = if h { hint@->Some_0 } else { Seq::empty() };
    proof {
        if h {
            lemma_holds_split(buf@, start as int, varint(wp.len()), postings_bytes(wp));
            lemma_postings_len(wp);
        }
    }
    let (count, mut p) = match get_value(buf, start) {
        Some(x) => x,
        None => {
            return None;
        },
    };
    let mut postings: Vec<Posting> = Vec::new();
    let mut i: u64 = 0;
    while i < count
        invariant
            start < p <= buf@.len(),
            postings@.len() == i,
            i <= count,
            n_files <= u32::MAX,
            buf@.subrange(start as int, p as int) == varint(count as nat) + postings_bytes(postings@),
            blen == buf@.len(),
            h == match hint@ {
                Some(hp) => postings_at(buf@, start as int, hp, n_files as nat),
                None => false,
            },
            h ==> wp == hint@->Some_0 && count == wp.len(),
            h ==> p == start + varint(count as nat).len() + postings_bytes(wp.subrange(0, i as int)).len(),
            h ==> forall|k: int| 0 <= k < i ==> (#[trigger] postings@[k]).trigram == wp[k].trigram,
            forall|a: int, b: int| 0 <= a < b < postings@.len() ==> #[trigger] postings@[a].trigram < #[trigger] postings@[b].trigram,
            forall|k: int| 0 <= k < postings@.len() ==> {
                let ids = #[trigger] postings@[k].ids@;
                &&& strictly_increasing(ids)
                &&& ids.len() > 0
                &&& forall|m: int| 0 <= m < ids.len() ==> ids[m] < n_files
            },
        decreases count - i,
    {
        let ghost hint: Option<(u32, Seq<u32>)> = if h {
            Some((wp[i as int].trigram, wp[i as int].ids@))
        } else {
            None
        };
        proof {
            if h {
                let ps = wp;
                lemma_holds_split(buf@, start as int, varint(ps.len()), postings_bytes(ps));
                lemma_postings_prefix(ps, i + 1, ps.len() as int);
                assert(ps.subrange(0, ps.len() as int) =~= ps);
                lemma_holds_prefix(buf@, start + varint(ps.len()).len(), postings_bytes(ps), postings_bytes(ps.subrange(0, i + 1)).len() as int);
                let s1 = ps.subrange(0, i + 1);
                assert(s1.drop_last() =~= ps.subrange(0, i as int));
                lemma_holds_split(buf@, start + varint(ps.len()).len(), postings_bytes(ps.subrange(0, i as int)), posting_bytes(ps[i as int].trigram, ps[i as int].ids@));
                assert(strictly_increasing(ps[i as int].ids@));
                assert(posting_at(buf@, p as int, ps[i as int].trigram, ps[i as int].ids@, n_files as nat));
                if i > 0 {
                    assert(ps[i - 1].trigram < ps[i as int].trigram);
                }
            }
        }
        let (ps, q) = match read_posting(buf, p, n_files, Ghost(hint)) {
            Some(x) => x,
            None => {
                return None;
            },
        };
        if postings.len() > 0 && postings[postings.len() - 1].trigram >= ps.trigram {
            return None;
        }
        let ghost old_ps = postings@;
        postings.push(ps);
        proof {
            assert(postings@.drop_last() =~= old_ps);
            assert(buf@.subrange(start as int, q as int) =~= buf@.subrange(start as int, p as int) + buf@.subrange(
                p as int,
                q as int,
            ));
            if h {
                let ps = wp;
                let s1 = ps.subrange(0, i + 1);
                assert(s1.drop_last() =~= ps.subrange(0, i as int));
                assert(postings@[i as int].trigram == ps[i as int].trigram);
            }
            assert forall|a: int, b: int| 0 <= a < b < postings@.len() implies #[trigger] postings@[a].trigram
                < #[trigger] postings@[b].trigram by {
                if b == postings@.len() - 1 && a < b - 1 {
                    assert(old_ps[a].trigram < old_ps[b - 1].trigram);
                }
            }
        }
        p = q;
        i += 1;
    }
    proof {
        if h {
            assert(wp.subrange(0, i as int) =~= wp);
        }
    }
    Some((postings, p))
}

/// The index whose file holds exactly the bytes of `buf`; `CorruptIndex`
/// where `buf` is no such file.
#[verifier::rlimit(40)]
pub fn decode_index(buf: &[u8]) -> (r: Result<Index, IndexError>)
    ensures
        r matches Ok(ix) ==> ix.wf() && index_bytes(&ix) == buf@,
        r matches Err(e) ==> e == IndexError::CorruptIndex,
        (exists|ix: Index| ix.wf() && #[trigger] index_bytes(&ix) == buf@) ==> r is Ok,
{
    let blen = buf.len();
    let ghost h = exists|ix: Index| ix.wf() && #[trigger] index_bytes(&ix) == buf@;
    let ghost w = choose|ix: Index| ix.wf() && #[trigger] index_bytes(&ix) == buf@;
    let ghost hp = strings_of(w.paths@);
    let ghost hn = strings_of(w.names@);
    let ghost x1 = varint(hp.len()) + fields(hp);
    let ghost x2 = varint(hn.len()) + fields(hn);
    let ghost x3 = varint(w.postings@.len()) + postings_bytes(w.postings@);
    proof {
        if h {
            lemma_grouped(&w);
            lemma_split5(buf@, magic(), x1, x2, x3, trailer_magic());
            lemma_fields_len(hp);
            lemma_fields_len(hn);
            assert(hp.len() == w.paths@.len());
            assert(hn.len() == w.names@.len());
        }
    }
    let after_magic = match read_magic(buf, 0, false) {
        Some(x) => x,
        None => {
            return Err(IndexError::CorruptIndex);
        },
    };
    proof {
        if h {
            assert(after_magic == magic().len());
        }
    }
    let (paths, after_paths) = match read_fields(buf, after_magic, false, Ghost(if h { Some(hp) } else { None })) {
        Some(x) => x,
        None => {
            return Err(IndexError::CorruptIndex);
        },
    };
    proof {
        if h {
            assert(strings_of(paths@) == hp);
            assert(after_paths == magic().len() + x1.len());
        }
    }
    let (names, after_names) = match read_fields(buf, after_paths, true, Ghost(if h { Some(hn) } else { None })) {
        Some(x) => x,
        None => {
            return Err(IndexError::CorruptIndex);
        },
    };
    if names.len() as u64 > u32::MAX as u64 {
        return Err(IndexError::CorruptIndex);
    }
    let n_files = names.len() as u64;
    proof {
        if h {
            assert(strings_of(names@) == hn);
            assert(after_names == magic().len() + x1.len() + x2.len());
            lemma_holds_split(buf@, after_names as int, varint(w.postings@.len()), postings_bytes(w.postings@));
            lemma_postings_len(w.postings@);
        }
    }
    let (postings, p) = match read_postings(buf, after_names, n_files, Ghost(if h { Some(w.postings@) } else { None })) {
        Some(x) => x,
        None => {
            return Err(IndexError::CorruptIndex);
        },
    };
    proof {
        if h {
            assert(p == magic().len() + x1.len() + x2.len() + x3.len());
        }
    }
    let after_trailer = match read_magic(buf, p, true) {
        Some(x) => x,
        None => {
            return Err(IndexError::CorruptIndex);
        },
    };
    if after_trailer != buf.len() {
        return Err(IndexError::CorruptIndex);
    }
    let ix = Index { paths, names, postings };
    proof {
        lemma_grouped(&ix);
        lemma_join5(
            buf@,
            after_magic as int,
            after_paths as int,
            after_names as int,
            p as int,
            magic(),
            varint(ix.paths@.len()) + fields(strings_of(ix.paths@)),
            varint(ix.names@.len()) + fields(strings_of(ix.names@)),
            varint(ix.postings@.len()) + postings_bytes(ix.postings@),
            trailer_magic(),
        );
    }
    Ok(ix)
}

/// The bytes of `ix` in five parts: the magic, the roots, the names, the
/// posting lists and the trailer.
proof fn lemma_grouped(ix: &Index)
    ensures
        index_bytes(ix) == magic() + (varint(ix.paths@.len()) + fields(strings_of(ix.paths@))) + (varint(
            ix.names@.len(),
        ) + fields(strings_of(ix.names@))) + (varint(ix.postings@.len()) + postings_bytes(ix.postings@))
            + trailer_magic(),
{
    let m = magic();
    let a = varint(ix.paths@.len());
    let b = fields(strings_of(ix.paths@));
    let c = varint(ix.names@.len());
    let d = fields(strings_of(ix.names@));
    let e = varint(ix.postings@.len());
    let f = postings_bytes(ix.postings@);
    vstd::seq_lib::lemma_concat_associative(m, a, b);
    vstd::seq_lib::lemma_concat_associative(m + a + b, c, d);
    vstd::seq_lib::lemma_concat_associative(m + a + b + c + d, e, f);
}

proof fn lemma_split5(buf: Seq<u8>, x0: Seq<u8>, x1: Seq<u8>, x2: Seq<u8>, x3: Seq<u8>, x4: Seq<u8>)
    requires
        buf == x0 + x1 + x2 + x3 + x4,
    ensures
        holds_at(buf, 0, x0),
        holds_at(buf, x0.len() as int, x1),
        holds_at(buf, (x0.len() + x1.len()) as int, x2),
        holds_at(buf, (x0.len() + x1.len() + x2.len()) as int, x3),
        holds_at(buf, (x0.len() + x1.len() + x2.len() + x3.len()) as int, x4),
        buf.len() == x0.len() + x1.len() + x2.len() + x3.len() + x4.len(),
{
    assert(buf.subrange(0, buf.len() as int) =~= buf);
    lemma_holds_split(buf, 0, x0 + x1 + x2 + x3, x4);
    lemma_holds_split(buf, 0, x0 + x1 + x2, x3);
    lemma_holds_split(buf, 0, x0 + x1, x2);
    lemma_holds_split(buf, 0, x0, x1);
}

proof fn lemma_join5(
    buf: Seq<u8>,
    a: int,
    b: int,
    c: int,
    d: int,
    x0: Seq<u8>,
    x1: Seq<u8>,
    x2: Seq<u8>,
    x3: Seq<u8>,
    x4: Seq<u8>,
)
    requires
        0 <= a <= b <= c <= d <= buf.len(),
        buf.subrange(0, a) == x0,
        buf.subrange(a, b) == x1,
        buf.subrange(b, c) == x2,
        buf.subrange(c, d) == x3,
        buf.subrange(d, buf.len() as int) == x4,
    ensures
        buf == x0 + x1 + x2 + x3 + x4,
{
    assert(buf =~= buf.subrange(0, a) + buf.subrange(a, b) + buf.subrange(b, c) + buf.subrange(c, d) + buf.subrange(
        d,
        buf.len() as int,
    ));
}

/// An encoding is never a proper prefix of another: equal byte runs that
/// start with encodings start with the same one.
proof fn lemma_varint_unique(x: nat, y: nat, r1: Seq<u8>, r2: Seq<u8>)
    requires
        varint(x) + r1 == varint(y) + r2,
    ensures
        x == y,
        r1 == r2,
{
    crate::varint::law_varint_round_trip(x, r1);
    crate::varint::law_varint_round_trip(y, r2);
    assert(r1 =~= (varint(x) + r1).subrange(varint(x).len() as int, (varint(x) + r1).len() as int));
    assert(r2 =~= (varint(y) + r2).subrange(varint(y).len() as int, (varint(y) + r2).len() as int));
}

proof fn lemma_fields_front(v: Seq<Seq<u8>>)
    requires
        v.len() > 0,
    ensures
        fields(v) == field(v[0]) + fields(v.drop_first()),
    decreases v.len(),
{
    if v.len() > 1 {
        lemma_fields_front(v.drop_last());
        assert(v.drop_last().drop_first() =~= v.drop_first().drop_last());
        assert(v.drop_first().last() == v.last());
        assert(fields(v) =~= field(v[0]) + fields(v.drop_first()));
    } else {
        assert(v.drop_first() =~= Seq::<Seq<u8>>::empty());
        assert(v.drop_last() =~= Seq::<Seq<u8>>::empty());
        assert(fields(v) =~= field(v[0]) + fields(v.drop_first()));
    }
}

proof fn lemma_fields_unique(v1: Seq<Seq<u8>>, v2: Seq<Seq<u8>>, r1: Seq<u8>, r2: Seq<u8>)
    requires
        v1.len() == v2.len(),
        fields(v1) + r1 == fields(v2) + r2,
    ensures
        v1 == v2,
        r1 == r2,
    decreases v1.len(),
{
    if v1.len() == 0 {
        assert(v1 =~= v2);
        assert(fields(v1) + r1 =~= r1);
        assert(fields(v2) + r2 =~= r2);
    } else {
        lemma_fields_front(v1);
        lemma_fields_front(v2);
        let a = v1[0];
        let b = v2[0];
        let t1 = fields(v1.drop_first()) + r1;
        let t2 = fields(v2.drop_first()) + r2;
        assert(varint(a.len()) + (a + t1) =~= fields(v1) + r1);
        assert(varint(b.len()) + (b + t2) =~= fields(v2) + r2);
        lemma_varint_unique(a.len(), b.len(), a + t1, b + t2);
        assert(a =~= (a + t1).subrange(0, a.len() as int));
        assert(b =~= (b + t2).subrange(0, b.len() as int));
        assert(t1 =~= (a + t1).subrange(a.len() as int, (a + t1).len() as int));
        assert(t2 =~= (b + t2).subrange(b.len() as int, (b + t2).len() as int));
        lemma_fields_unique(v1.drop_first(), v2.drop_first(), r1, r2);
        assert(v1 =~= seq![a] + v1.drop_first());
        assert(v2 =~= seq![b] + v2.drop_first());
    }
}

/// The bytes of `ix` as the magic followed by the rest, grouped from the right.
proof fn lemma_regroup(ix: &Index)
    ensures
        index_bytes(ix) == magic() + (varint(strings_of(ix.paths@).len()) + (fields(strings_of(ix.paths@)) + (varint(
            strings_of(ix.names@).len(),
        ) + (fields(strings_of(ix.names@)) + (varint(ix.postings@.len()) + postings_bytes(ix.postings@)
            + trailer_magic()))))),
{
    let m = magic();
    let a = varint(ix.paths@.len());
    let b = fields(strings_of(ix.paths@));
    let c = varint(ix.names@.len());
    let d = fields(strings_of(ix.names@));
    let r = varint(ix.postings@.len()) + postings_bytes(ix.postings@) + trailer_magic();
    let e = varint(ix.postings@.len());
    let f = postings_bytes(ix.postings@);
    let g = trailer_magic();
    assert(strings_of(ix.paths@).len() == ix.paths@.len());
    assert(strings_of(ix.names@).len() == ix.names@.len());
    vstd::seq_lib::lemma_concat_associative(m + a + b + c + d + e, f, g);
    vstd::seq_lib::lemma_concat_associative(m + a + b + c + d, e, f + g);
    vstd::seq_lib::lemma_concat_associative(e, f, g);
    vstd::seq_lib::lemma_concat_associative(m + a + b + c, d, r);
    vstd::seq_lib::lemma_concat_associative(m + a + b, c, d + r);
    vstd::seq_lib::lemma_concat_associative(m + a, b, c + (d + r));
    vstd::seq_lib::lemma_concat_associative(m, a, b + (c + (d + r)));
}

/// Reading back: two indexes with the same bytes have the same roots and
/// the same file names in the same order, so the index that `decode_index`
/// gives for the bytes of `ix` names its files exactly as `ix` does.
pub proof fn law_round_trip_names(ix: &Index, back: &Index)
    requires
        index_bytes(back) == index_bytes(ix),
    ensures
        strings_of(back.paths@) == strings_of(ix.paths@),
        back.name_seq() == ix.name_seq(),
{
    let pa = strings_of(ix.paths@);
    let pb = strings_of(back.paths@);
    let na = strings_of(ix.names@);
    let nb = strings_of(back.names@);
    let ra = varint(ix.postings@.len()) + postings_bytes(ix.postings@) + trailer_magic();
    let rb = varint(back.postings@.len()) + postings_bytes(back.postings@) + trailer_magic();
    let ta = varint(pa.len()) + (fields(pa) + (varint(na.len()) + (fields(na) + ra)));
    let tb = varint(pb.len()) + (fields(pb) + (varint(nb.len()) + (fields(nb) + rb)));
    lemma_regroup(ix);
    lemma_regroup(back);
    assert(ta =~= (magic() + ta).subrange(16, (magic() + ta).len() as int));
    assert(tb =~= (magic() + tb).subrange(16, (magic() + tb).len() as int));
    lemma_varint_unique(pa.len(), pb.len(), fields(pa) + (varint(na.len()) + (fields(na) + ra)), fields(pb) + (varint(nb.len()) + (fields(nb) + rb)));
    lemma_fields_unique(pa, pb, varint(na.len()) + (fields(na) + ra), varint(nb.len()) + (fields(nb) + rb));
    lemma_varint_unique(na.len(), nb.len(), fields(na) + ra, fields(nb) + rb);
    lemma_fields_unique(na, nb, ra, rb);
}

} // verus!
