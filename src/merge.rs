//! Merging two indexes over disjoint sets of files into one, with the file
//! ids of both renumbered into the sorted order of all names.

use crate::index::{byte_strings, copy_names, copy_vec, lemma_list_of_listed, Index, IndexError, Posting};
use crate::postings::{group_keys, key, lemma_key_parts, listed, make_key};
use crate::sorted::sort_keys;
use crate::names::{compare_names, lemma_lex_irreflexive, lemma_lex_transitive, lex_lt, names_sorted};
use crate::sorted::strictly_increasing;
use vstd::prelude::*;

verus! {

/// Some name stands in both `a` and `b`.
pub open spec fn shares_name(a: Seq<Seq<u8>>, b: Seq<Seq<u8>>) -> bool {
    exists|i: int, j: int| 0 <= i < a.len() && 0 <= j < b.len() && a[i] == b[j]
}

/// `map` sends each position of `src` to the position of the same name in
/// `names`, keeping their order.
pub open spec fn renumbers(names: Seq<Seq<u8>>, src: Seq<Seq<u8>>, map: Seq<u32>) -> bool {
    &&& map.len() == src.len()
    &&& strictly_increasing(map)
    &&& forall|i: int| 0 <= i < map.len() ==> #[trigger] map[i] < names.len() && names[map[i] as int] == src[i]
}

/// No name of `s` from position `j` on equals `x`, which sorts before `s[j]`.
proof fn lemma_before_all(s: Seq<Seq<u8>>, j: int, x: Seq<u8>)
    requires
        names_sorted(s),
        0 <= j < s.len(),
        lex_lt(x, s[j]),
    ensures
        forall|l: int| j <= l < s.len() ==> #[trigger] s[l] != x,
{
    assert forall|l: int| j <= l < s.len() implies #[trigger] s[l] != x by {
        lemma_lex_irreflexive(x);
        if l > j {
            lemma_lex_transitive(x, s[j], s[l]);
        }
    }
}

/// The names of `a` and `b` in one sorted list, with where each name went.
pub fn merge_names(a: &Vec<Vec<u8>>, b: &Vec<Vec<u8>>) -> (r: Result<(Vec<Vec<u8>>, Vec<u32>, Vec<u32>), IndexError>)
    requires
        names_sorted(byte_strings(a@)),
        names_sorted(byte_strings(b@)),
    ensures
        a@.len() + b@.len() > u32::MAX ==> r == Err::<(Vec<Vec<u8>>, Vec<u32>, Vec<u32>), IndexError>(IndexError::TooManyFiles),
        a@.len() + b@.len() <= u32::MAX && shares_name(byte_strings(a@), byte_strings(b@))
            ==> r == Err::<(Vec<Vec<u8>>, Vec<u32>, Vec<u32>), IndexError>(IndexError::DuplicateName),
        a@.len() + b@.len() <= u32::MAX && !shares_name(byte_strings(a@), byte_strings(b@)) ==> match r {
            Ok((names, ma, mb)) => {
                &&& names@.len() == a@.len() + b@.len()
                &&& names_sorted(byte_strings(names@))
                &&& renumbers(byte_strings(names@), byte_strings(a@), ma@)
                &&& renumbers(byte_strings(names@), byte_strings(b@), mb@)
            },
            Err(_) => false,
        },
{
    let na = a.len();
    let nb = b.len();
    if na as u128 + nb as u128 > u32::MAX as u128 {
        return Err(IndexError::TooManyFiles);
    }
    let ghost sa = byte_strings(a@);
    let ghost sb = byte_strings(b@);
    let mut out: Vec<Vec<u8>> = Vec::new();
    let mut ma: Vec<u32> = Vec::new();
    let mut mb: Vec<u32> = Vec::new();
    let mut i: usize = 0;
    let mut j: usize = 0;
    while i < na || j < nb
        invariant
            na == a@.len(),
            nb == b@.len(),
            sa == byte_strings(a@),
            sb == byte_strings(b@),
            names_sorted(sa),
            names_sorted(sb),
            na + nb <= u32::MAX,
            i <= na,
            j <= nb,
            out@.len() == i + j,
            names_sorted(byte_strings(out@)),
            renumbers(byte_strings(out@), sa.subrange(0, i as int), ma@),
            renumbers(byte_strings(out@), sb.subrange(0, j as int), mb@),
            out@.len() > 0 && i < na ==> lex_lt(byte_strings(out@).last(), sa[i as int]),
            out@.len() > 0 && j < nb ==> lex_lt(byte_strings(out@).last(), sb[j as int]),
            forall|k: int, l: int| 0 <= k < i && 0 <= l < nb ==> #[trigger] sa[k] != #[trigger] sb[l],
            forall|k: int, l: int| 0 <= k < na && 0 <= l < j ==> #[trigger] sa[k] != #[trigger] sb[l],
        decreases na + nb - i - j,
    {
        let take_a: bool;
        if i < na && j < nb {
            let c = compare_names(a[i].as_slice(), b[j].as_slice());
            assert(sa[i as int] == a@[i as int]@);
            assert(sb[j as int] == b@[j as int]@);
            if c == 0 {
                assert(shares_name(sa, sb));
                return Err(IndexError::DuplicateName);
            }
            take_a = c < 0;
        } else {
            take_a = i < na;
        }
        let ghost out0 = byte_strings(out@);
        let ghost ma0 = ma@;
        let ghost mb0 = mb@;
        let pos = out.len() as u32;
        if take_a {
            assert(sa[i as int] == a@[i as int]@);
            out.push(copy_vec(&a[i]));
            ma.push(pos);
            proof {
                assert(byte_strings(out@) =~= out0.push(sa[i as int]));
                if j < nb {
                    lemma_before_all(sb, j as int, sa[i as int]);
                }
                assert forall|x: int, y: int| 0 <= x < y < byte_strings(out@).len() implies lex_lt(
                    #[trigger] byte_strings(out@)[x],
                    #[trigger] byte_strings(out@)[y],
                ) by {
                    if y == out0.len() && x < y - 1 {
                        assert(lex_lt(out0[x], out0[y - 1]));
                        lemma_lex_transitive(out0[x], out0[y - 1], sa[i as int]);
                    } else if y < out0.len() {
                        assert(lex_lt(out0[x], out0[y]));
                    }
                }
                assert(sa.subrange(0, i + 1) =~= sa.subrange(0, i as int).push(sa[i as int]));
                assert forall|k: int| 0 <= k < ma@.len() implies #[trigger] ma@[k] < byte_strings(out@).len()
                    && byte_strings(out@)[ma@[k] as int] == sa.subrange(0, i + 1)[k] by {
                    if k < ma0.len() {
                        assert(ma0[k] < out0.len());
                    }
                }
                assert forall|k: int| 0 <= k < mb@.len() implies #[trigger] mb@[k] < byte_strings(out@).len()
                    && byte_strings(out@)[mb@[k] as int] == sb.subrange(0, j as int)[k] by {
                    assert(mb0[k] < out0.len());
                }
                if i + 1 < na {
                    assert(lex_lt(sa[i as int], sa[i + 1]));
                }
            }
            i += 1;
        } else {
            assert(sb[j as int] == b@[j as int]@);
            out.push(copy_vec(&b[j]));
            mb.push(pos);
            proof {
                assert(byte_strings(out@) =~= out0.push(sb[j as int]));
                if i < na {
                    crate::names::lemma_lex_total(sa[i as int], sb[j as int]);
                    crate::names::lemma_lex_asymmetric(sa[i as int], sb[j as int]);
                    lemma_before_all(sa, i as int, sb[j as int]);
                }
                assert forall|x: int, y: int| 0 <= x < y < byte_strings(out@).len() implies lex_lt(
                    #[trigger] byte_strings(out@)[x],
                    #[trigger] byte_strings(out@)[y],
                ) by {
                    if y == out0.len() && x < y - 1 {
                        assert(lex_lt(out0[x], out0[y - 1]));
                        lemma_lex_transitive(out0[x], out0[y - 1], sb[j as int]);
                    } else if y < out0.len() {
                        assert(lex_lt(out0[x], out0[y]));
                    }
                }
                assert(sb.subrange(0, j + 1) =~= sb.subrange(0, j as int).push(sb[j as int]));
                assert forall|k: int| 0 <= k < mb@.len() implies #[trigger] mb@[k] < byte_strings(out@).len()
                    && byte_strings(out@)[mb@[k] as int] == sb.subrange(0, j + 1)[k] by {
                    if k < mb0.len() {
                        assert(mb0[k] < out0.len());
                    }
                }
                assert forall|k: int| 0 <= k < ma@.len() implies #[trigger] ma@[k] < byte_strings(out@).len()
                    && byte_strings(out@)[ma@[k] as int] == sa.subrange(0, i as int)[k] by {
                    assert(ma0[k] < out0.len());
                }
                if j + 1 < nb {
                    assert(lex_lt(sb[j as int], sb[j + 1]));
                }
            }
            j += 1;
        }
    }
    assert(sa.subrange(0, na as int) =~= sa);
    assert(sb.subrange(0, nb as int) =~= sb);
    assert(!shares_name(sa, sb));
    Ok((out, ma, mb))
}

/// Some posting of `ps` lists `x` under `t`, and `map` sends `x` to `id`.
pub open spec fn listed_through(ps: Seq<Posting>, map: Seq<u32>, t: u32, id: u32) -> bool {
    exists|x: u32| #[trigger] listed(ps, t, x) && x < map.len() && map[x as int] == id
}

/// Appends, for each posting of `ps` and each id in it, the key of the
/// posting's trigram and the id's image under `map`.
fn push_remapped(ps: &Vec<Posting>, map: &Vec<u32>, keys: &mut Vec<u64>)
    requires
        forall|k: int, m: int|
            0 <= k < ps@.len() && 0 <= m < ps@[k].ids@.len() ==> #[trigger] ps@[k].ids@[m] < map@.len(),
    ensures
        forall|t: u32, id: u32| #[trigger] final(keys)@.contains(key(t, id)) <==> old(keys)@.contains(key(t, id))
            || listed_through(ps@, map@, t, id),
{
    let ghost keys0 = keys@;
    let mut k: usize = 0;
    while k < ps.len()
        invariant
            k <= ps@.len(),
            forall|k2: int, m: int|
                0 <= k2 < ps@.len() && 0 <= m < ps@[k2].ids@.len() ==> #[trigger] ps@[k2].ids@[m] < map@.len(),
            forall|t: u32, id: u32| #[trigger] keys@.contains(key(t, id)) <==> keys0.contains(key(t, id))
                || listed_through(ps@.subrange(0, k as int), map@, t, id),
        decreases ps@.len() - k,
    {
        let t = ps[k].trigram;
        let ghost keys1 = keys@;
        let mut m: usize = 0;
        while m < ps[k].ids.len()
            invariant
                k < ps@.len(),
                t == ps@[k as int].trigram,
                m <= ps@[k as int].ids@.len(),
                forall|k2: int, m2: int|
                    0 <= k2 < ps@.len() && 0 <= m2 < ps@[k2].ids@.len() ==> #[trigger] ps@[k2].ids@[m2] < map@.len(),
                forall|t2: u32, id: u32| #[trigger] keys@.contains(key(t2, id)) <==> keys1.contains(key(t2, id))
                    || (t2 == t && exists|m2: int| 0 <= m2 < m && map@[ps@[k as int].ids@[m2] as int] == id),
            decreases ps@[k as int].ids@.len() - m,
        {
            let x = ps[k].ids[m];
            assert(ps@[k as int].ids@[m as int] < map@.len());
            let id = map[x as usize];
            let nk = make_key(t, id);
            let ghost before = keys@;
            keys.push(nk);
            proof {
                assert forall|t2: u32, id2: u32| #[trigger] keys@.contains(key(t2, id2)) <==> keys1.contains(key(t2, id2))
                    || (t2 == t && exists|m2: int| 0 <= m2 < m + 1 && map@[ps@[k as int].ids@[m2] as int] == id2) by {
                    lemma_key_parts(t2, id2);
                    if keys@.contains(key(t2, id2)) && !before.contains(key(t2, id2)) {
                        assert(key(t2, id2) == nk);
                        assert(map@[ps@[k as int].ids@[m as int] as int] == id2);
                    }
                    if before.contains(key(t2, id2)) {
                        let w = choose|w: int| 0 <= w < before.len() && before[w] == key(t2, id2);
                        assert(keys@[w] == key(t2, id2));
                    }
                    if t2 == t && exists|m2: int| 0 <= m2 < m + 1 && map@[ps@[k as int].ids@[m2] as int] == id2 {
                        let m2 = choose|m2: int| 0 <= m2 < m + 1 && map@[ps@[k as int].ids@[m2] as int] == id2;
                        if m2 == m {
                            assert(keys@[keys@.len() - 1] == key(t2, id2));
                        } else {
                            assert(before.contains(key(t2, id2)));
                        }
                    }
                }
            }
            m += 1;
        }
        proof {
            let pk = ps@.subrange(0, k + 1);
            let done = ps@.subrange(0, k as int);
            assert forall|t2: u32, id: u32| #[trigger] keys@.contains(key(t2, id)) <==> keys0.contains(key(t2, id))
                || listed_through(pk, map@, t2, id) by {
                if listed_through(pk, map@, t2, id) {
                    let x = choose|x: u32| #[trigger] listed(pk, t2, x) && x < map@.len() && map@[x as int] == id;
                    let q = choose|q: int| 0 <= q < pk.len() && #[trigger] pk[q].trigram == t2 && pk[q].ids@.contains(x);
                    if q < k {
                        assert(done[q] == pk[q]);
                        assert(listed(done, t2, x));
                        assert(listed_through(done, map@, t2, id));
                    } else {
                        let m2 = choose|m2: int| 0 <= m2 < ps@[k as int].ids@.len() && ps@[k as int].ids@[m2] == x;
                        assert(map@[ps@[k as int].ids@[m2] as int] == id);
                    }
                }
                if keys@.contains(key(t2, id)) && !keys0.contains(key(t2, id)) {
                    if keys1.contains(key(t2, id)) {
                        let x = choose|x: u32| #[trigger] listed(done, t2, x) && x < map@.len() && map@[x as int] == id;
                        let q = choose|q: int| 0 <= q < done.len() && #[trigger] done[q].trigram == t2 && done[q].ids@.contains(x);
                        assert(pk[q] == done[q]);
                        assert(listed(pk, t2, x));
                    } else {
                        let m2 = choose|m2: int| 0 <= m2 < ps@[k as int].ids@.len() && map@[ps@[k as int].ids@[m2] as int] == id;
                        let x = ps@[k as int].ids@[m2];
                        assert(pk[k as int] == ps@[k as int]);
                        assert(pk[k as int].ids@.contains(x));
                        assert(listed(pk, t2, x));
                    }
                }
                if keys0.contains(key(t2, id)) {
                    assert(keys1.contains(key(t2, id)));
                }
            }
        }
        k += 1;
    }
    assert(ps@.subrange(0, k as int) =~= ps@);
}

/// The result of a merge: the merged index and, for each source, where each
/// of its file ids went.
pub struct Merged {
    pub index: Index,
    pub renumber_a: Vec<u32>,
    pub renumber_b: Vec<u32>,
}

/// Merges two indexes over disjoint sets of files. The merged index lists
/// each file's trigrams as its source did, under the file's new id.
pub fn merge(a: &Index, b: &Index) -> (r: Result<Merged, IndexError>)
    requires
        a.wf(),
        b.wf(),
    ensures
        a.names@.len() + b.names@.len() > u32::MAX ==> r == Err::<Merged, IndexError>(IndexError::TooManyFiles),
        a.names@.len() + b.names@.len() <= u32::MAX && shares_name(a.name_seq(), b.name_seq())
            ==> r == Err::<Merged, IndexError>(IndexError::DuplicateName),
        a.names@.len() + b.names@.len() <= u32::MAX && !shares_name(a.name_seq(), b.name_seq()) ==> match r {
            Ok(m) => {
                &&& m.index.wf()
                &&& m.index.names@.len() == a.names@.len() + b.names@.len()
                &&& renumbers(m.index.name_seq(), a.name_seq(), m.renumber_a@)
                &&& renumbers(m.index.name_seq(), b.name_seq(), m.renumber_b@)
                &&& byte_strings(m.index.paths@) == byte_strings(a.paths@) + byte_strings(b.paths@)
                &&& forall|t: u32, id: u32| #[trigger] m.index.list_of(t).contains(id) <==> (
                    listed_through(a.postings@, m.renumber_a@, t, id)
                    || listed_through(b.postings@, m.renumber_b@, t, id))
            },
            Err(_) => false,
        },
{
    let (names, ma, mb) = match merge_names(&a.names, &b.names) {
        Ok(x) => x,
        Err(e) => {
            return Err(e);
        },
    };
    proof {
        assert forall|k: int, m: int| 0 <= k < a.postings@.len() && 0 <= m < a.postings@[k].ids@.len()
            implies #[trigger] a.postings@[k].ids@[m] < ma@.len() by {
            let ids = a.postings@[k].ids@;
        }
        assert forall|k: int, m: int| 0 <= k < b.postings@.len() && 0 <= m < b.postings@[k].ids@.len()
            implies #[trigger] b.postings@[k].ids@[m] < mb@.len() by {
            let ids = b.postings@[k].ids@;
        }
    }
    let mut keys: Vec<u64> = Vec::new();
    push_remapped(&a.postings, &ma, &mut keys);
    let ghost keys_a = keys@;
    push_remapped(&b.postings, &mb, &mut keys);
    let ghost keys0 = keys@;
    sort_keys(&mut keys);
    let postings = group_keys(&keys);
    let mut paths = copy_names(&a.paths);
    let mut more = copy_names(&b.paths);
    let ghost pa = paths@;
    let ghost pb = more@;
    paths.append(&mut more);
    proof {
        assert(byte_strings(paths@) =~= byte_strings(pa) + byte_strings(pb));
    }
    let index = Index { paths, names, postings };
    proof {
        broadcast use vstd::seq_lib::group_to_multiset_ensures;
        assert forall|x: u64| #[trigger] keys@.contains(x) <==> keys0.contains(x) by {
            if keys@.contains(x) {
                assert(keys@.to_multiset().count(x) > 0);
            }
            if keys0.contains(x) {
                assert(keys0.to_multiset().count(x) > 0);
            }
        }
        assert forall|t: u32, id: u32| #[trigger] listed(index.postings@, t, id) implies id < index.names@.len() by {
            if listed(index.postings@, t, id) {
                assert(keys@.contains(key(t, id)));
                assert(keys0.contains(key(t, id)));
                if listed_through(a.postings@, ma@, t, id) {
                    let x = choose|x: u32| #[trigger] listed(a.postings@, t, x) && x < ma@.len() && ma@[x as int] == id;
                    assert(ma@[x as int] < index.names@.len());
                } else {
                    let x = choose|x: u32| #[trigger] listed(b.postings@, t, x) && x < mb@.len() && mb@[x as int] == id;
                    assert(mb@[x as int] < index.names@.len());
                }
            }
        }
        assert forall|k: int| 0 <= k < index.postings@.len() implies ({
            let ids = #[trigger] index.postings@[k].ids@;
            forall|m: int| 0 <= m < ids.len() ==> ids[m] < index.names@.len()
        }) by {
            let ids = index.postings@[k].ids@;
            assert forall|m: int| 0 <= m < ids.len() implies ids[m] < index.names@.len() by {
                assert(ids.contains(ids[m]));
                assert(listed(index.postings@, index.postings@[k].trigram, ids[m]));
            }
        }
        assert(index.wf());
        assert forall|t: u32, id: u32| #[trigger] index.list_of(t).contains(id) <==> (
            listed_through(a.postings@, ma@, t, id) || listed_through(b.postings@, mb@, t, id)) by {
            lemma_list_of_listed(&index, t, id);
            assert(keys@.contains(key(t, id)) <==> keys0.contains(key(t, id)));
        }
    }
    Ok(Merged { index, renumber_a: ma, renumber_b: mb })
}

} // verus!

