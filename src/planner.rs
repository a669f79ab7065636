//! Regular expressions over bytes and the trigram query that every file
//! holding a match must meet.

use crate::index::copy_vec;
use crate::query::{satisfies, Query};
use crate::trigram::{counts_at, pair_ok, tri_at, trigram_set};
use vstd::prelude::*;

verus! {

/// A regular expression over bytes.
pub enum Regex {
    /// The empty string (also what an anchor matches).
    Empty,
    /// Exactly these bytes.
    Literal(Vec<u8>),
    /// One byte out of these.
    Class(Vec<u8>),
    /// Any string at all (what a construct without a byte-level form stands for).
    Any,
    Concat(Box<Regex>, Box<Regex>),
    Alternate(Box<Regex>, Box<Regex>),
    /// Any number of repetitions, none included.
    Star(Box<Regex>),
}

/// `r` matches the whole of `s`.
pub open spec fn full_match(r: Regex, s: Seq<u8>) -> bool
    decreases r, s.len(), s.len() + 2,
{
    match r {
        Regex::Empty => s.len() == 0,
        Regex::Literal(l) => s == l@,
        Regex::Class(c) => s.len() == 1 && c@.contains(s[0]),
        Regex::Any => true,
        Regex::Concat(_, _) => split_match(r, s, 0),
        Regex::Alternate(a, b) => full_match(*a, s) || full_match(*b, s),
        Regex::Star(_) => s.len() == 0 || split_match(r, s, 1),
    }
}

/// Some cut of `s` at `k` or later splits it as the concatenation `r` asks
/// for; for a repetition `r`, the first piece is one round and the rest
/// matches `r` again.
pub open spec fn split_match(r: Regex, s: Seq<u8>, k: int) -> bool
    decreases r, s.len(), s.len() + 1 - k,
{
    if 0 <= k <= s.len() {
        let here = match r {
            Regex::Concat(a, b) => full_match(*a, s.subrange(0, k)) && full_match(*b, s.subrange(k, s.len() as int)),
            Regex::Star(a) => k > 0 && full_match(*a, s.subrange(0, k)) && full_match(r, s.subrange(k, s.len() as int)),
            _ => false,
        };
        here || split_match(r, s, k + 1)
    } else {
        false
    }
}

/// A cut that `split_match` promises.
proof fn lemma_split_witness(r: Regex, s: Seq<u8>, k: int) -> (w: int)
    requires
        r is Concat,
        split_match(r, s, k),
    ensures
        k <= w <= s.len(),
        full_match(*r->Concat_0, s.subrange(0, w)),
        full_match(*r->Concat_1, s.subrange(w, s.len() as int)),
    decreases s.len() + 1 - k,
{
    if full_match(*r->Concat_0, s.subrange(0, k)) && full_match(*r->Concat_1, s.subrange(k, s.len() as int)) {
        k
    } else {
        lemma_split_witness(r, s, k + 1)
    }
}

/// The conjunction of the trigrams of the first `n` windows of `l`, left to
/// right; windows that hold no trigram add nothing.
pub open spec fn literal_query(l: Seq<u8>, n: int) -> Query
    decreases n,
{
    if n <= 0 {
        Query::All
    } else if counts_at(l, n - 1) {
        Query::And(Box::new(literal_query(l, n - 1)), Box::new(Query::Tri(tri_at(l, n - 1))))
    } else {
        literal_query(l, n - 1)
    }
}

/// The query planned for `r`.
pub open spec fn planned(r: Regex) -> Query
    decreases r,
{
    match r {
        Regex::Literal(l) => literal_query(l@, l@.len() - 2),
        Regex::Concat(a, b) => match (exact(*a), exact(*b)) {
            (Some(x), Some(y)) => literal_query(x + y, x.len() + y.len() - 2),
            _ => Query::And(Box::new(planned(*a)), Box::new(planned(*b))),
        },
        Regex::Alternate(a, b) => Query::Or(Box::new(planned(*a)), Box::new(planned(*b))),
        _ => Query::All,
    }
}

/// Every string that `r` matches has trigrams that meet `q`.
pub open spec fn sound_for(q: Query, r: Regex) -> bool {
    forall|s: Seq<u8>| #[trigger] full_match(r, s) ==> satisfies(q, trigram_set(s))
}

/// A query met by a set is met by every larger set.
pub proof fn lemma_satisfies_grows(q: Query, s: Set<u32>, u: Set<u32>)
    requires
        satisfies(q, s),
        s.subset_of(u),
    ensures
        satisfies(q, u),
    decreases q,
{
    match q {
        Query::And(a, b) => {
            lemma_satisfies_grows(*a, s, u);
            lemma_satisfies_grows(*b, s, u);
        },
        Query::Or(a, b) => {
            if satisfies(*a, s) {
                lemma_satisfies_grows(*a, s, u);
            } else {
                lemma_satisfies_grows(*b, s, u);
            }
        },
        _ => {},
    }
}

/// The trigrams of a piece of `c` are trigrams of `c`.
pub proof fn lemma_trigrams_of_piece(c: Seq<u8>, i: int, j: int)
    requires
        0 <= i <= j <= c.len(),
    ensures
        trigram_set(c.subrange(i, j)).subset_of(trigram_set(c)),
{
    let p = c.subrange(i, j);
    assert forall|t: u32| trigram_set(p).contains(t) implies trigram_set(c).contains(t) by {
        let w = choose|w: int| #[trigger] counts_at(p, w) && tri_at(p, w) == t;
        assert(counts_at(c, i + w));
        assert(tri_at(c, i + w) == t);
    }
}

/// The query for a literal: the conjunction of its trigrams.
fn literal_plan(l: &Vec<u8>) -> (q: Query)
    ensures
        q == literal_query(l@, l@.len() - 2),
        satisfies(q, trigram_set(l@)),
{
            let mut q = Query::All;
            let mut i: usize = 0;
            while l.len() >= 3 && i <= l.len() - 3
                invariant
                    i <= l@.len(),
                    l@.len() >= 3 ==> i <= l@.len() - 2,
                    l@.len() < 3 ==> i == 0,
                    q == literal_query(l@, i as int),
                    satisfies(q, trigram_set(l@)),
                decreases l@.len() - i,
            {
                if pair_ok(l[i], l[i + 1]) && pair_ok(l[i + 1], l[i + 2]) {
                    let t: u32 = (l[i] as u32) * 65536 + (l[i + 1] as u32) * 256 + (l[i + 2] as u32);
                    proof {
                        assert(counts_at(l@, i as int));
                        assert(tri_at(l@, i as int) == t);
                        assert(trigram_set(l@).contains(t));
                    }
                    let ghost q0 = q;
                    q = Query::And(Box::new(q), Box::new(Query::Tri(t)));
                    assert(satisfies(Query::Tri(t), trigram_set(l@)));
                    assert(satisfies(q, trigram_set(l@)));
                }
                i += 1;
            }
    proof {
        if l@.len() < 3 {
            assert(literal_query(l@, l@.len() - 2) == Query::All);
        }
    }
    q
}

/// The one string that `r` matches, where it is a concatenation of
/// literals and empty strings.
pub open spec fn exact(r: Regex) -> Option<Seq<u8>>
    decreases r,
{
    match r {
        Regex::Empty => Some(Seq::empty()),
        Regex::Literal(l) => Some(l@),
        Regex::Concat(a, b) => match (exact(*a), exact(*b)) {
            (Some(x), Some(y)) => Some(x + y),
            _ => None,
        },
        _ => None,
    }
}

/// A regular expression with one string matches that string only.
pub proof fn lemma_exact_match(r: Regex, s: Seq<u8>)
    requires
        exact(r) is Some,
        full_match(r, s),
    ensures
        s == exact(r)->Some_0,
    decreases r,
{
    match r {
        Regex::Concat(a, b) => {
            let k = lemma_split_witness(r, s, 0);
            lemma_exact_match(*a, s.subrange(0, k));
            lemma_exact_match(*b, s.subrange(k, s.len() as int));
            assert(s =~= s.subrange(0, k) + s.subrange(k, s.len() as int));
        },
        Regex::Empty => {
            assert(s =~= Seq::<u8>::empty());
        },
        _ => {},
    }
}

/// The one string that `r` matches, where `exact` gives one.
fn exact_bytes(r: &Regex) -> (e: Option<Vec<u8>>)
    ensures
        match (e, exact(*r)) {
            (Some(v), Some(x)) => v@ == x,
            (None, None) => true,
            _ => false,
        },
    decreases r,
{
    match r {
        Regex::Empty => Some(Vec::new()),
        Regex::Literal(l) => Some(copy_vec(l)),
        Regex::Concat(a, b) => match (exact_bytes(a), exact_bytes(b)) {
            (Some(x), Some(y)) => {
                let mut whole = x;
                let mut tail = y;
                whole.append(&mut tail);
                Some(whole)
            },
            _ => None,
        },
        _ => None,
    }
}

/// A query that every file holding a match of `r` meets. Literals give their
/// trigrams; a concatenation of parts that each match one string is the
/// literal of both, so its trigrams across the cut count too; another
/// concatenation needs both parts, an alternation either branch,
/// and what can match a string shorter than a trigram (a repetition among
/// them) gives no condition.
pub fn plan(r: &Regex) -> (q: Query)
    ensures
        q == planned(*r),
        sound_for(q, *r),
    decreases r,
{
    match r {
        Regex::Literal(l) => {
            let q = literal_plan(l);
            proof {
                assert forall|s: Seq<u8>| #[trigger] full_match(*r, s) implies satisfies(q, trigram_set(s)) by {
                    assert(s == l@);
                }
            }
            q
        },
        Regex::Concat(a, b) => {
            match (exact_bytes(a), exact_bytes(b)) {
                (Some(x), Some(y)) => {
                    let mut whole = x;
                    let mut tail = y;
                    whole.append(&mut tail);
                    let q = literal_plan(&whole);
                    proof {
                        assert forall|s: Seq<u8>| #[trigger] full_match(*r, s) implies satisfies(q, trigram_set(s)) by {
                            lemma_exact_match(*r, s);
                        }
                    }
                    return q;
                },
                _ => {},
            }
            let qa = plan(a);
            let qb = plan(b);
            let q = Query::And(Box::new(qa), Box::new(qb));
            proof {
                assert forall|s: Seq<u8>| #[trigger] full_match(*r, s) implies satisfies(q, trigram_set(s)) by {
                    let k = lemma_split_witness(*r, s, 0);
                    lemma_trigrams_of_piece(s, 0, k);
                    lemma_trigrams_of_piece(s, k, s.len() as int);
                    lemma_satisfies_grows(qa, trigram_set(s.subrange(0, k)), trigram_set(s));
                    lemma_satisfies_grows(qb, trigram_set(s.subrange(k, s.len() as int)), trigram_set(s));
                }
            }
            q
        },
        Regex::Alternate(a, b) => {
            let qa = plan(a);
            let qb = plan(b);
            let q = Query::Or(Box::new(qa), Box::new(qb));
            proof {
                assert forall|s: Seq<u8>| #[trigger] full_match(*r, s) implies satisfies(q, trigram_set(s)) by {
                    if full_match(**a, s) {
                        assert(satisfies(qa, trigram_set(s)));
                    } else {
                        assert(full_match(**b, s));
                    }
                }
            }
            q
        },
        _ => Query::All,
    }
}

} // verus!
