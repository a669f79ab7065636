//! Extraction of the distinct trigrams of a file's content, with the limits
//! that keep binary and generated files out of an index.

use crate::sorted::{distinct_sorted, sort_keys, strictly_increasing};
use vstd::prelude::*;

verus! {

/// Parts per million: the unit of `ExtractConfig::max_invalid_ppm`.
pub const PPM: u128 = 1000000;

/// Why a file's content is left out of an index.
#[derive(Clone, Copy, Debug, PartialEq, Eq, Structural)]
pub enum SkipReason {
    TooLarge,
    LineTooLong,
    TooManyTrigrams,
    InvalidEncoding,
}

/// The limits under which a file is indexed.
#[derive(Clone, Copy, Debug)]
pub struct ExtractConfig {
    /// Longest content, in bytes.
    pub max_file_len: u64,
    /// Longest line, in bytes, its terminator not counted.
    pub max_line_len: u64,
    /// Most distinct trigrams.
    pub max_trigram_count: u64,
    /// Most invalid UTF-8 byte pairs, in parts per million of the content's length.
    pub max_invalid_ppm: u64,
}

impl ExtractConfig {
    /// Generous limits: files up to 1 GiB, lines up to 2000 bytes, up to
    /// 30000 distinct trigrams, and invalid UTF-8 pairs up to a tenth of the
    /// content.
    pub fn standard() -> (r: ExtractConfig)
        ensures
            r.max_file_len == 1073741824,
            r.max_line_len == 2000,
            r.max_trigram_count == 30000,
            r.max_invalid_ppm == 100000,
    {
        ExtractConfig {
            max_file_len: 1073741824,
            max_line_len: 2000,
            max_trigram_count: 30000,
            max_invalid_ppm: 100000,
        }
    }
}

/// The trigram of three bytes, as a 24-bit integer.
pub open spec fn tri(a: u8, b: u8, c: u8) -> u32 {
    ((a as int) * 65536 + (b as int) * 256 + (c as int)) as u32
}

/// Whether byte `b` may follow byte `a` in UTF-8 text.
pub open spec fn valid_pair(a: u8, b: u8) -> bool {
    if a < 0x80 {
        b < 0x80 || (0xc0 <= b && b < 0xf8)
    } else if a < 0xc0 {
        b < 0xf8
    } else if a < 0xf8 {
        0x80 <= b && b < 0xc0
    } else {
        false
    }
}

/// The window starting at `i` holds a trigram: three bytes joined by valid pairs.
pub open spec fn counts_at(c: Seq<u8>, i: int) -> bool {
    0 <= i && i + 3 <= c.len() && valid_pair(c[i], c[i + 1]) && valid_pair(c[i + 1], c[i + 2])
}

pub open spec fn tri_at(c: Seq<u8>, i: int) -> u32 {
    tri(c[i], c[i + 1], c[i + 2])
}

/// The distinct trigrams of `c`.
pub open spec fn trigram_set(c: Seq<u8>) -> Set<u32> {
    Set::new(|t: u32| exists|i: int| #[trigger] counts_at(c, i) && tri_at(c, i) == t)
}

/// Length of the line that is open after the first `n` bytes.
pub open spec fn open_line_len(c: Seq<u8>, n: int) -> nat
    decreases n,
{
    if n <= 0 {
        0
    } else if c[n - 1] == 10u8 {
        0
    } else {
        open_line_len(c, n - 1) + 1
    }
}

/// Some line of `c` is longer than `max` bytes.
pub open spec fn has_long_line(c: Seq<u8>, max: nat) -> bool {
    exists|n: int| 0 <= n <= c.len() && #[trigger] open_line_len(c, n) > max
}

/// Number of adjacent byte pairs among the first `n` bytes that are not valid UTF-8.
pub open spec fn invalid_pairs(c: Seq<u8>, n: int) -> nat
    decreases n,
{
    if n <= 1 {
        0
    } else {
        invalid_pairs(c, n - 1) + if valid_pair(c[n - 2], c[n - 1]) { 0nat } else { 1nat }
    }
}

/// What extraction gives: the first limit that `c` breaks, else its trigrams.
pub open spec fn extraction(c: Seq<u8>, cfg: ExtractConfig) -> Result<Set<u32>, SkipReason> {
    if c.len() > cfg.max_file_len {
        Err(SkipReason::TooLarge)
    } else if has_long_line(c, cfg.max_line_len as nat) {
        Err(SkipReason::LineTooLong)
    } else if invalid_pairs(c, c.len() as int) * PPM > cfg.max_invalid_ppm * c.len() {
        Err(SkipReason::InvalidEncoding)
    } else if trigram_set(c).len() > cfg.max_trigram_count {
        Err(SkipReason::TooManyTrigrams)
    } else {
        Ok(trigram_set(c))
    }
}

/// Whether byte `b` may follow byte `a` in UTF-8 text.
pub(crate) fn pair_ok(a: u8, b: u8) -> (r: bool)
    ensures
        r == valid_pair(a, b),
{
    if a < 0x80 {
        b < 0x80 || (0xc0 <= b && b < 0xf8)
    } else if a < 0xc0 {
        b < 0xf8
    } else if a < 0xf8 {
        0x80 <= b && b < 0xc0
    } else {
        false
    }
}

/// The distinct trigrams of `content` in increasing order, or the first limit
/// of `cfg` that it breaks.
pub fn extract(content: &[u8], cfg: &ExtractConfig) -> (r: Result<Vec<u32>, SkipReason>)
    ensures
        match (r, extraction(content@, *cfg)) {
            (Ok(v), Ok(s)) => strictly_increasing(v@) && v@.to_set() == s,
            (Err(e), Err(f)) => e == f,
            _ => false,
        },
{
    let c = Ghost(content@);
    let n = content.len();
    if n as u64 > cfg.max_file_len {
        return Err(SkipReason::TooLarge);
    }
    let mut line: u64 = 0;
    let mut invalid: u64 = 0;
    let mut all: Vec<u64> = Vec::new();
    let mut i: usize = 0;
    while i < n
        invariant
            n == c@.len(),
            c@ == content@,
            n <= cfg.max_file_len,
            i <= n,
            line == open_line_len(c@, i as int),
            forall|m: int| 0 <= m <= i ==> #[trigger] open_line_len(c@, m) <= cfg.max_line_len,
            invalid == invalid_pairs(c@, i as int),
            invalid <= i,
            line <= i,
            forall|k: int| 0 <= k < all@.len() ==> all@[k] < 0x1000000,
            forall|t: u32|
                #[trigger] all@.contains(t as u64) <==> exists|j: int|
                    #[trigger] counts_at(c@, j) && j + 3 <= i && tri_at(c@, j) == t,
        decreases n - i,
    {
        let b = content[i];
        if b == 10u8 {
            line = 0;
        } else {
            line = line + 1;
        }
        assert(line == open_line_len(c@, i + 1));
        if line > cfg.max_line_len {
            return Err(SkipReason::LineTooLong);
        }
        if i >= 1 && !pair_ok(content[i - 1], b) {
            invalid = invalid + 1;
        }
        let ghost all0 = all@;
        if i >= 2 && pair_ok(content[i - 2], content[i - 1]) && pair_ok(content[i - 1], b) {
            let t: u32 = (content[i - 2] as u32) * 65536 + (content[i - 1] as u32) * 256 + (b as u32);
            all.push(t as u64);
            proof {
                assert(counts_at(c@, i - 2));
            }
        }
        proof {
            assert forall|t: u32|
                #[trigger] all@.contains(t as u64) <==> exists|j: int|
                    #[trigger] counts_at(c@, j) && j + 3 <= i + 1 && tri_at(c@, j) == t by {
                if all@.contains(t as u64) {
                    let k = choose|k: int| 0 <= k < all@.len() && all@[k] == t as u64;
                    if k < all0.len() {
                        assert(all0[k] == t as u64);
                        assert(all0.contains(t as u64));
                    } else {
                        assert(counts_at(c@, i - 2) && tri_at(c@, i - 2) == t);
                    }
                }
                if exists|j: int| #[trigger] counts_at(c@, j) && j + 3 <= i + 1 && tri_at(c@, j) == t {
                    let j = choose|j: int| #[trigger] counts_at(c@, j) && j + 3 <= i + 1 && tri_at(c@, j) == t;
                    if j + 3 <= i {
                        assert(all0.contains(t as u64));
                        let k = choose|k: int| 0 <= k < all0.len() && all0[k] == t as u64;
                        assert(all@[k] == t as u64);
                    } else {
                        assert(j == i - 2);
                        assert(all@[all@.len() - 1] == t as u64);
                    }
                }
            }
        }
        i = i + 1;
    }
    assert(!has_long_line(c@, cfg.max_line_len as nat));
    let inv_scaled: u128 = (invalid as u128) * PPM;
    assert((cfg.max_invalid_ppm as u128) * (n as u128) <= u64::MAX as u128 * u64::MAX as u128)
        by (nonlinear_arith)
        requires
            cfg.max_invalid_ppm <= u64::MAX,
            n as u128 <= u64::MAX as u128,
    ;
    if inv_scaled > (cfg.max_invalid_ppm as u128) * (n as u128) {
        return Err(SkipReason::InvalidEncoding);
    }
    let ghost before = all@;
    sort_keys(&mut all);
    proof {
        broadcast use vstd::seq_lib::group_to_multiset_ensures;
        assert forall|k: int| 0 <= k < all@.len() implies all@[k] <= u32::MAX by {
            assert(all@.contains(all@[k]));
            assert(before.to_multiset().count(all@[k]) > 0);
            assert(before.contains(all@[k]));
        }
        assert forall|t: u32| #[trigger] all@.contains(t as u64) <==> before.contains(t as u64) by {
            if all@.contains(t as u64) {
                assert(all@.to_multiset().count(t as u64) > 0);
            }
            if before.contains(t as u64) {
                assert(before.to_multiset().count(t as u64) > 0);
            }
        }
    }
    let v = distinct_sorted(&all);
    proof {
        broadcast use vstd::seq_lib::group_to_multiset_ensures;
        assert forall|t: u32| v@.to_set().contains(t) <==> trigram_set(c@).contains(t) by {
            if v@.to_set().contains(t) {
                assert(v@.contains(t));
            }
        }
        assert(v@.to_set() =~= trigram_set(c@));
        v@.unique_seq_to_set();
    }
    if v.len() as u64 > cfg.max_trigram_count {
        return Err(SkipReason::TooManyTrigrams);
    }
    Ok(v)
}

} // verus!
