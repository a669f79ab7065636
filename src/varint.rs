//! Unsigned integers in a variable number of bytes: seven bits of the value
//! in each byte, lowest first, the high bit set on every byte but the last.

use vstd::prelude::*;

verus! {

/// The encoding of `x`.
pub open spec fn varint(x: nat) -> Seq<u8>
    decreases x,
{
    if x < 128 {
        seq![x as u8]
    } else {
        seq![(x % 128 + 128) as u8] + varint(x / 128)
    }
}

/// The value that a run of bytes encodes, the run ending at its first byte
/// below 128: the value and the run's length, or nothing where no byte ends it.
pub open spec fn read_varint(s: Seq<u8>) -> Option<(nat, nat)>
    decreases s.len(),
{
    if s.len() == 0 {
        None
    } else if s[0] < 128 {
        Some((s[0] as nat, 1))
    } else {
        match read_varint(s.drop_first()) {
            Some((v, n)) => Some(((s[0] - 128) as nat + 128 * v, n + 1)),
            None => None,
        }
    }
}

/// Reading the encoding of `x`, whatever follows it, gives back `x`.
pub proof fn law_varint_round_trip(x: nat, rest: Seq<u8>)
    ensures
        read_varint(varint(x) + rest) == Some((x, varint(x).len())),
    decreases x,
{
    if x >= 128 {
        law_varint_round_trip(x / 128, rest);
        let s = varint(x) + rest;
        assert(s.drop_first() =~= varint(x / 128) + rest);
    } else {
        assert((varint(x) + rest)[0] == x as u8);
    }
}

/// Appends the encoding of `x` to `out`.
pub fn put_varint(out: &mut Vec<u8>, x: u64)
    ensures
        final(out)@ == old(out)@ + varint(x as nat),
{
    let mut v: u64 = x;
    let ghost start = out@;
    while v >= 128
        invariant
            start + varint(x as nat) == out@ + varint(v as nat),
        decreases v,
    {
        let ghost before = out@;
        out.push((v % 128 + 128) as u8);
        proof {
            assert(varint(v as nat) == seq![(v % 128 + 128) as u8] + varint((v / 128) as nat));
            assert(out@ + varint((v / 128) as nat) =~= before + varint(v as nat));
        }
        v = v / 128;
    }
    let ghost before = out@;
    out.push(v as u8);
    assert(out@ =~= before + varint(v as nat));
}

/// The run of `s` from `pos` on when it holds a whole encoding.
pub open spec fn from(s: Seq<u8>, pos: int) -> Seq<u8> {
    s.subrange(pos, s.len() as int)
}

/// Reads the value encoded at `pos`: the value and the position after it, or
/// nothing where no byte ends the run or the value exceeds `u64`.
pub fn get_varint(buf: &[u8], pos: usize) -> (r: Option<(u64, usize)>)
    requires
        pos <= buf@.len(),
    ensures
        match (r, read_varint(from(buf@, pos as int))) {
            (Some((v, end)), Some((w, n))) => v == w && end == pos + n,
            (None, Some((w, n))) => w > u64::MAX,
            (None, None) => true,
            (Some(_), None) => false,
        },
{
    let mut end: usize = pos;
    while end < buf.len() && buf[end] >= 128
        invariant
            pos <= end <= buf@.len(),
            forall|k: int| pos <= k < end ==> buf@[k] >= 128,
        decreases buf@.len() - end,
    {
        end += 1;
    }
    proof {
        lemma_read_run(buf@, pos as int, end as int);
    }
    if end == buf.len() {
        return None;
    }
    let mut acc: u64 = buf[end] as u64;
    let mut k: usize = end;
    while k > pos
        invariant
            pos <= k <= end < buf@.len(),
            forall|m: int| pos <= m < end ==> buf@[m] >= 128,
            buf@[end as int] < 128,
            read_varint(from(buf@, k as int)) == Some((acc as nat, (end - k + 1) as nat)),
        decreases k,
    {
        let b = buf[k - 1];
        let low = (b - 128) as u64;
        proof {
            assert(from(buf@, k - 1).drop_first() =~= from(buf@, k as int));
        }
        if acc > (u64::MAX - low) / 128 {
            proof {
                lemma_read_grows(buf@, pos as int, k - 1);
            }
            return None;
        }
        acc = low + 128 * acc;
        k -= 1;
    }
    Some((acc, end + 1))
}

/// A run of continuation bytes from `pos` to `end` reads as the run from
/// `end` does, where one stands; nothing where `end` is the end.
proof fn lemma_read_run(s: Seq<u8>, pos: int, end: int)
    requires
        0 <= pos <= end <= s.len(),
        forall|k: int| pos <= k < end ==> s[k] >= 128,
        end < s.len() ==> s[end] < 128,
    ensures
        end == s.len() ==> read_varint(from(s, pos)) is None,
    decreases end - pos,
{
    if pos < end {
        assert(from(s, pos).drop_first() =~= from(s, pos + 1));
        lemma_read_run(s, pos + 1, end);
    }
}

/// Where the value read from `k + 1` overflows after one more byte, the value
/// read from `pos` does too.
proof fn lemma_read_grows(s: Seq<u8>, pos: int, k: int)
    requires
        0 <= pos <= k < s.len(),
        forall|m: int| pos <= m <= k ==> s[m] >= 128,
        read_varint(from(s, k + 1)) is Some,
        (s[k] - 128) as nat + 128 * read_varint(from(s, k + 1))->Some_0.0 > u64::MAX,
    ensures
        read_varint(from(s, pos)) is Some ==> read_varint(from(s, pos))->Some_0.0 > u64::MAX,
    decreases k - pos,
{
    assert(from(s, k).drop_first() =~= from(s, k + 1));
    if pos < k {
        lemma_read_grows_step(s, pos, k);
    }
}

proof fn lemma_read_grows_step(s: Seq<u8>, pos: int, k: int)
    requires
        0 <= pos < k < s.len(),
        forall|m: int| pos <= m <= k ==> s[m] >= 128,
        read_varint(from(s, k)) is Some,
        read_varint(from(s, k))->Some_0.0 > u64::MAX,
    ensures
        read_varint(from(s, pos)) is Some ==> read_varint(from(s, pos))->Some_0.0 > u64::MAX,
    decreases k - pos,
{
    assert(from(s, k - 1).drop_first() =~= from(s, k));
    if pos < k - 1 {
        lemma_read_grows_step(s, pos, k - 1);
    }
}

/// A read whose last byte is not a superfluous zero covers exactly the
/// encoding of its value.
proof fn lemma_read_canonical(s: Seq<u8>)
    requires
        read_varint(s) is Some,
        1 <= read_varint(s)->Some_0.1 <= s.len(),
        read_varint(s)->Some_0.1 == 1 || s[read_varint(s)->Some_0.1 - 1] != 0,
    ensures
        s.subrange(0, read_varint(s)->Some_0.1 as int) == varint(read_varint(s)->Some_0.0),
        read_varint(s)->Some_0.1 > 1 ==> read_varint(s)->Some_0.0 >= 128,
    decreases s.len(),
{
    let (v, n) = read_varint(s)->Some_0;
    if s[0] < 128 {
        assert(s.subrange(0, 1) =~= seq![s[0]]);
    } else {
        let t = s.drop_first();
        let (w, m) = read_varint(t)->Some_0;
        lemma_read_len(t);
        assert(n == m + 1);
        assert(t[m - 1] == s[n - 1]);
        lemma_read_canonical(t);
        if t[0] >= 128 {
            lemma_read_len(t.drop_first());
        }
        if m == 1 {
            assert(w == t[0]);
            assert(w >= 1);
        }
        assert(v == (s[0] - 128) as nat + 128 * w);
        assert(v % 128 == (s[0] - 128) as nat && v / 128 == w) by (nonlinear_arith)
            requires
                v == (s[0] - 128) as nat + 128 * w,
                0 <= s[0] - 128 < 128,
        ;
        assert(s.subrange(0, n as int) =~= seq![s[0]] + t.subrange(0, m as int));
    }
}

/// Reads the value encoded at `pos` in its shortest form: the value and the
/// position after it.
pub fn get_canonical(buf: &[u8], pos: usize) -> (r: Option<(u64, usize)>)
    requires
        pos <= buf@.len(),
    ensures
        r matches Some((v, end)) ==> pos < end <= buf@.len() && buf@.subrange(pos as int, end as int) == varint(v as nat),
        (read_varint(from(buf@, pos as int)) matches Some((w, n)) && w <= u64::MAX && (n == 1 || buf@[pos + n - 1] != 0))
            ==> r == Some((read_varint(from(buf@, pos as int))->Some_0.0 as u64, (pos + read_varint(from(buf@, pos as int))->Some_0.1) as usize)),
{
    match get_varint(buf, pos) {
        Some((v, end)) => {
            proof {
                lemma_read_len(from(buf@, pos as int));
            }
            if end - pos > 1 && buf[end - 1] == 0 {
                None
            } else {
                proof {
                    let s = from(buf@, pos as int);
                    assert(s[(end - pos) - 1] == buf@[end - 1]);
                    lemma_read_len(s);
                    lemma_read_canonical(s);
                    assert(s.subrange(0, (end - pos) as int) =~= buf@.subrange(pos as int, end as int));
                    lemma_read_len(s);
                }
                Some((v, end))
            }
        },
        None => None,
    }
}

proof fn lemma_read_len(s: Seq<u8>)
    requires
        read_varint(s) is Some,
    ensures
        1 <= read_varint(s)->Some_0.1 <= s.len(),
    decreases s.len(),
{
    if s[0] >= 128 {
        lemma_read_len(s.drop_first());
    }
}

/// `buf` holds `x` at `pos`.
pub open spec fn holds_at(buf: Seq<u8>, pos: int, x: Seq<u8>) -> bool {
    0 <= pos && pos + x.len() <= buf.len() && buf.subrange(pos, pos + x.len()) == x
}

/// An encoding is never empty, and its last byte is zero only when it is
/// the encoding of zero.
pub proof fn lemma_varint_shape(x: nat)
    ensures
        varint(x).len() >= 1,
        varint(x).len() > 1 ==> varint(x).last() != 0,
        varint(x).last() < 128,
    decreases x,
{
    if x >= 128 {
        lemma_varint_shape(x / 128);
        let r = varint(x / 128);
        assert(varint(x).last() == r.last());
        if r.len() == 1 {
            assert(r[0] == (x / 128) as u8);
        }
    }
}

/// Reads `x` where `buf` holds its encoding at `pos`.
pub fn get_value(buf: &[u8], pos: usize) -> (r: Option<(u64, usize)>)
    requires
        pos <= buf@.len(),
    ensures
        r matches Some((v, end)) ==> pos < end <= buf@.len() && buf@.subrange(pos as int, end as int) == varint(v as nat),
        forall|x: nat| #[trigger] holds_at(buf@, pos as int, varint(x)) && x <= u64::MAX
            ==> r == Some((x as u64, (pos + varint(x).len()) as usize)),
{
    let r = get_canonical(buf, pos);
    proof {
        assert forall|x: nat| #[trigger] holds_at(buf@, pos as int, varint(x)) && x <= u64::MAX
            implies r == Some((x as u64, (pos + varint(x).len()) as usize)) by {
            let n = varint(x).len();
            let rest = from(buf@, pos + n);
            assert(from(buf@, pos as int) =~= varint(x) + rest);
            law_varint_round_trip(x, rest);
            lemma_varint_shape(x);
            assert(buf@[pos + n - 1] == varint(x)[n - 1]);
        }
    }
    r
}

} // verus!
