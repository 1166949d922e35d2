//! Little-endian bytes.

use vstd::prelude::*;

verus! {

/// The `k` least significant bytes of a number, least significant first.
pub open spec fn le(x: nat, k: nat) -> Seq<u8>
    decreases k,
{
    if k == 0 {
        Seq::empty()
    } else {
        seq![(x % 256) as u8] + le(x / 256, (k - 1) as nat)
    }
}

/// The number that bytes spell, least significant first.
pub open spec fn le_value(s: Seq<u8>) -> nat
    decreases s.len(),
{
    if s.len() == 0 {
        0
    } else {
        s[0] as nat + 256 * le_value(s.drop_first())
    }
}

/// One more than the greatest number that `k` bytes spell.
pub open spec fn le_limit(k: nat) -> nat
    decreases k,
{
    if k == 0 {
        1
    } else {
        256 * le_limit((k - 1) as nat)
    }
}

pub proof fn lemma_le_len(x: nat, k: nat)
    ensures
        le(x, k).len() == k,
    decreases k,
{
    if k > 0 {
        lemma_le_len(x / 256, (k - 1) as nat);
    }
}

/// A number that fits its bytes is read back from them.
pub proof fn law_le_reads_back(x: nat, k: nat)
    requires
        x < le_limit(k),
    ensures
        le(x, k).len() == k,
        le_value(le(x, k)) == x,
    decreases k,
{
    lemma_le_len(x, k);
    if k > 0 {
        law_le_reads_back(x / 256, (k - 1) as nat);
        assert(le(x, k).drop_first() =~= le(x / 256, (k - 1) as nat));
    }
}

/// The bytes of the first `n` numbers of a list, `k` bytes each.
pub open spec fn le_all(v: Seq<nat>, k: nat, n: int) -> Seq<u8>
    decreases n,
{
    if n <= 0 {
        Seq::empty()
    } else {
        le_all(v, k, n - 1) + le(v[n - 1], k)
    }
}

pub proof fn lemma_le_all_len(v: Seq<nat>, k: nat, n: int)
    requires
        0 <= n,
    ensures
        le_all(v, k, n).len() == n * k,
    decreases n,
{
    if n > 0 {
        lemma_le_all_len(v, k, n - 1);
        lemma_le_len(v[n - 1], k);
        assert(n * k == (n - 1) * k + k) by (nonlinear_arith);
    } else {
        assert(0 * k == 0) by (nonlinear_arith);
    }
}

/// Number `i` of a list stands at byte `i * k` of the list's bytes.
pub proof fn lemma_le_all_at(v: Seq<nat>, k: nat, n: int, i: int)
    requires
        0 <= i < n,
    ensures
        i * k + k <= le_all(v, k, n).len(),
        0 <= i * k,
        le_all(v, k, n).subrange(i * k, i * k + k) == le(v[i], k),
    decreases n,
{
    lemma_le_all_len(v, k, n);
    lemma_le_all_len(v, k, n - 1);
    lemma_le_len(v[n - 1], k);
    assert(0 <= i * k && i * k + k <= n * k && n * k == (n - 1) * k + k) by (nonlinear_arith)
        requires
            0 <= i < n,
    ;
    if i < n - 1 {
        lemma_le_all_at(v, k, n - 1, i);
        assert(le_all(v, k, n).subrange(i * k, i * k + k) =~= le_all(v, k, n - 1).subrange(
            i * k,
            i * k + k,
        ));
    } else {
        assert(le_all(v, k, n).subrange(i * k, i * k + k) =~= le(v[i], k));
    }
}

/// An array as stored: its size in bytes in eight bytes, then its numbers.
pub open spec fn block(v: Seq<nat>, k: nat) -> Seq<u8> {
    le(v.len() * k, 8) + le_all(v, k, v.len() as int)
}

pub proof fn lemma_block_len(v: Seq<nat>, k: nat)
    ensures
        block(v, k).len() == 8 + v.len() * k,
{
    lemma_le_len(v.len() * k, 8);
    lemma_le_all_len(v, k, v.len() as int);
}

/// An array stored at an offset reads back: its first eight bytes give its size
/// in bytes, and the bytes of each entry give the entry.
pub proof fn law_block_reads_back(data: Seq<u8>, at: int, v: Seq<nat>, k: nat, i: int)
    requires
        0 <= at,
        at + block(v, k).len() <= data.len(),
        data.subrange(at, at + block(v, k).len()) == block(v, k),
        v.len() * k < le_limit(8),
        0 <= i < v.len(),
        v[i] < le_limit(k),
    ensures
        le_value(data.subrange(at, at + 8)) == v.len() * k,
        le_value(data.subrange(at + 8 + i * k, at + 8 + i * k + k)) == v[i],
{
    let b = block(v, k);
    lemma_block_len(v, k);
    lemma_le_len(v.len() * k, 8);
    law_le_reads_back(v.len() * k, 8);
    assert forall|j: int| 0 <= j < b.len() implies data[at + j] == #[trigger] b[j] by {
        assert(data.subrange(at, at + b.len())[j] == data[at + j]);
    }
    assert(data.subrange(at, at + 8) =~= le(v.len() * k, 8));
    lemma_le_all_at(v, k, v.len() as int, i);
    law_le_reads_back(v[i], k);
    let all = le_all(v, k, v.len() as int);
    assert(data.subrange(at + 8 + i * k, at + 8 + i * k + k) =~= all.subrange(
        i * k,
        i * k + k,
    )) by {
        assert forall|j: int| 0 <= j < k implies data.subrange(
            at + 8 + i * k,
            at + 8 + i * k + k,
        )[j] == #[trigger] all.subrange(i * k, i * k + k)[j] by {
            assert(data[at + (8 + i * k + j)] == b[8 + i * k + j]);
        }
    }
}

/// Appends the `k` least significant bytes of a number.
pub fn push_le(buf: &mut Vec<u8>, x: u64, k: usize)
    ensures
        final(buf)@ == old(buf)@ + le(x as nat, k as nat),
{
    let ghost start = buf@;
    let mut rest: u64 = x;
    let mut left: usize = k;
    assert(start + le(x as nat, k as nat) =~= buf@ + le(rest as nat, left as nat));
    while left > 0
        invariant
            start + le(x as nat, k as nat) == buf@ + le(rest as nat, left as nat),
        decreases left,
    {
        let ghost was = buf@;
        let byte: u8 = (rest % 256) as u8;
        buf.push(byte);
        assert(was + le(rest as nat, left as nat) =~= buf@ + le(
            (rest / 256) as nat,
            (left - 1) as nat,
        ));
        rest = rest / 256;
        left -= 1;
    }
    assert(buf@ + le(rest as nat, 0) =~= buf@);
}

/// The word of the same bits as a signed number of `bits` two's complement
/// bits below `limit`.
pub open spec fn word(v: int, limit: int) -> nat {
    (if v < 0 {
        v + limit
    } else {
        v
    }) as nat
}

/// The signed number of 64 bits with the bits of an index.
pub open spec fn signed64(n: int) -> int {
    if n < 0x8000_0000_0000_0000 {
        n
    } else {
        n - 0x1_0000_0000_0000_0000
    }
}

/// The signed number of 32 bits with the low bits of an index.
pub open spec fn signed32(n: int) -> int {
    let r = n % 0x1_0000_0000;
    if r < 0x8000_0000 {
        r
    } else {
        r - 0x1_0000_0000
    }
}

pub fn to_signed64(n: usize) -> (r: i64)
    ensures
        r == signed64(n as int),
{
    if n as u64 <= 0x7fff_ffff_ffff_ffff {
        n as i64
    } else {
        (n as i128 - 0x1_0000_0000_0000_0000) as i64
    }
}

pub fn to_signed32(n: usize) -> (r: i32)
    ensures
        r == signed32(n as int),
{
    let low: u64 = n as u64 % 0x1_0000_0000;
    if low < 0x8000_0000 {
        low as i32
    } else {
        (low as i64 - 0x1_0000_0000) as i32
    }
}

/// The word of a signed number differs from it by nothing or by the whole range,
/// and stands within the range.
pub proof fn law_words_are_twos_complement(v: int, limit: int)
    requires
        limit > 0,
        -limit <= 2 * v < limit,
    ensures
        0 <= word(v, limit) < limit,
        word(v, limit) == v || word(v, limit) == v + limit,
        v >= 0 ==> word(v, limit) == v,
{
}

/// The signed numbers of an index have its low bits, and stand within their
/// ranges; indices that fit stay as they are.
pub proof fn law_signed_indices_keep_their_bits(n: int)
    requires
        0 <= n < 0x1_0000_0000_0000_0000,
    ensures
        -0x8000_0000_0000_0000 <= signed64(n) < 0x8000_0000_0000_0000,
        signed64(n) == n || signed64(n) == n - 0x1_0000_0000_0000_0000,
        -0x8000_0000 <= signed32(n) < 0x8000_0000,
        (signed32(n) - n) % 0x1_0000_0000 == 0,
        n < 0x8000_0000 ==> signed32(n) == n,
{
}

} // verus!
