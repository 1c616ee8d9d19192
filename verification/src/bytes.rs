//! Little-endian integers, fixed fields and zero padding over bytes.
use vstd::prelude::*;

verus! {

/// The little-endian 16-bit number at `off`.
pub open spec fn le16_at(s: Seq<u8>, off: int) -> int {
    s[off] + 0x100 * s[off + 1]
}

/// The little-endian 32-bit number at `off`.
pub open spec fn le32_at(s: Seq<u8>, off: int) -> int {
    s[off] + 0x100 * s[off + 1] + 0x1_0000 * s[off + 2] + 0x100_0000 * s[off + 3]
}

/// The little-endian 64-bit number at `off`.
pub open spec fn le64_at(s: Seq<u8>, off: int) -> int {
    le32_at(s, off) + 0x1_0000_0000 * le32_at(s, off + 4)
}

/// The four little-endian bytes of `x`.
pub open spec fn le32_bytes(x: int) -> Seq<u8> {
    seq![
        (x % 0x100) as u8,
        (x / 0x100 % 0x100) as u8,
        (x / 0x1_0000 % 0x100) as u8,
        (x / 0x100_0000 % 0x100) as u8,
    ]
}

/// `n` zero bytes.
pub open spec fn zeros(n: nat) -> Seq<u8> {
    Seq::new(n, |i: int| 0u8)
}

/// Reading four bytes back gives the number that was written.
pub proof fn law_le32_read_back(x: u32)
    ensures
        le32_bytes(x as int).len() == 4,
        le32_at(le32_bytes(x as int), 0) == x,
{
}

/// Where the four bytes of a number stand, the number is read.
pub proof fn lemma_le32_field(s: Seq<u8>, off: int, x: u32)
    requires
        0 <= off <= s.len() - 4,
        s.subrange(off, off + 4) == le32_bytes(x as int),
    ensures
        le32_at(s, off) == x,
{
    let f = s.subrange(off, off + 4);
    assert(f[0] == s[off] && f[1] == s[off + 1] && f[2] == s[off + 2] && f[3] == s[off + 3]);
    law_le32_read_back(x);
}

/// The 16-bit number of two bytes, the low one first.
pub fn u16_le(lo: u8, hi: u8) -> (r: u16)
    ensures
        r == lo + 0x100 * hi,
{
    lo as u16 + 0x100 * (hi as u16)
}

/// The little-endian 32-bit number at `off`, where four bytes stand there.
pub fn u32_at(data: &[u8], off: usize) -> (r: Option<u32>)
    ensures
        off + 4 <= data@.len() ==> r == Some(le32_at(data@, off as int) as u32),
        off + 4 > data@.len() ==> r is None,
{
    if data.len() < 4 || off > data.len() - 4 {
        return None;
    }
    Some(
        data[off] as u32 + 0x100 * (data[off + 1] as u32) + 0x1_0000 * (data[off + 2] as u32)
            + 0x100_0000 * (data[off + 3] as u32),
    )
}

/// The little-endian 64-bit number at `off`, where eight bytes stand there.
pub fn u64_at(data: &[u8], off: usize) -> (r: Option<u64>)
    ensures
        off + 8 <= data@.len() ==> r == Some(le64_at(data@, off as int) as u64),
        off + 8 > data@.len() ==> r is None,
{
    if data.len() < 8 || off > data.len() - 8 {
        return None;
    }
    match (u32_at(data, off), u32_at(data, off + 4)) {
        (Some(lo), Some(hi)) => Some(lo as u64 + 0x1_0000_0000 * (hi as u64)),
        _ => None,
    }
}

/// The smallest multiple of four that is at least `n`.
pub open spec fn aligned4(n: int) -> int {
    (n + 3) / 4 * 4
}

/// Rounds `n` up to a multiple of four.
pub fn align4(n: usize) -> (r: usize)
    requires
        n + 3 <= usize::MAX,
    ensures
        r == aligned4(n as int),
        r % 4 == 0,
        n <= r < n + 4,
{
    (n + 3) / 4 * 4
}

/// Whether the two slices hold the same bytes.
pub fn same_bytes(a: &[u8], b: &[u8]) -> (r: bool)
    ensures
        r == (a@ == b@),
{
    if a.len() != b.len() {
        return false;
    }
    let mut i: usize = 0;
    while i < a.len()
        invariant
            i <= a@.len(),
            a@.len() == b@.len(),
            forall|j: int| 0 <= j < i ==> a@[j] == b@[j],
        decreases a@.len() - i,
    {
        if a[i] != b[i] {
            assert(a@[i as int] != b@[i as int]);
            return false;
        }
        i += 1;
    }
    assert(a@ =~= b@);
    true
}

/// Appends `n` zero bytes.
pub fn append_zeros(buf: &mut Vec<u8>, n: usize)
    ensures
        final(buf)@ == old(buf)@ + zeros(n as nat),
{
    let mut i: usize = 0;
    while i < n
        invariant
            i <= n,
            buf@ == old(buf)@ + zeros(i as nat),
        decreases n - i,
    {
        buf.push(0);
        i += 1;
        assert(buf@ =~= old(buf)@ + zeros(i as nat));
    }
}

/// Appends the bytes of `data`.
pub fn append_bytes(buf: &mut Vec<u8>, data: &[u8])
    ensures
        final(buf)@ == old(buf)@ + data@,
{
    buf.extend_from_slice(data);
    assert(buf@ =~= old(buf)@ + data@);
}

/// Appends the four little-endian bytes of `x`.
pub fn append_u32(buf: &mut Vec<u8>, x: u32)
    ensures
        final(buf)@ == old(buf)@ + le32_bytes(x as int),
{
    buf.push((x % 0x100) as u8);
    buf.push((x / 0x100 % 0x100) as u8);
    buf.push((x / 0x1_0000 % 0x100) as u8);
    buf.push((x / 0x100_0000 % 0x100) as u8);
    assert(buf@ =~= old(buf)@ + le32_bytes(x as int));
}

/// The byte sequences, one behind the other.
pub open spec fn concat(ts: Seq<Seq<u8>>) -> Seq<u8>
    decreases ts.len(),
{
    if ts.len() == 0 {
        Seq::empty()
    } else {
        concat(ts.drop_last()) + ts.last()
    }
}

/// Where the `i`-th of the concatenated sequences begins.
pub open spec fn start_of(ts: Seq<Seq<u8>>, i: int) -> int {
    concat(ts.take(i)).len() as int
}

/// Each of the concatenated sequences stands at its place.
pub proof fn lemma_concat_place(ts: Seq<Seq<u8>>, i: int)
    requires
        0 <= i < ts.len(),
    ensures
        0 <= start_of(ts, i),
        start_of(ts, i + 1) == start_of(ts, i) + ts[i].len(),
        start_of(ts, i + 1) <= concat(ts).len(),
        concat(ts).subrange(start_of(ts, i), start_of(ts, i + 1)) == ts[i],
    decreases ts.len(),
{
    assert(ts.take(i + 1).drop_last() =~= ts.take(i));
    assert(ts.take(i + 1).last() == ts[i]);
    if i == ts.len() - 1 {
        assert(ts.take(i + 1) =~= ts);
        assert(concat(ts).subrange(start_of(ts, i), start_of(ts, i + 1)) =~= ts[i]);
    } else {
        let front = ts.drop_last();
        lemma_concat_place(front, i);
        assert(front.take(i) =~= ts.take(i));
        assert(front.take(i + 1) =~= ts.take(i + 1));
        assert(front[i] == ts[i]);
        assert(concat(ts).subrange(start_of(ts, i), start_of(ts, i + 1)) =~= concat(front).subrange(
            start_of(ts, i),
            start_of(ts, i + 1),
        ));
    }
}

/// Bytes that stand anywhere are read as numbers with the low byte first.
pub proof fn law_numbers_are_little_endian(before: Seq<u8>, b: Seq<u8>, after: Seq<u8>)
    requires
        b.len() == 8,
    ensures
        ({
            let s = before + b + after;
            let off = before.len() as int;
            let low: int = b[0] + 256 * b[1] + 65536 * b[2] + 16777216 * b[3];
            let high: int = b[4] + 256 * b[5] + 65536 * b[6] + 16777216 * b[7];
            &&& le16_at(s, off) == b[0] + 256 * b[1]
            &&& le32_at(s, off) == low
            &&& le64_at(s, off) == low + 4294967296 * high
        }),
{
    let s = before + b + after;
    let off = before.len() as int;
    assert(s[off] == b[0] && s[off + 1] == b[1] && s[off + 2] == b[2] && s[off + 3] == b[3]);
    assert(s[off + 4] == b[4] && s[off + 5] == b[5] && s[off + 6] == b[6] && s[off + 7] == b[7]);
}

/// Rounding up gives a multiple of four, and no smaller one will do.
pub proof fn law_rounding_up(n: int)
    ensures
        aligned4(n) % 4 == 0,
        n <= aligned4(n) < n + 4,
{
}

/// Zero padding has its length and holds nothing else.
pub proof fn law_padding_is_zero(n: nat, i: int)
    ensures
        zeros(n).len() == n,
        0 <= i < n ==> zeros(n)[i] == 0,
{
}

/// Concatenating one more sequence appends it.
pub proof fn law_concat_appends(ts: Seq<Seq<u8>>, t: Seq<u8>)
    ensures
        concat(Seq::empty()) == Seq::<u8>::empty(),
        concat(ts.push(t)) == concat(ts) + t,
        start_of(ts, ts.len() as int) == concat(ts).len(),
{
    assert(ts.push(t).drop_last() =~= ts);
    assert(ts.take(ts.len() as int) =~= ts);
}

} // verus!
