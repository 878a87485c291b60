//! Fixed-width integers as big- and little-endian bytes.
use vstd::prelude::*;

verus! {

/// `v` as four big-endian bytes.
pub open spec fn be32(v: u32) -> Seq<u8> {
    seq![(v >> 24u32) as u8, ((v >> 16u32) & 0xffu32) as u8, ((v >> 8u32) & 0xffu32) as u8, (v & 0xffu32) as u8]
}

/// `v` as four little-endian bytes.
pub open spec fn le32(v: u32) -> Seq<u8> {
    seq![(v & 0xffu32) as u8, ((v >> 8u32) & 0xffu32) as u8, ((v >> 16u32) & 0xffu32) as u8, (v >> 24u32) as u8]
}

/// `v` as two big-endian bytes.
pub open spec fn be16(v: u16) -> Seq<u8> {
    seq![(v >> 8u16) as u8, (v & 0xffu16) as u8]
}

/// `v` as two little-endian bytes.
pub open spec fn le16(v: u16) -> Seq<u8> {
    seq![(v & 0xffu16) as u8, (v >> 8u16) as u8]
}

/// The value of four bytes read most significant first.
pub open spec fn u32_from_be(a: u8, b: u8, c: u8, d: u8) -> u32 {
    ((a as u32) << 24u32) | ((b as u32) << 16u32) | ((c as u32) << 8u32) | (d as u32)
}

/// The big-endian `u32` at `at` in `s`.
pub open spec fn be32_at(s: Seq<u8>, at: int) -> u32 {
    u32_from_be(s[at], s[at + 1], s[at + 2], s[at + 3])
}

/// The little-endian `u32` at `at` in `s`.
pub open spec fn le32_at(s: Seq<u8>, at: int) -> u32 {
    u32_from_be(s[at + 3], s[at + 2], s[at + 1], s[at])
}

/// The value of two bytes read most significant first.
pub open spec fn u16_from_be(a: u8, b: u8) -> u16 {
    ((a as u16) << 8u16) | (b as u16)
}

/// The big-endian `u16` at `at` in `s`.
pub open spec fn be16_at(s: Seq<u8>, at: int) -> u16 {
    u16_from_be(s[at], s[at + 1])
}

/// The little-endian `u16` at `at` in `s`.
pub open spec fn le16_at(s: Seq<u8>, at: int) -> u16 {
    u16_from_be(s[at + 1], s[at])
}

/// Reading back four written bytes gives the value written.
pub proof fn lemma_u32_round_trip(v: u32)
    ensures
        u32_from_be((v >> 24u32) as u8, ((v >> 16u32) & 0xffu32) as u8, ((v >> 8u32) & 0xffu32) as u8, (v & 0xffu32) as u8) == v,
{
    assert(((((v >> 24u32) as u8) as u32) << 24u32) | (((((v >> 16u32) & 0xffu32) as u8) as u32) << 16u32)
        | (((((v >> 8u32) & 0xffu32) as u8) as u32) << 8u32) | (((v & 0xffu32) as u8) as u32) == v) by (bit_vector);
}

/// Reading back two written bytes gives the value written.
pub proof fn lemma_u16_round_trip(v: u16)
    ensures
        u16_from_be((v >> 8u16) as u8, (v & 0xffu16) as u8) == v,
{
    assert(((((v >> 8u16) as u8) as u16) << 8u16) | (((v & 0xffu16) as u8) as u16) == v) by (bit_vector);
}

/// Writing the value of four bytes gives the bytes back.
pub proof fn lemma_u32_bytes_round_trip(a: u8, b: u8, c: u8, d: u8)
    ensures
        be32(u32_from_be(a, b, c, d)) == seq![a, b, c, d],
{
    let v = u32_from_be(a, b, c, d);
    assert((v >> 24u32) as u8 == a && ((v >> 16u32) & 0xffu32) as u8 == b
        && ((v >> 8u32) & 0xffu32) as u8 == c && (v & 0xffu32) as u8 == d) by (bit_vector)
        requires v == ((a as u32) << 24u32) | ((b as u32) << 16u32) | ((c as u32) << 8u32) | (d as u32);
    assert(be32(v) =~= seq![a, b, c, d]);
}

/// Appends `v` big-endian.
pub fn push_be32(out: &mut Vec<u8>, v: u32)
    ensures
        final(out)@ == old(out)@ + be32(v),
{
    out.push((v >> 24u32) as u8);
    out.push(((v >> 16u32) & 0xffu32) as u8);
    out.push(((v >> 8u32) & 0xffu32) as u8);
    out.push((v & 0xffu32) as u8);
    assert(out@ =~= old(out)@ + be32(v));
}

/// Appends `v` little-endian.
pub fn push_le32(out: &mut Vec<u8>, v: u32)
    ensures
        final(out)@ == old(out)@ + le32(v),
{
    out.push((v & 0xffu32) as u8);
    out.push(((v >> 8u32) & 0xffu32) as u8);
    out.push(((v >> 16u32) & 0xffu32) as u8);
    out.push((v >> 24u32) as u8);
    assert(out@ =~= old(out)@ + le32(v));
}

/// Appends `v` big-endian.
pub fn push_be16(out: &mut Vec<u8>, v: u16)
    ensures
        final(out)@ == old(out)@ + be16(v),
{
    out.push((v >> 8u16) as u8);
    out.push((v & 0xffu16) as u8);
    assert(out@ =~= old(out)@ + be16(v));
}

/// Appends `v` little-endian.
pub fn push_le16(out: &mut Vec<u8>, v: u16)
    ensures
        final(out)@ == old(out)@ + le16(v),
{
    out.push((v & 0xffu16) as u8);
    out.push((v >> 8u16) as u8);
    assert(out@ =~= old(out)@ + le16(v));
}

/// Appends every byte of `src`.
pub fn push_all(out: &mut Vec<u8>, src: &[u8])
    ensures
        final(out)@ == old(out)@ + src@,
{
    let mut i: usize = 0;
    while i < src.len()
        invariant
            i <= src@.len(),
            out@ == old(out)@ + src@.take(i as int),
        decreases src@.len() - i,
    {
        out.push(src[i]);
        i = i + 1;
        assert(out@ =~= old(out)@ + src@.take(i as int));
    }
    assert(src@.take(i as int) =~= src@);
}

/// The big-endian `u32` at `at`.
pub fn get_be32(buf: &[u8], at: usize) -> (v: u32)
    requires
        at + 4 <= buf@.len(),
    ensures
        v == be32_at(buf@, at as int),
{
    ((buf[at] as u32) << 24u32) | ((buf[at + 1] as u32) << 16u32) | ((buf[at + 2] as u32) << 8u32) | (buf[at + 3] as u32)
}

/// The little-endian `u32` at `at`.
pub fn get_le32(buf: &[u8], at: usize) -> (v: u32)
    requires
        at + 4 <= buf@.len(),
    ensures
        v == le32_at(buf@, at as int),
{
    let a = buf[at];
    ((buf[at + 3] as u32) << 24u32) | ((buf[at + 2] as u32) << 16u32) | ((buf[at + 1] as u32) << 8u32) | (a as u32)
}

/// The big-endian `u16` at `at`.
pub fn get_be16(buf: &[u8], at: usize) -> (v: u16)
    requires
        at + 2 <= buf@.len(),
    ensures
        v == be16_at(buf@, at as int),
{
    ((buf[at] as u16) << 8u16) | (buf[at + 1] as u16)
}

/// The little-endian `u16` at `at`.
pub fn get_le16(buf: &[u8], at: usize) -> (v: u16)
    requires
        at + 2 <= buf@.len(),
    ensures
        v == le16_at(buf@, at as int),
{
    let a = buf[at];
    ((buf[at + 1] as u16) << 8u16) | (a as u16)
}

/// The big-endian `u64` at `at` in `s`.
pub open spec fn be64_at(s: Seq<u8>, at: int) -> u64 {
    ((be32_at(s, at) as u64) << 32u64) | (be32_at(s, at + 4) as u64)
}

/// The big-endian `u64` at `at`.
pub fn get_be64(buf: &[u8], at: usize) -> (v: u64)
    requires
        at + 8 <= buf@.len(),
    ensures
        v == be64_at(buf@, at as int),
{
    proof { assert(buf@.len() == buf.len()); }
    ((get_be32(buf, at) as u64) << 32u64) | (get_be32(buf, at + 4) as u64)
}

/// Overwrites the four bytes at `at` with `v` big-endian.
pub open spec fn patch_be32(s: Seq<u8>, at: int, v: u32) -> Seq<u8> {
    s.subrange(0, at) + be32(v) + s.subrange(at + 4, s.len() as int)
}

/// Overwrites the four bytes at `at` with `v` big-endian.
pub fn set_be32(buf: &mut Vec<u8>, at: usize, v: u32)
    requires
        at + 4 <= old(buf)@.len(),
    ensures
        final(buf)@ == patch_be32(old(buf)@, at as int, v),
{
    proof { assert(buf@.len() == buf.len()); }
    buf.set(at, (v >> 24u32) as u8);
    buf.set(at + 1, ((v >> 16u32) & 0xffu32) as u8);
    buf.set(at + 2, ((v >> 8u32) & 0xffu32) as u8);
    buf.set(at + 3, (v & 0xffu32) as u8);
    assert(buf@ =~= patch_be32(old(buf)@, at as int, v));
}

/// Overwrites the four bytes at `at` with `v` little-endian.
pub open spec fn patch_le32(s: Seq<u8>, at: int, v: u32) -> Seq<u8> {
    s.subrange(0, at) + le32(v) + s.subrange(at + 4, s.len() as int)
}

/// Overwrites the four bytes at `at` with `v` little-endian.
pub fn set_le32(buf: &mut Vec<u8>, at: usize, v: u32)
    requires
        at + 4 <= old(buf)@.len(),
    ensures
        final(buf)@ == patch_le32(old(buf)@, at as int, v),
{
    proof { assert(buf@.len() == buf.len()); }
    buf.set(at, (v & 0xffu32) as u8);
    buf.set(at + 1, ((v >> 8u32) & 0xffu32) as u8);
    buf.set(at + 2, ((v >> 16u32) & 0xffu32) as u8);
    buf.set(at + 3, (v >> 24u32) as u8);
    assert(buf@ =~= patch_le32(old(buf)@, at as int, v));
}

/// Overwrites the two bytes at `at` with `v` little-endian.
pub open spec fn patch_le16(s: Seq<u8>, at: int, v: u16) -> Seq<u8> {
    s.subrange(0, at) + le16(v) + s.subrange(at + 2, s.len() as int)
}

/// Overwrites the two bytes at `at` with `v` little-endian.
pub fn set_le16(buf: &mut Vec<u8>, at: usize, v: u16)
    requires
        at + 2 <= old(buf)@.len(),
    ensures
        final(buf)@ == patch_le16(old(buf)@, at as int, v),
{
    proof { assert(buf@.len() == buf.len()); }
    buf.set(at, (v & 0xffu16) as u8);
    buf.set(at + 1, (v >> 8u16) as u8);
    assert(buf@ =~= patch_le16(old(buf)@, at as int, v));
}

/// Overwrites the two bytes at `at` with `v` big-endian.
pub open spec fn patch_be16(s: Seq<u8>, at: int, v: u16) -> Seq<u8> {
    s.subrange(0, at) + be16(v) + s.subrange(at + 2, s.len() as int)
}

/// Overwrites the two bytes at `at` with `v` big-endian.
pub fn set_be16(buf: &mut Vec<u8>, at: usize, v: u16)
    requires
        at + 2 <= old(buf)@.len(),
    ensures
        final(buf)@ == patch_be16(old(buf)@, at as int, v),
{
    proof { assert(buf@.len() == buf.len()); }
    buf.set(at, (v >> 8u16) as u8);
    buf.set(at + 1, (v & 0xffu16) as u8);
    assert(buf@ =~= patch_be16(old(buf)@, at as int, v));
}

/// The concatenation of `parts`, in order.
pub open spec fn flatten(parts: Seq<Seq<u8>>) -> Seq<u8>
    decreases parts.len(),
{
    if parts.len() == 0 { seq![] } else { flatten(parts.drop_last()) + parts.last() }
}

/// The views of a list of byte vectors.
pub open spec fn views(parts: Seq<Vec<u8>>) -> Seq<Seq<u8>> {
    parts.map_values(|v: Vec<u8>| v@)
}

/// The concatenation of `parts`, in order.
pub fn concat(parts: &[Vec<u8>]) -> (out: Vec<u8>)
    ensures
        out@ == flatten(views(parts@)),
{
    let mut out: Vec<u8> = Vec::new();
    let mut i: usize = 0;
    while i < parts.len()
        invariant
            i <= parts@.len(),
            out@ == flatten(views(parts@.take(i as int))),
        decreases parts@.len() - i,
    {
        push_all(&mut out, parts[i].as_slice());
        proof {
            assert(views(parts@.take(i + 1)).drop_last() =~= views(parts@.take(i as int)));
        }
        i = i + 1;
    }
    assert(parts@.take(i as int) =~= parts@);
    out
}

/// `n` zero bytes.
pub open spec fn zeros(n: int) -> Seq<u8> {
    Seq::new(n as nat, |i: int| 0u8)
}

/// Appends `n` zero bytes.
pub fn push_zeros(out: &mut Vec<u8>, n: usize)
    ensures
        final(out)@ == old(out)@ + zeros(n as int),
{
    let mut i: usize = 0;
    while i < n
        invariant
            i <= n,
            out@ == old(out)@ + zeros(i as int),
        decreases n - i,
    {
        out.push(0u8);
        i = i + 1;
        assert(out@ =~= old(out)@ + zeros(i as int));
    }
}

/// A copy of `len` bytes of `src` from `start` on.
pub fn copy_range(src: &[u8], start: usize, len: usize) -> (out: Vec<u8>)
    requires
        start + len <= src@.len(),
    ensures
        out@ == src@.subrange(start as int, start + len),
{
    let mut out: Vec<u8> = Vec::new();
    let mut i: usize = 0;
    proof { assert(src@.len() == src.len()); }
    while i < len
        invariant
            i <= len,
            src@.len() == src.len(),
            start + len <= src@.len(),
            out@ == src@.subrange(start as int, start + i),
        decreases len - i,
    {
        out.push(src[start + i]);
        i = i + 1;
        assert(out@ =~= src@.subrange(start as int, start + i));
    }
    out
}

/// Every prefix of a list of byte strings flattens to a prefix of the whole.
pub proof fn lemma_flatten_prefix(parts: Seq<Seq<u8>>, k: int)
    requires
        0 <= k <= parts.len(),
    ensures
        flatten(parts.take(k)).len() <= flatten(parts).len(),
    decreases parts.len() - k,
{
    if k < parts.len() {
        assert(parts.take(k + 1).drop_last() =~= parts.take(k));
        lemma_flatten_prefix(parts, k + 1);
    } else {
        assert(parts.take(k) =~= parts);
    }
}

}
