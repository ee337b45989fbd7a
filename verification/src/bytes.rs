//! Little-endian fields inside a byte buffer.

use vstd::prelude::*;

verus! {

/// The sixteen-bit little-endian number stored at `at`.
pub open spec fn le16(b: Seq<u8>, at: int) -> int {
    b[at] + 256 * b[at + 1]
}

/// The thirty-two-bit little-endian number stored at `at`.
pub open spec fn le32(b: Seq<u8>, at: int) -> int {
    b[at] + 0x100 * b[at + 1] + 0x1_0000 * b[at + 2] + 0x100_0000 * b[at + 3]
}

/// Reads the sixteen-bit little-endian number at `at`.
pub fn read_le16(b: &[u8], at: usize) -> (r: u16)
    requires
        at + 2 <= b@.len(),
    ensures
        r == le16(b@, at as int),
{
    b[at] as u16 + 256 * b[at + 1] as u16
}

/// Reads the thirty-two-bit little-endian number at `at`.
pub fn read_le32(b: &[u8], at: usize) -> (r: u32)
    requires
        at + 4 <= b@.len(),
    ensures
        r == le32(b@, at as int),
{
    b[at] as u32 + 0x100 * b[at + 1] as u32 + 0x1_0000 * b[at + 2] as u32 + 0x100_0000
        * b[at + 3] as u32
}

/// The four bytes that store `v` little-endian.
pub open spec fn le32_bytes(v: int) -> Seq<u8> {
    seq![
        (v % 0x100) as u8,
        ((v / 0x100) % 0x100) as u8,
        ((v / 0x1_0000) % 0x100) as u8,
        ((v / 0x100_0000) % 0x100) as u8,
    ]
}

/// Appends a thirty-two-bit number, little-endian.
pub fn push_le32(out: &mut Vec<u8>, v: u32)
    ensures
        final(out)@ == old(out)@ + le32_bytes(v as int),
{
    out.push((v % 0x100) as u8);
    out.push(((v / 0x100) % 0x100) as u8);
    out.push(((v / 0x1_0000) % 0x100) as u8);
    out.push(((v / 0x100_0000) % 0x100) as u8);
    assert(out@ =~= old(out)@ + le32_bytes(v as int));
}

/// Pieces laid end to end.
pub open spec fn flat(parts: Seq<Seq<u8>>) -> Seq<u8>
    decreases parts.len(),
{
    if parts.len() == 0 {
        Seq::empty()
    } else {
        flat(parts.drop_last()) + parts.last()
    }
}

/// Bytes the first `n` pieces occupy.
pub open spec fn total(parts: Seq<Seq<u8>>, n: int) -> int
    decreases n,
{
    if n <= 0 {
        0
    } else {
        total(parts, n - 1) + parts[n - 1].len()
    }
}

/// **What is stored little-endian reads back**, wherever in a buffer it stands.
pub proof fn law_le32_reads_back(b: Seq<u8>, at: int, v: int)
    requires
        0 <= v <= u32::MAX,
        0 <= at,
        at + 4 <= b.len(),
        b.subrange(at, at + 4) == le32_bytes(v),
    ensures
        le32(b, at) == v,
{
    let s = b.subrange(at, at + 4);
    assert(s[0] == b[at] && s[1] == b[at + 1] && s[2] == b[at + 2] && s[3] == b[at + 3]);
}

/// Pieces laid end to end are as long as they are together.
pub proof fn lemma_flat_len(parts: Seq<Seq<u8>>)
    ensures
        flat(parts).len() == total(parts, parts.len() as int),
    decreases parts.len(),
{
    if parts.len() > 0 {
        let n = parts.len() - 1;
        lemma_flat_len(parts.drop_last());
        lemma_total_prefix(parts.drop_last(), parts, n);
    }
}

/// Totals depend only on the pieces counted.
pub proof fn lemma_total_prefix(a: Seq<Seq<u8>>, b: Seq<Seq<u8>>, n: int)
    requires
        n <= a.len(),
        n <= b.len(),
        forall|i: int| 0 <= i < n ==> a[i] == b[i],
    ensures
        total(a, n) == total(b, n),
    decreases n,
{
    if n > 0 {
        lemma_total_prefix(a, b, n - 1);
    }
}

/// Totals only grow.
pub proof fn lemma_total_grows(parts: Seq<Seq<u8>>, m: int, n: int)
    requires
        m <= n,
    ensures
        total(parts, m) <= total(parts, n),
        0 <= total(parts, m),
    decreases n,
{
    if m < n && n > 0 {
        lemma_total_grows(parts, m, n - 1);
    } else if m == n && n > 0 {
        lemma_total_grows(parts, m - 1, n - 1);
    }
}

/// **A piece is found again** where the pieces before it end.
pub proof fn law_flat_piece(parts: Seq<Seq<u8>>, i: int)
    requires
        0 <= i < parts.len(),
    ensures
        0 <= total(parts, i),
        total(parts, i) + parts[i].len() <= flat(parts).len(),
        flat(parts).subrange(total(parts, i), total(parts, i) + parts[i].len()) == parts[i],
    decreases parts.len(),
{
    let start = parts.drop_last();
    lemma_flat_len(start);
    lemma_total_grows(parts, i, i);
    if i == start.len() {
        lemma_total_prefix(start, parts, i);
        assert(flat(parts).subrange(total(parts, i), total(parts, i) + parts[i].len())
            =~= parts[i]);
    } else {
        law_flat_piece(start, i);
        lemma_total_prefix(start, parts, i);
        assert(flat(parts).subrange(total(parts, i), total(parts, i) + parts[i].len())
            =~= flat(start).subrange(total(start, i), total(start, i) + start[i].len()));
    }
}

} // verus!
