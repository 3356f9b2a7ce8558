//! Reading the IFF containers the client writes: a chunk is a four-byte tag,
//! a big-endian `u32` size, then that many body bytes; a `FORM` chunk's body
//! starts with a four-byte sub-tag followed by more chunks.

use vstd::prelude::*;

verus! {

/// Big-endian `u32` at `d[i..i + 4]`.
pub open spec fn be32(d: Seq<u8>, i: int) -> int {
    d[i] as int * 0x1000000 + d[i + 1] as int * 0x10000 + d[i + 2] as int * 0x100 + d[i + 3] as int
}

/// Little-endian `u32` at `d[i..i + 4]`.
pub open spec fn le32(d: Seq<u8>, i: int) -> int {
    d[i + 3] as int * 0x1000000 + d[i + 2] as int * 0x10000 + d[i + 1] as int * 0x100 + d[i] as int
}

/// Whether `d[i..i + 4]` is the tag `t`.
pub open spec fn is_tag(d: Seq<u8>, i: int, t: Seq<u8>) -> bool {
    0 <= i && i + 4 <= d.len() && d.subrange(i, i + 4) == t
}

pub open spec fn form_tag() -> Seq<u8> {
    seq![70u8, 79u8, 82u8, 77u8]
}

/// A measure for walks over `off..end`.
pub open spec fn span(off: int, end: int) -> int {
    if off < end {
        end - off
    } else {
        0
    }
}

/// `min(a, b)`.
pub open spec fn min(a: int, b: int) -> int {
    if a <= b {
        a
    } else {
        b
    }
}

pub fn read_be32(d: &[u8], i: usize) -> (v: u32)
    requires
        i + 4 <= d.len(),
    ensures
        v == be32(d@, i as int),
{
    (d[i] as u32) * 0x1000000 + (d[i + 1] as u32) * 0x10000 + (d[i + 2] as u32) * 0x100 + (d[i
        + 3] as u32)
}

pub fn read_le32(d: &[u8], i: usize) -> (v: u32)
    requires
        i + 4 <= d.len(),
    ensures
        v == le32(d@, i as int),
{
    (d[i + 3] as u32) * 0x1000000 + (d[i + 2] as u32) * 0x10000 + (d[i + 1] as u32) * 0x100
        + (d[i] as u32)
}

/// Whether `d[i..i + 4]` is the tag `t`.
pub fn tag_eq(d: &[u8], i: usize, t: [u8; 4]) -> (r: bool)
    requires
        i + 4 <= d.len(),
    ensures
        r == is_tag(d@, i as int, t@),
{
    let r = d[i] == t[0] && d[i + 1] == t[1] && d[i + 2] == t[2] && d[i + 3] == t[3];
    if r {
        assert(d@.subrange(i as int, i + 4) =~= t@);
    } else {
        assert(d@.subrange(i as int, i + 4) != t@) by {
            if d@.subrange(i as int, i + 4) == t@ {
                assert(d@.subrange(i as int, i + 4)[0] == d@[i as int]);
                assert(d@.subrange(i as int, i + 4)[1] == d@[i + 1]);
                assert(d@.subrange(i as int, i + 4)[2] == d@[i + 2]);
                assert(d@.subrange(i as int, i + 4)[3] == d@[i + 3]);
            }
        }
    }
    r
}

/// The chunk at `off` inside `..end`: its body's end (clipped to `end`) and
/// the offset of the next chunk (clipped to `end`, which ends a walk just as
/// an offset past `end` does).
pub fn chunk_bounds(d: &[u8], off: usize, end: usize) -> (r: (usize, usize))
    requires
        off + 8 <= end <= d.len(),
    ensures
        r.0 == min(off + 8 + be32(d@, off + 4), end as int),
        off + 8 <= r.0 <= end,
        r.1 == min(off + 8 + be32(d@, off + 4), end as int),
{
    let size = read_be32(d, off + 4);
    let next: u128 = off as u128 + 8 + size as u128;
    if next <= end as u128 {
        (next as usize, next as usize)
    } else {
        (end, end)
    }
}

} // verus!
