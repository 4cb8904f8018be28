//! Little-endian field encoders shared by the on-disk structures.
use vstd::prelude::*;

verus! {

/// Error of the structure encoders.
#[derive(Clone, Copy, Debug, PartialEq, Eq, Structural)]
pub enum PackError {
    /// The target buffer is shorter than the encoded structure.
    BufferTooSmall,
}

/// Little-endian bytes of a 16-bit value.
pub open spec fn le16(v: u16) -> Seq<u8> {
    seq![(v % 256) as u8, (v / 256) as u8]
}

/// Little-endian bytes of a 32-bit value.
pub open spec fn le32(v: u32) -> Seq<u8> {
    seq![
        (v % 256) as u8,
        ((v / 256) % 256) as u8,
        ((v / 65536) % 256) as u8,
        (v / 16777216) as u8,
    ]
}

/// `n` zero bytes.
pub open spec fn zeros(n: nat) -> Seq<u8> {
    Seq::new(n, |i: int| 0u8)
}

/// The relation between a buffer before and after `t` was stored at `off`.
pub open spec fn stored_at(before: Seq<u8>, after: Seq<u8>, off: int, t: Seq<u8>) -> bool {
    &&& after.len() == before.len()
    &&& after.subrange(0, off) == before.subrange(0, off)
    &&& after.subrange(off, off + t.len()) == t
    &&& after.subrange(off + t.len(), after.len() as int) == before.subrange(
        off + t.len(),
        before.len() as int,
    )
}

/// A buffer that starts with `p` and holds `t` right after it starts with `p + t`.
pub proof fn lemma_prefix_extend(s: Seq<u8>, p: Seq<u8>, t: Seq<u8>)
    requires
        p.len() + t.len() <= s.len(),
        s.subrange(0, p.len() as int) == p,
        s.subrange(p.len() as int, (p.len() + t.len()) as int) == t,
    ensures
        s.subrange(0, (p.len() + t.len()) as int) == p + t,
{
    assert forall|i: int| 0 <= i < p.len() + t.len() implies s.subrange(0, (p.len() + t.len()) as int)[i]
        == (p + t)[i] by {
        if i < p.len() {
            assert(s.subrange(0, p.len() as int)[i] == s[i]);
        } else {
            assert(s.subrange(p.len() as int, (p.len() + t.len()) as int)[i - p.len()] == s[i]);
        }
    }
    assert(s.subrange(0, (p.len() + t.len()) as int) =~= p + t);
}

/// Storing `t` right after a prefix `p` extends the prefix to `p + t`, and keeps the
/// bytes from `end` on.
pub proof fn lemma_store_after_prefix(
    before: Seq<u8>,
    after: Seq<u8>,
    p: Seq<u8>,
    t: Seq<u8>,
    end: int,
)
    requires
        p.len() + t.len() <= end <= before.len(),
        before.subrange(0, p.len() as int) == p,
        stored_at(before, after, p.len() as int, t),
    ensures
        after.subrange(0, (p.len() + t.len()) as int) == p + t,
        after.subrange(end, after.len() as int) == before.subrange(end, before.len() as int),
{
    lemma_prefix_extend(after, p, t);
    let k = (p.len() + t.len()) as int;
    assert forall|i: int| 0 <= i < after.len() - end implies after.subrange(end, after.len() as int)[i]
        == before.subrange(end, before.len() as int)[i] by {
        assert(after.subrange(k, after.len() as int)[end - k + i] == after[end + i]);
        assert(before.subrange(k, before.len() as int)[end - k + i] == before[end + i]);
    }
    assert(after.subrange(end, after.len() as int) =~= before.subrange(end, before.len() as int));
}

/// Copies `src` into `buf` at `off`.
pub fn put_bytes(buf: &mut [u8], off: usize, src: &[u8])
    requires
        off + src@.len() <= old(buf)@.len(),
    ensures
        stored_at(old(buf)@, final(buf)@, off as int, src@),
{
    let n = buf.len();
    let mut i: usize = 0;
    while i < src.len()
        invariant
            off + src@.len() <= buf@.len(),
            buf@.len() == old(buf)@.len(),
            buf@.len() == n,
            i <= src@.len(),
            forall|j: int| 0 <= j < off || off + i <= j < buf@.len() ==> buf@[j] == old(buf)@[j],
            forall|j: int| 0 <= j < i ==> buf@[off + j] == src@[j],
        decreases src@.len() - i,
    {
        buf[off + i] = src[i];
        i += 1;
    }
    assert(buf@.subrange(0, off as int) =~= old(buf)@.subrange(0, off as int));
    assert(buf@.subrange(off as int, off + src@.len()) =~= src@);
    assert(buf@.subrange(off + src@.len(), buf@.len() as int) =~= old(buf)@.subrange(
        off + src@.len(),
        old(buf)@.len() as int,
    ));
}

/// Stores one byte at `off`.
pub fn put_u8(buf: &mut [u8], off: usize, v: u8)
    requires
        off + 1 <= old(buf)@.len(),
    ensures
        stored_at(old(buf)@, final(buf)@, off as int, seq![v]),
{
    buf[off] = v;
    assert(buf@.subrange(0, off as int) =~= old(buf)@.subrange(0, off as int));
    assert(buf@.subrange(off as int, off + 1) =~= seq![v]);
    assert(buf@.subrange(off + 1, buf@.len() as int) =~= old(buf)@.subrange(
        off + 1,
        old(buf)@.len() as int,
    ));
}

/// Stores a 16-bit value at `off`, low byte first.
pub fn put_u16(buf: &mut [u8], off: usize, v: u16)
    requires
        off + 2 <= old(buf)@.len(),
    ensures
        stored_at(old(buf)@, final(buf)@, off as int, le16(v)),
{
    buf[off] = (v % 256) as u8;
    buf[off + 1] = (v / 256) as u8;
    assert(buf@.subrange(0, off as int) =~= old(buf)@.subrange(0, off as int));
    assert(buf@.subrange(off as int, off + 2) =~= le16(v));
    assert(buf@.subrange(off + 2, buf@.len() as int) =~= old(buf)@.subrange(
        off + 2,
        old(buf)@.len() as int,
    ));
}

/// Stores a 32-bit value at `off`, low byte first.
pub fn put_u32(buf: &mut [u8], off: usize, v: u32)
    requires
        off + 4 <= old(buf)@.len(),
    ensures
        stored_at(old(buf)@, final(buf)@, off as int, le32(v)),
{
    buf[off] = (v % 256) as u8;
    buf[off + 1] = ((v / 256) % 256) as u8;
    buf[off + 2] = ((v / 65536) % 256) as u8;
    buf[off + 3] = (v / 16777216) as u8;
    assert(buf@.subrange(0, off as int) =~= old(buf)@.subrange(0, off as int));
    assert(buf@.subrange(off as int, off + 4) =~= le32(v));
    assert(buf@.subrange(off + 4, buf@.len() as int) =~= old(buf)@.subrange(
        off + 4,
        old(buf)@.len() as int,
    ));
}

} // verus!
