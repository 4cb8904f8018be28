//! The 32-byte FAT directory entry and its wire encoding.
use vstd::prelude::*;

use crate::encode::{
    le16, le32, lemma_store_after_prefix, put_bytes, put_u16, put_u32, put_u8, stored_at, PackError,
};

verus! {

/// Bytes of an encoded directory entry.
pub const DIR_ENTRY_BYTES: usize = 32;

/// A FAT directory entry; times and dates stay zero here.
#[derive(Clone, Copy, Debug)]
pub struct DirectoryEntry {
    pub name: [u8; 11],
    pub attrs: u8,
    pub reserved: u8,
    pub create_time_fine: u8,
    pub create_time: u16,
    pub create_date: u16,
    pub last_access_date: u16,
    pub high_start_cluster: u16,
    pub update_time: u16,
    pub update_date: u16,
    pub start_cluster: u16,
    pub size: u32,
}

impl Default for DirectoryEntry {
    fn default() -> (r: Self)
        ensures
            r.bytes() == Seq::new(32, |i: int| 0u8),
    {
        let r = DirectoryEntry {
            name: [0u8; 11],
            attrs: 0,
            reserved: 0,
            create_time_fine: 0,
            create_time: 0,
            create_date: 0,
            last_access_date: 0,
            high_start_cluster: 0,
            update_time: 0,
            update_date: 0,
            start_cluster: 0,
            size: 0,
        };
        assert(r.bytes() =~= Seq::new(32, |i: int| 0u8));
        r
    }
}

impl DirectoryEntry {
    /// The 32 little-endian bytes of the entry, in field order.
    pub open spec fn bytes(&self) -> Seq<u8> {
        self.name@ + seq![self.attrs] + seq![self.reserved] + seq![self.create_time_fine] + le16(self.create_time) + le16(self.create_date) + le16(self.last_access_date) + le16(self.high_start_cluster) + le16(self.update_time) + le16(self.update_date) + le16(self.start_cluster) + le32(self.size)
    }

    /// Writes the encoded entry to the start of `buf`.
    pub fn pack(&self, buf: &mut [u8]) -> (r: Result<(), PackError>)
        ensures
            r is Ok <==> old(buf)@.len() >= DIR_ENTRY_BYTES,
            r is Ok ==> stored_at(old(buf)@, final(buf)@, 0, self.bytes()),
            r is Err ==> final(buf)@ == old(buf)@,
    {
        if buf.len() < DIR_ENTRY_BYTES {
            return Err(PackError::BufferTooSmall);
        }
        let ghost start = buf@;
        let ghost mut p: Seq<u8> = Seq::empty();
        assert(buf@.subrange(0, 0) =~= p);
        let ghost before = buf@;
        put_bytes(buf, 0, self.name.as_slice());
        proof {
            lemma_store_after_prefix(before, buf@, p, self.name@, 32);
            p = p + self.name@;
        }
        let ghost before = buf@;
        put_u8(buf, 11, self.attrs);
        proof {
            lemma_store_after_prefix(before, buf@, p, seq![self.attrs], 32);
            p = p + seq![self.attrs];
        }
        let ghost before = buf@;
        put_u8(buf, 12, self.reserved);
        proof {
            lemma_store_after_prefix(before, buf@, p, seq![self.reserved], 32);
            p = p + seq![self.reserved];
        }
        let ghost before = buf@;
        put_u8(buf, 13, self.create_time_fine);
        proof {
            lemma_store_after_prefix(before, buf@, p, seq![self.create_time_fine], 32);
            p = p + seq![self.create_time_fine];
        }
        let ghost before = buf@;
        put_u16(buf, 14, self.create_time);
        proof {
            lemma_store_after_prefix(before, buf@, p, le16(self.create_time), 32);
            p = p + le16(self.create_time);
        }
        let ghost before = buf@;
        put_u16(buf, 16, self.create_date);
        proof {
            lemma_store_after_prefix(before, buf@, p, le16(self.create_date), 32);
            p = p + le16(self.create_date);
        }
        let ghost before = buf@;
        put_u16(buf, 18, self.last_access_date);
        proof {
            lemma_store_after_prefix(before, buf@, p, le16(self.last_access_date), 32);
            p = p + le16(self.last_access_date);
        }
        let ghost before = buf@;
        put_u16(buf, 20, self.high_start_cluster);
        proof {
            lemma_store_after_prefix(before, buf@, p, le16(self.high_start_cluster), 32);
            p = p + le16(self.high_start_cluster);
        }
        let ghost before = buf@;
        put_u16(buf, 22, self.update_time);
        proof {
            lemma_store_after_prefix(before, buf@, p, le16(self.update_time), 32);
            p = p + le16(self.update_time);
        }
        let ghost before = buf@;
        put_u16(buf, 24, self.update_date);
        proof {
            lemma_store_after_prefix(before, buf@, p, le16(self.update_date), 32);
            p = p + le16(self.update_date);
        }
        let ghost before = buf@;
        put_u16(buf, 26, self.start_cluster);
        proof {
            lemma_store_after_prefix(before, buf@, p, le16(self.start_cluster), 32);
            p = p + le16(self.start_cluster);
        }
        let ghost before = buf@;
        put_u32(buf, 28, self.size);
        proof {
            lemma_store_after_prefix(before, buf@, p, le32(self.size), 32);
            p = p + le32(self.size);
        }
        assert(p =~= self.bytes());
        assert(buf@.subrange(0, 0) =~= start.subrange(0, 0));
        Ok(())
    }

    /// Writes the encoded entry to `buf` at `off`.
    pub fn pack_at(&self, buf: &mut [u8], off: usize)
        requires
            off + DIR_ENTRY_BYTES <= old(buf)@.len(),
        ensures
            stored_at(old(buf)@, final(buf)@, off as int, self.bytes()),
    {
        let mut tmp = [0u8; 32];
        let _ = self.pack(&mut tmp);
        assert(tmp@.subrange(0, 32) =~= tmp@);
        put_bytes(buf, off, tmp.as_slice());
    }
}

} // verus!
