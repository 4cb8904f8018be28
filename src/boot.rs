//! The FAT16 boot block (BIOS parameter block) and its wire encoding.
use vstd::prelude::*;
use vstd::string::StringSliceAdditionalSpecFns;

use crate::config::Config;
use crate::encode::{
    le16, le32, lemma_store_after_prefix, put_bytes, put_u16, put_u32, put_u8, stored_at, PackError,
};

verus! {

/// Bytes of an encoded boot block.
pub const BOOT_BLOCK_BYTES: usize = 62;

/// A text field of `n` bytes: space-filled, holding at most `n - 1` bytes of `s`.
pub open spec fn text_field(s: Seq<u8>, n: nat) -> Seq<u8> {
    Seq::new(n, |i: int| if i < n - 1 && i < s.len() { s[i] } else { 0x20u8 })
}

/// Builds a space-filled text field of `N` bytes from `src`, keeping one trailing space.
pub fn fill_text<const N: usize>(src: &[u8]) -> (r: [u8; N])
    requires
        N >= 1,
    ensures
        r@ == text_field(src@, N as nat),
{
    let mut r = [0x20u8; N];
    let mut i: usize = 0;
    while i < N - 1 && i < src.len()
        invariant
            N >= 1,
            i <= N - 1,
            i <= src@.len(),
            r@.len() == N,
            forall|j: int| 0 <= j < i ==> r@[j] == src@[j],
            forall|j: int| i <= j < N ==> r@[j] == 0x20u8,
        decreases N - i,
    {
        r[i] = src[i];
        i += 1;
    }
    assert(r@ =~= text_field(src@, N as nat));
    r
}

/// The encoded boot block of a volume with configuration `config`.
pub open spec fn boot_bytes_of<const BLOCK_SIZE: usize>(config: Config<BLOCK_SIZE>) -> Seq<u8> {
    let total = config.num_blocks as int - 2;
    let total16: u16 = if total <= 0xFFFF {
        total as u16
    } else {
        0u16
    };
    let total32: u32 = if total <= 0xFFFF {
        0u32
    } else {
        total as u32
    };
    seq![0xEBu8, 0x3Cu8, 0x90u8] + text_field(config.oem_info.spec_bytes(), 8) + le16(
        BLOCK_SIZE as u16,
    ) + seq![1u8] + le16(config.reserved_sectors as u16) + seq![2u8] + le16(
        (config.root_dir_sectors as int * BLOCK_SIZE as int / 32) as u16,
    ) + le16(total16) + seq![0xF8u8] + le16(config.spf() as u16) + le16(1u16) + le16(1u16) + le32(
        0u32,
    ) + le32(total32) + seq![0u8] + seq![0u8] + seq![0x29u8] + le32(0x00420042u32) + text_field(
        config.volume_label.spec_bytes(),
        11,
    ) + text_field(config.filesystem_identifier.spec_bytes(), 8)
}

/// Encodable Boot Block object
#[derive(Clone, Copy, Debug)]
pub struct FatBootBlock {
    pub jump_instruction: [u8; 3],
    pub oem_info: [u8; 8],
    pub bytes_per_sector: u16,
    pub sectors_per_cluster: u8,
    pub reserved_sectors: u16,
    pub fat_copies: u8,
    pub root_directory_entries: u16,
    pub total_sectors16: u16,
    pub media_descriptor: u8,
    pub sectors_per_fat: u16,
    pub sectors_per_track: u16,
    pub heads: u16,
    pub hidden_sectors: u32,
    pub total_sectors32: u32,
    pub physical_drive_num: u8,
    pub reserved: u8,
    pub extended_boot_sig: u8,
    pub volume_serial_number: u32,
    pub volume_label: [u8; 11],
    pub filesystem_identifier: [u8; 8],
}

impl FatBootBlock {
    /// The fields that describe a volume with configuration `config`.
    pub open spec fn describes<const BLOCK_SIZE: usize>(&self, config: Config<BLOCK_SIZE>) -> bool {
        let total = config.num_blocks as int - 2;
        &&& self.jump_instruction@ == seq![0xEBu8, 0x3Cu8, 0x90u8]
        &&& self.oem_info@ == text_field(config.oem_info.spec_bytes(), 8)
        &&& self.bytes_per_sector == BLOCK_SIZE as u16
        &&& self.sectors_per_cluster == 1
        &&& self.reserved_sectors == config.reserved_sectors as u16
        &&& self.fat_copies == 2
        &&& self.root_directory_entries == (config.root_dir_sectors as int * BLOCK_SIZE as int
            / 32) as u16
        &&& self.total_sectors16 == if total <= 0xFFFF {
            total as u16
        } else {
            0u16
        }
        &&& self.media_descriptor == 0xF8
        &&& self.sectors_per_fat == config.spf() as u16
        &&& self.sectors_per_track == 1
        &&& self.heads == 1
        &&& self.hidden_sectors == 0
        &&& self.total_sectors32 == if total <= 0xFFFF {
            0u32
        } else {
            total as u32
        }
        &&& self.physical_drive_num == 0
        &&& self.reserved == 0
        &&& self.extended_boot_sig == 0x29
        &&& self.volume_serial_number == 0x00420042
        &&& self.volume_label@ == text_field(config.volume_label.spec_bytes(), 11)
        &&& self.filesystem_identifier@ == text_field(config.filesystem_identifier.spec_bytes(), 8)
    }

    /// A block that describes `config` encodes to `boot_bytes_of(config)`.
    pub proof fn lemma_describes_bytes<const BLOCK_SIZE: usize>(&self, config: Config<BLOCK_SIZE>)
        requires
            self.describes(config),
        ensures
            self.bytes() == boot_bytes_of(config),
    {
    }

    /// Create a new FAT BootBlock with the provided config
    pub fn new<const BLOCK_SIZE: usize>(config: &Config<BLOCK_SIZE>) -> (r: FatBootBlock)
        requires
            config.valid(),
        ensures
            r.describes(*config),
            r.bytes() == boot_bytes_of(*config),
    {
        let total = config.num_blocks - 2;
        let (total16, total32) = if total <= 0xFFFF {
            (total as u16, 0u32)
        } else {
            (0u16, total)
        };
        let rds = config.root_dir_sectors as u64;
        let bs = BLOCK_SIZE as u64;
        assert(rds * bs <= 0xFFFF_FFFF * 32768) by (nonlinear_arith)
            requires
                rds <= 0xFFFF_FFFF,
                bs <= 32768,
        ;
        let root_entries = #[verifier::truncate] ((rds * bs / 32) as u16);
        FatBootBlock {
            jump_instruction: [0xEB, 0x3C, 0x90],
            oem_info: fill_text(config.oem_info.as_bytes()),
            bytes_per_sector: BLOCK_SIZE as u16,
            sectors_per_cluster: 1,
            reserved_sectors: #[verifier::truncate] (config.reserved_sectors as u16),
            fat_copies: 2,
            root_directory_entries: root_entries,
            total_sectors16: total16,
            media_descriptor: 0xF8,
            sectors_per_fat: #[verifier::truncate] (config.sectors_per_fat() as u16),
            sectors_per_track: 1,
            heads: 1,
            hidden_sectors: 0,
            total_sectors32: total32,
            physical_drive_num: 0,
            reserved: 0,
            extended_boot_sig: 0x29,
            volume_serial_number: 0x00420042,
            volume_label: fill_text(config.volume_label.as_bytes()),
            filesystem_identifier: fill_text(config.filesystem_identifier.as_bytes()),
        }
    }

    /// The 62 little-endian bytes of the block, in field order.
    pub open spec fn bytes(&self) -> Seq<u8> {
        self.jump_instruction@ + self.oem_info@ + le16(self.bytes_per_sector) + seq![
            self.sectors_per_cluster,
        ] + le16(self.reserved_sectors) + seq![self.fat_copies] + le16(
            self.root_directory_entries,
        ) + le16(self.total_sectors16) + seq![self.media_descriptor] + le16(self.sectors_per_fat)
            + le16(self.sectors_per_track) + le16(self.heads) + le32(self.hidden_sectors) + le32(
            self.total_sectors32,
        ) + seq![self.physical_drive_num] + seq![self.reserved] + seq![self.extended_boot_sig]
            + le32(self.volume_serial_number) + self.volume_label@ + self.filesystem_identifier@
    }

    /// Writes the encoded block to the start of `buf`.
    pub fn pack(&self, buf: &mut [u8]) -> (r: Result<(), PackError>)
        ensures
            r is Ok <==> old(buf)@.len() >= BOOT_BLOCK_BYTES,
            r is Ok ==> stored_at(old(buf)@, final(buf)@, 0, self.bytes()),
            r is Err ==> final(buf)@ == old(buf)@,
    {
        if buf.len() < BOOT_BLOCK_BYTES {
            return Err(PackError::BufferTooSmall);
        }
        let ghost start = buf@;
        let ghost mut p: Seq<u8> = Seq::empty();
        assert(buf@.subrange(0, 0) =~= p);
        assert(buf@.subrange(62, buf@.len() as int) == start.subrange(62, start.len() as int));
        let ghost before = buf@;
        put_bytes(buf, 0, self.jump_instruction.as_slice());
        proof {
            lemma_store_after_prefix(before, buf@, p, self.jump_instruction@, 62);
            p = p + self.jump_instruction@;
        }
        let ghost before = buf@;
        put_bytes(buf, 3, self.oem_info.as_slice());
        proof {
            lemma_store_after_prefix(before, buf@, p, self.oem_info@, 62);
            p = p + self.oem_info@;
        }
        let ghost before = buf@;
        put_u16(buf, 11, self.bytes_per_sector);
        proof {
            lemma_store_after_prefix(before, buf@, p, le16(self.bytes_per_sector), 62);
            p = p + le16(self.bytes_per_sector);
        }
        let ghost before = buf@;
        put_u8(buf, 13, self.sectors_per_cluster);
        proof {
            lemma_store_after_prefix(before, buf@, p, seq![self.sectors_per_cluster], 62);
            p = p + seq![self.sectors_per_cluster];
        }
        let ghost before = buf@;
        put_u16(buf, 14, self.reserved_sectors);
        proof {
            lemma_store_after_prefix(before, buf@, p, le16(self.reserved_sectors), 62);
            p = p + le16(self.reserved_sectors);
        }
        let ghost before = buf@;
        put_u8(buf, 16, self.fat_copies);
        proof {
            lemma_store_after_prefix(before, buf@, p, seq![self.fat_copies], 62);
            p = p + seq![self.fat_copies];
        }
        let ghost before = buf@;
        put_u16(buf, 17, self.root_directory_entries);
        proof {
            lemma_store_after_prefix(before, buf@, p, le16(self.root_directory_entries), 62);
            p = p + le16(self.root_directory_entries);
        }
        let ghost before = buf@;
        put_u16(buf, 19, self.total_sectors16);
        proof {
            lemma_store_after_prefix(before, buf@, p, le16(self.total_sectors16), 62);
            p = p + le16(self.total_sectors16);
        }
        let ghost before = buf@;
        put_u8(buf, 21, self.media_descriptor);
        proof {
            lemma_store_after_prefix(before, buf@, p, seq![self.media_descriptor], 62);
            p = p + seq![self.media_descriptor];
        }
        let ghost before = buf@;
        put_u16(buf, 22, self.sectors_per_fat);
        proof {
            lemma_store_after_prefix(before, buf@, p, le16(self.sectors_per_fat), 62);
            p = p + le16(self.sectors_per_fat);
        }
        let ghost before = buf@;
        put_u16(buf, 24, self.sectors_per_track);
        proof {
            lemma_store_after_prefix(before, buf@, p, le16(self.sectors_per_track), 62);
            p = p + le16(self.sectors_per_track);
        }
        let ghost before = buf@;
        put_u16(buf, 26, self.heads);
        proof {
            lemma_store_after_prefix(before, buf@, p, le16(self.heads), 62);
            p = p + le16(self.heads);
        }
        let ghost before = buf@;
        put_u32(buf, 28, self.hidden_sectors);
        proof {
            lemma_store_after_prefix(before, buf@, p, le32(self.hidden_sectors), 62);
            p = p + le32(self.hidden_sectors);
        }
        let ghost before = buf@;
        put_u32(buf, 32, self.total_sectors32);
        proof {
            lemma_store_after_prefix(before, buf@, p, le32(self.total_sectors32), 62);
            p = p + le32(self.total_sectors32);
        }
        let ghost before = buf@;
        put_u8(buf, 36, self.physical_drive_num);
        proof {
            lemma_store_after_prefix(before, buf@, p, seq![self.physical_drive_num], 62);
            p = p + seq![self.physical_drive_num];
        }
        let ghost before = buf@;
        put_u8(buf, 37, self.reserved);
        proof {
            lemma_store_after_prefix(before, buf@, p, seq![self.reserved], 62);
            p = p + seq![self.reserved];
        }
        let ghost before = buf@;
        put_u8(buf, 38, self.extended_boot_sig);
        proof {
            lemma_store_after_prefix(before, buf@, p, seq![self.extended_boot_sig], 62);
            p = p + seq![self.extended_boot_sig];
        }
        let ghost before = buf@;
        put_u32(buf, 39, self.volume_serial_number);
        proof {
            lemma_store_after_prefix(before, buf@, p, le32(self.volume_serial_number), 62);
            p = p + le32(self.volume_serial_number);
        }
        let ghost before = buf@;
        put_bytes(buf, 43, self.volume_label.as_slice());
        proof {
            lemma_store_after_prefix(before, buf@, p, self.volume_label@, 62);
            p = p + self.volume_label@;
        }
        let ghost before = buf@;
        put_bytes(buf, 54, self.filesystem_identifier.as_slice());
        proof {
            lemma_store_after_prefix(before, buf@, p, self.filesystem_identifier@, 62);
            p = p + self.filesystem_identifier@;
        }
        assert(p =~= self.bytes());
        assert(buf@.subrange(0, 0) =~= start.subrange(0, 0));
        Ok(())
    }
}

} // verus!
