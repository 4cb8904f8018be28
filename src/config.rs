//! Volume parameters and the sector layout derived from them.
use vstd::prelude::*;

use crate::boot::{boot_bytes_of, FatBootBlock, BOOT_BLOCK_BYTES};
use crate::encode::stored_at;

verus! {

/// Parameters of the virtual volume; `BLOCK_SIZE` is the sector size in bytes.
#[verifier::reject_recursive_types(BLOCK_SIZE)]
pub struct Config<const BLOCK_SIZE: usize> {
    /// Number of blocks in the file system
    pub num_blocks: u32,
    /// Sectors before the first FAT (the boot block among them)
    pub reserved_sectors: u32,
    /// Sectors given to the root directory
    pub root_dir_sectors: u32,
    /// OEM info, defaults to "UF2 UF2"
    pub oem_info: &'static str,
    /// Volume label, defaults to "GHOSTFAT"
    pub volume_label: &'static str,
    /// File system identifier, defaults to "FAT16"
    pub filesystem_identifier: &'static str,
}

impl<const BLOCK_SIZE: usize> Default for Config<BLOCK_SIZE> {
    fn default() -> (r: Self)
        ensures
            r.num_blocks == 8000,
            r.reserved_sectors == 1,
            r.root_dir_sectors == 4,
            r.oem_info == "UF2 UF2",
            r.volume_label == "GHOSTFAT",
            r.filesystem_identifier == "FAT16",
    {
        Config {
            num_blocks: 8000,
            reserved_sectors: 1,
            root_dir_sectors: 4,
            oem_info: "UF2 UF2",
            volume_label: "GHOSTFAT",
            filesystem_identifier: "FAT16",
        }
    }
}

impl<const BLOCK_SIZE: usize> Config<BLOCK_SIZE> {
    /// Sectors of one FAT: two bytes per block, rounded up to whole sectors.
    pub open spec fn spf(&self) -> int {
        (self.num_blocks as int * 2 + BLOCK_SIZE as int - 1) / BLOCK_SIZE as int
    }

    pub open spec fn fat0(&self) -> int {
        self.reserved_sectors as int
    }

    pub open spec fn fat1(&self) -> int {
        self.fat0() + self.spf()
    }

    pub open spec fn rootdir(&self) -> int {
        self.fat1() + self.spf()
    }

    pub open spec fn clusters(&self) -> int {
        self.rootdir() + self.root_dir_sectors as int
    }

    /// Every offset of the layout can be computed in 32 bits.
    pub open spec fn layout_fits(&self) -> bool {
        &&& 0 < BLOCK_SIZE <= u32::MAX
        &&& self.num_blocks as int * 2 + BLOCK_SIZE as int - 1 <= u32::MAX
        &&& self.clusters() <= u32::MAX
    }

    /// A configuration the file system can be built on.
    pub open spec fn valid(&self) -> bool {
        &&& self.layout_fits()
        &&& 512 <= BLOCK_SIZE <= 32768
        &&& BLOCK_SIZE % 2 == 0
        &&& self.reserved_sectors >= 1
        &&& self.clusters() < self.num_blocks
    }

    /// Whether the file system can be built on this configuration.
    pub fn is_valid(&self) -> (r: bool)
        ensures
            r == self.valid(),
    {
        if BLOCK_SIZE < 512 || BLOCK_SIZE > 32768 || BLOCK_SIZE % 2 != 0 {
            return false;
        }
        let bs = BLOCK_SIZE as u64;
        let x = self.num_blocks as u64 * 2 + bs - 1;
        if x > u32::MAX as u64 {
            return false;
        }
        let spf = x / bs;
        let clusters = self.reserved_sectors as u64 + spf + spf + self.root_dir_sectors as u64;
        clusters <= u32::MAX as u64 && self.reserved_sectors >= 1 && clusters < self.num_blocks
            as u64
    }

    /// Fetch the block/sector size
    pub fn sector_size(&self) -> (r: u32)
        ensures
            r == BLOCK_SIZE as u32,
    {
        BLOCK_SIZE as u32
    }

    /// Calculate number of sectors per FAT
    pub fn sectors_per_fat(&self) -> (r: u32)
        requires
            0 < BLOCK_SIZE <= u32::MAX,
            self.num_blocks as int * 2 + BLOCK_SIZE as int - 1 <= u32::MAX,
        ensures
            r == self.spf(),
    {
        let bs = BLOCK_SIZE as u32;
        assert(bs == BLOCK_SIZE);
        (self.num_blocks * 2 + (bs - 1)) / bs
    }

    /// Calculate FAT0 start
    pub fn start_fat0(&self) -> (r: u32)
        ensures
            r == self.fat0(),
    {
        self.reserved_sectors
    }

    /// Calculate FAT1 start
    pub fn start_fat1(&self) -> (r: u32)
        requires
            self.layout_fits(),
        ensures
            r == self.fat1(),
    {
        self.start_fat0() + self.sectors_per_fat()
    }

    /// Calculate ROOTDIR start
    pub fn start_rootdir(&self) -> (r: u32)
        requires
            self.layout_fits(),
        ensures
            r == self.rootdir(),
    {
        self.start_fat1() + self.sectors_per_fat()
    }

    /// Calculate cluster start
    pub fn start_clusters(&self) -> (r: u32)
        requires
            self.layout_fits(),
        ensures
            r == self.clusters(),
    {
        self.start_rootdir() + self.root_dir_sectors
    }

    /// Encode config to boot block
    pub fn encode(&self, block: &mut [u8])
        requires
            self.valid(),
            old(block)@.len() >= BOOT_BLOCK_BYTES,
        ensures
            stored_at(old(block)@, final(block)@, 0, boot_bytes_of(*self)),
    {
        let boot = FatBootBlock::new(self);
        let _ = boot.pack(block);
    }
}

} // verus!
