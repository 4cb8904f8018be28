//! A virtual FAT16 volume synthesised block by block from a fixed set of files.
use vstd::prelude::*;

pub mod boot;
pub mod config;
pub mod dir;
pub mod encode;
pub mod file;
pub mod image;
pub mod laws;

pub use crate::boot::FatBootBlock;
pub use crate::config::Config;
pub use crate::dir::DirectoryEntry;
pub use crate::encode::PackError;
pub use crate::file::{Attrs, DynamicFile, File, FileContent, FileError};

use crate::boot::{boot_bytes_of, text_field, BOOT_BLOCK_BYTES};
use crate::dir::DIR_ENTRY_BYTES;
use crate::encode::zeros;
use crate::file::{chunk_of, ASCII_SPACE, ATTR_ARCHIVE, ATTR_VOLUME_LABEL};
use crate::image::{
    boot_sector, disk_block, fat_byte_upto, fat_sector, file_entry, files_fit, lemma_chain_step,
    lemma_chunk_len, lemma_locate_bounds, lemma_locate_found, lemma_root_entries_len,
    lemma_same_layout_start, lemma_start_cluster_mono, locate, padded, root_entries, root_sector,
    same_layout, start_cluster, write_target,
};
use vstd::arithmetic::div_mod::lemma_fundamental_div_mod;
use vstd::string::StringSliceAdditionalSpecFns;

verus! {

/// Errors reported to the block transport.
#[derive(Clone, Copy, Debug, PartialEq, Eq, Structural)]
pub enum BlockDeviceError {
    /// A write reached a read-only file.
    WriteError,
}

/// Virtual FAT16 File System
#[verifier::reject_recursive_types(BLOCK_SIZE)]
pub struct GhostFat<'a, const BLOCK_SIZE: usize> {
    config: Config<BLOCK_SIZE>,
    fat_boot_block: FatBootBlock,
    fat_files: &'a mut [File<'a, BLOCK_SIZE>],
}

impl<'a, const BLOCK_SIZE: usize> GhostFat<'a, BLOCK_SIZE> {
    /// The volume's configuration.
    pub closed spec fn config(&self) -> Config<BLOCK_SIZE> {
        self.config
    }

    /// The files, in declaration order.
    pub closed spec fn files(&self) -> Seq<File<'a, BLOCK_SIZE>> {
        self.fat_files@
    }

    /// The boot block matches the configuration, and both configuration and files are
    /// ones the volume can be built on.
    pub closed spec fn wf(&self) -> bool {
        &&& self.config.valid()
        &&& self.fat_boot_block.describes(self.config)
        &&& files_fit(self.fat_files@)
    }

    /// Create a new file system instance with the provided files and configuration
    pub fn new(files: &'a mut [File<'a, BLOCK_SIZE>], config: Config<BLOCK_SIZE>) -> (r: Self)
        requires
            config.valid(),
            files_fit(old(files)@),
        ensures
            r.wf(),
            r.config() == config,
            r.files() == old(files)@,
    {
        GhostFat { fat_boot_block: FatBootBlock::new(&config), fat_files: files, config }
    }

    /// Whether a file system can be built on `files` and `config`: the configuration is
    /// valid, every name has a short form, the root directory's first sector holds all
    /// entries and the clusters can be counted in 32 bits.
    pub fn accepts(files: &[File<'a, BLOCK_SIZE>], config: &Config<BLOCK_SIZE>) -> (r: bool)
        ensures
            r == (config.valid() && files_fit(files@)),
    {
        if !config.is_valid() {
            return false;
        }
        if files.len() >= BLOCK_SIZE / 32 {
            return false;
        }
        let mut cluster: u64 = 2;
        let mut i: usize = 0;
        while i < files.len()
            invariant
                config.valid(),
                (files@.len() + 1) * 32 <= BLOCK_SIZE,
                i <= files@.len(),
                cluster == start_cluster(files@, i as nat),
                cluster <= u32::MAX,
                forall|j: int| 0 <= j < i ==> (#[trigger] files@[j]).spec_short_name() is Some,
            decreases files@.len() - i,
        {
            if files[i].short_name().is_err() {
                return false;
            }
            let n = files[i].num_blocks() as u64;
            if n > u32::MAX as u64 - cluster {
                proof {
                    lemma_start_cluster_mono(files@, (i + 1) as nat, files@.len());
                }
                return false;
            }
            cluster = cluster + n;
            i += 1;
        }
        true
    }

    /// Report the maximum block index for the file system
    pub fn max_lba(&self) -> (r: u32)
        requires
            self.wf(),
        ensures
            r == self.config().num_blocks - 1,
    {
        self.config.num_blocks - 1
    }

    /// Writes the first root directory sector to a zeroed `block`.
    fn read_root(&self, block: &mut [u8])
        requires
            self.wf(),
            old(block)@ == zeros(BLOCK_SIZE as nat),
        ensures
            final(block)@ == root_sector(
                self.files(),
                text_field(self.config().volume_label.spec_bytes(), 11),
            ),
    {
        let ghost files = self.fat_files@;
        let ghost label = self.fat_boot_block.volume_label@;
        let label_entry = DirectoryEntry {
            name: self.fat_boot_block.volume_label,
            attrs: ATTR_VOLUME_LABEL | ATTR_ARCHIVE,
            reserved: 0,
            create_time_fine: 0,
            create_time: 0,
            create_date: 0,
            last_access_date: 0,
            high_start_cluster: 0,
            update_time: 0,
            update_date: 0,
            start_cluster: 0,
            size: 0,
        };
        label_entry.pack_at(block, 0);
        proof {
            assert(label_entry.bytes() =~= root_entries(files, label, 0));
            assert(block@.subrange(0, 32) == root_entries(files, label, 0));
            assert(block@.subrange(32, BLOCK_SIZE as int) =~= zeros((BLOCK_SIZE - 32) as nat));
        }
        let mut cluster: usize = 2;
        let mut i: usize = 0;
        while i < self.fat_files.len()
            invariant
                self.wf(),
                files == self.fat_files@,
                label == self.fat_boot_block.volume_label@,
                label.len() == 11,
                i <= files.len(),
                block@.len() == BLOCK_SIZE,
                cluster == start_cluster(files, i as nat),
                block@.subrange(0, 32 * (i + 1)) == root_entries(files, label, i as nat),
                block@.subrange(32 * (i + 1), BLOCK_SIZE as int) == zeros(
                    (BLOCK_SIZE - 32 * (i + 1)) as nat,
                ),
            decreases files.len() - i,
        {
            proof {
                lemma_start_cluster_mono(files, (i + 1) as nat, files.len());
                lemma_root_entries_len(files, label, i as nat);
                assert(files[i as int].spec_short_name() is Some);
            }
            let f = &self.fat_files[i];
            let name = match f.short_name() {
                Ok(n) => n,
                Err(_) => [ASCII_SPACE; 11],
            };
            let entry = DirectoryEntry {
                name,
                attrs: f.attrs().bits(),
                reserved: 0,
                create_time_fine: 0,
                create_time: 0,
                create_date: 0,
                last_access_date: 0,
                high_start_cluster: 0,
                update_time: 0,
                update_date: 0,
                start_cluster: #[verifier::truncate] (cluster as u16),
                size: #[verifier::truncate] (f.len() as u32),
            };
            assert(entry.bytes() =~= file_entry(files, i as nat));
            let ghost before = block@;
            entry.pack_at(block, DIR_ENTRY_BYTES * (i + 1));
            proof {
                crate::encode::lemma_store_after_prefix(
                    before,
                    block@,
                    root_entries(files, label, i as nat),
                    entry.bytes(),
                    32 * (i + 2),
                );
                assert(block@.subrange(32 * (i + 2), BLOCK_SIZE as int) =~= zeros(
                    (BLOCK_SIZE - 32 * (i + 2)) as nat,
                )) by {
                    let lo = 32 * (i + 2);
                    assert forall|t: int| 0 <= t < BLOCK_SIZE - lo implies #[trigger] block@.subrange(
                        lo,
                        BLOCK_SIZE as int,
                    )[t] == 0u8 by {
                        assert(before.subrange(32 * (i + 1), BLOCK_SIZE as int)[t + 32] == 0u8);
                    }
                }
            }
            cluster = cluster + f.num_blocks();
            i += 1;
        }
        proof {
            lemma_root_entries_len(files, label, files.len());
        }
        assert(block@ =~= block@.subrange(0, 32 * (i + 1)) + block@.subrange(
            32 * (i + 1),
            BLOCK_SIZE as int,
        ));
    }

    /// The file and the block within it that data sector `section` belongs to.
    fn find_file(&self, section: usize) -> (r: Option<(usize, usize)>)
        requires
            self.wf(),
        ensures
            r is None <==> locate(self.files(), self.files().len(), section as nat) is None,
            r matches Some((i, k)) ==> locate(self.files(), self.files().len(), section as nat)
                == Some((i as nat, k as nat)) && i < self.files().len(),
    {
        proof {
            lemma_locate_bounds(self.fat_files@, self.fat_files@.len(), section as nat);
        }
        let ghost files = self.fat_files@;
        let mut block_index: usize = 0;
        let mut i: usize = 0;
        while i < self.fat_files.len()
            invariant
                self.wf(),
                files == self.fat_files@,
                i <= files.len(),
                block_index + 2 == start_cluster(files, i as nat),
                section + 2 >= start_cluster(files, i as nat),
                locate(files, i as nat, section as nat) is None,
            decreases files.len() - i,
        {
            proof {
                lemma_start_cluster_mono(files, (i + 1) as nat, files.len());
            }
            let n = self.fat_files[i].num_blocks();
            if section < block_index + n {
                proof {
                    lemma_locate_found(files, i as nat, section as nat, files.len());
                }
                return Some((i, section - block_index));
            }
            block_index = block_index + n;
            i += 1;
        }
        None
    }

    /// Writes data sector `section` (counted from the first cluster) to a zeroed `block`.
    fn read_data(&self, section: usize, block: &mut [u8])
        requires
            self.wf(),
            old(block)@ == zeros(BLOCK_SIZE as nat),
        ensures
            match locate(self.files(), self.files().len(), section as nat) {
                None => final(block)@ == zeros(BLOCK_SIZE as nat),
                Some((i, k)) => !(self.files()[i as int].data is Dynamic) ==> final(block)@
                    == padded(
                    chunk_of(self.files()[i as int].content(), k, BLOCK_SIZE as nat),
                    BLOCK_SIZE as nat,
                ),
            },
    {
        let ghost files = self.fat_files@;
        proof {
            lemma_locate_bounds(files, files.len(), section as nat);
        }
        if let Some((i, offset)) = self.find_file(section) {
            let ghost before = block@;
            let _ = self.fat_files[i].chunk(offset, block);
            proof {
                if !(files[i as int].data is Dynamic) {
                    let piece = chunk_of(files[i as int].content(), offset as nat, BLOCK_SIZE as nat);
                    lemma_chunk_len(files[i as int].content(), offset as nat, BLOCK_SIZE as nat);
                    assert(piece.subrange(0, piece.len() as int) =~= piece);
                    assert forall|t: int| 0 <= t < BLOCK_SIZE implies block@[t] == padded(
                        piece,
                        BLOCK_SIZE as nat,
                    )[t] by {
                        if t < piece.len() {
                            assert(block@.subrange(0, piece.len() as int)[t] == block@[t]);
                        } else {
                            assert(block@.subrange(piece.len() as int, BLOCK_SIZE as int)[t
                                - piece.len()] == block@[t]);
                            assert(before.subrange(piece.len() as int, BLOCK_SIZE as int)[t
                                - piece.len()] == before[t]);
                        }
                    }
                    assert(block@ =~= padded(piece, BLOCK_SIZE as nat));
                }
            }
        }
    }

    /// Read a file system block
    pub fn read_block(&self, lba: u32, block: &mut [u8]) -> (r: Result<(), BlockDeviceError>)
        requires
            self.wf(),
            old(block)@.len() == BLOCK_SIZE,
        ensures
            r is Ok,
            disk_block(self.config(), self.files(), lba as nat) matches Some(b) ==> final(block)@
                == b,
    {
        let n = block.len();
        let mut j: usize = 0;
        while j < n
            invariant
                block@.len() == n,
                n == BLOCK_SIZE,
                j <= n,
                forall|t: int| 0 <= t < j ==> block@[t] == 0u8,
            decreases n - j,
        {
            block[j] = 0;
            j += 1;
        }
        assert(block@ =~= zeros(BLOCK_SIZE as nat));
        if lba == 0 {
            let ghost before = block@;
            let _ = self.fat_boot_block.pack(block);
            block[510] = 0x55;
            block[511] = 0xAA;
            proof {
                self.fat_boot_block.lemma_describes_bytes(self.config);
                let b = boot_bytes_of(self.config);
                assert(b.len() == BOOT_BLOCK_BYTES);
                assert forall|t: int| 0 <= t < BLOCK_SIZE implies block@[t] == boot_sector(
                    self.config,
                )[t] by {
                    if t < 62 {
                        assert(block@.subrange(0, 62)[t] == block@[t]);
                    } else if t < 510 || t >= 512 {
                        assert(block@.subrange(62, BLOCK_SIZE as int)[t - 62] == block@[t]);
                        assert(before.subrange(62, BLOCK_SIZE as int)[t - 62] == before[t]);
                    }
                }
                assert(block@ =~= boot_sector(self.config));
            }
        } else if lba < self.config.start_fat0() {
        } else if lba < self.config.start_rootdir() {
            let mut section = lba - self.config.start_fat0();
            // The two FAT copies are identical: wrap the second onto the first.
            if section >= self.config.sectors_per_fat() {
                section = section - self.config.sectors_per_fat();
            }
            proof {
                let spf = self.config.spf();
                let x = self.config.num_blocks as int * 2 + BLOCK_SIZE as int - 1;
                lemma_fundamental_div_mod(x, BLOCK_SIZE as int);
                assert((section + 1) * (BLOCK_SIZE / 2) <= u32::MAX) by (nonlinear_arith)
                    requires
                        section < spf,
                        x == BLOCK_SIZE * spf + x % (BLOCK_SIZE as int),
                        x % (BLOCK_SIZE as int) >= 0,
                        x <= u32::MAX,
                        BLOCK_SIZE >= 512,
                ;
            }
            Self::fat(section as usize, &*self.fat_files, block);
        } else if lba < self.config.start_clusters() {
            if lba == self.config.start_rootdir() {
                self.read_root(block);
            }
        } else {
            let section = (lba - self.config.start_clusters()) as usize;
            self.read_data(section, block);
        }
        Ok(())
    }

    /// Write a file system block
    pub fn write_block(&mut self, lba: u32, block: &[u8]) -> (r: Result<(), BlockDeviceError>)
        requires
            old(self).wf(),
        ensures
            final(self).wf(),
            final(self).config() == old(self).config(),
            final(self).files().len() == old(self).files().len(),
            match write_target(old(self).config(), old(self).files(), lba as nat) {
                None => r is Ok && final(self).files() == old(self).files(),
                Some((i, k)) => {
                    let before = old(self).files()[i as int];
                    let after = final(self).files()[i as int];
                    &&& forall|j: int|
                        0 <= j < old(self).files().len() && j != i ==> final(self).files()[j]
                            == old(self).files()[j]
                    &&& before.data is Read ==> r == Err::<(), BlockDeviceError>(
                        BlockDeviceError::WriteError,
                    ) && after == before
                    &&& before.data is Dynamic ==> r is Ok && after == before
                    &&& before.data is Write ==> r is Ok && after.name == before.name
                        && after.data is Write && after.content() == crate::file::write_chunk_of(
                        before.content(),
                        k,
                        BLOCK_SIZE as nat,
                        block@,
                    )
                },
            },
    {
        if lba < self.config.start_clusters() {
            // The boot block, the FATs and the root directory are synthesised from the
            // fixed file table; writes to them are ignored.
            return Ok(());
        }
        let section = (lba - self.config.start_clusters()) as usize;
        let ghost files = self.fat_files@;
        match self.find_file(section) {
            None => Ok(()),
            Some((i, offset)) => {
                let r = Self::write_file(&mut *self.fat_files, i, offset, block);
                proof {
                    assert(same_layout(files, self.fat_files@));
                    lemma_same_layout_start(files, self.fat_files@, files.len());
                    assert forall|j: int| 0 <= j < self.fat_files@.len() implies (
                    #[trigger] self.fat_files@[j]).spec_short_name() is Some by {
                        assert(files[j].spec_short_name() is Some);
                    }
                }
                r
            },
        }
    }

    /// Writes `block` over block `offset` of file `i`; a read-only file refuses it.
    fn write_file(files: &mut [File<'a, BLOCK_SIZE>], i: usize, offset: usize, block: &[u8]) -> (r:
        Result<(), BlockDeviceError>)
        requires
            BLOCK_SIZE > 0,
            i < old(files)@.len(),
        ensures
            final(files)@.len() == old(files)@.len(),
            forall|j: int|
                0 <= j < old(files)@.len() && j != i ==> final(files)@[j] == old(files)@[j],
            final(files)@[i as int].name == old(files)@[i as int].name,
            final(files)@[i as int].spec_len() == old(files)@[i as int].spec_len(),
            old(files)@[i as int].data is Read ==> r == Err::<(), BlockDeviceError>(
                BlockDeviceError::WriteError,
            ) && final(files)@[i as int] == old(files)@[i as int],
            old(files)@[i as int].data is Dynamic ==> r is Ok && final(files)@[i as int] == old(
                files,
            )@[i as int],
            old(files)@[i as int].data is Write ==> r is Ok && final(files)@[i as int].data is Write
                && final(files)@[i as int].content() == crate::file::write_chunk_of(
                old(files)@[i as int].content(),
                offset as nat,
                BLOCK_SIZE as nat,
                block@,
            ),
    {
        let (_, rest) = files.split_at_mut(i);
        match rest.first_mut() {
            Some(f) => {
                let read_only = match &f.data {
                    FileContent::Read(_) => true,
                    _ => false,
                };
                let n = f.chunk_mut(offset, block);
                if n == 0 && read_only {
                    Err(BlockDeviceError::WriteError)
                } else {
                    Ok(())
                }
            },
            None => Ok(()),
        }
    }

    /// Writes FAT sector `id` of `files` to `block`.
    pub fn fat(id: usize, files: &[File<'a, BLOCK_SIZE>], block: &mut [u8])
        requires
            4 <= BLOCK_SIZE,
            BLOCK_SIZE % 2 == 0,
            old(block)@.len() == BLOCK_SIZE,
            (id + 1) * (BLOCK_SIZE / 2) <= usize::MAX,
            start_cluster(files@, files@.len()) <= usize::MAX,
        ensures
            final(block)@ == fat_sector(files@, id as nat),
    {
        let half = BLOCK_SIZE / 2;
        assert(id * half + half == (id + 1) * half) by (nonlinear_arith);
        let base = id * half;
        let limit = base + half;
        assert(id >= 1 ==> base >= 2) by (nonlinear_arith)
            requires
                base == id * half,
                half >= 2,
        ;
        let ghost files_s = files@;

        let mut j: usize = 0;
        while j < BLOCK_SIZE
            invariant
                block@.len() == BLOCK_SIZE,
                j <= BLOCK_SIZE,
                forall|t: int| 0 <= t < j ==> block@[t] == 0u8,
            decreases BLOCK_SIZE - j,
        {
            block[j] = 0;
            j += 1;
        }
        // Clusters 0 and 1 hold the media marker and the end marker.
        if id == 0 {
            block[0] = 0xF0;
            block[1] = 0xFF;
            block[2] = 0xFF;
            block[3] = 0xFF;
        }
        assert forall|t: int| 0 <= t < BLOCK_SIZE implies block@[t] == fat_byte_upto(
            files_s,
            0,
            id as nat,
            t,
        ) by {
            if id == 0 {
                assert(base == 0);
            }
        }

        let mut start: usize = 2;
        let mut i: usize = 0;
        while i < files.len()
            invariant
                files@ == files_s,
                4 <= BLOCK_SIZE,
                BLOCK_SIZE % 2 == 0,
                block@.len() == BLOCK_SIZE,
                half == BLOCK_SIZE / 2,
                base == id * half,
                limit == base + half,
                id >= 1 ==> base >= 2,
                i <= files@.len(),
                start == start_cluster(files_s, i as nat),
                start_cluster(files_s, files_s.len()) <= usize::MAX,
                forall|t: int|
                    0 <= t < BLOCK_SIZE ==> block@[t] == fat_byte_upto(
                        files_s,
                        i as nat,
                        id as nat,
                        t,
                    ),
            decreases files@.len() - i,
        {
            proof {
                lemma_start_cluster_mono(files_s, (i + 1) as nat, files_s.len());
                lemma_start_cluster_mono(files_s, 0, i as nat);
            }
            let n = files[i].num_blocks();
            let end = start + n;
            let lo = if start > base {
                start
            } else {
                base
            };
            let hi = if end < limit {
                end
            } else {
                limit
            };
            let mut c = lo;
            while c < hi
                invariant
                    files@ == files_s,
                    block@.len() == BLOCK_SIZE,
                    BLOCK_SIZE % 2 == 0,
                    half == BLOCK_SIZE / 2,
                    base == id * half,
                    limit == base + half,
                    id >= 1 ==> base >= 2,
                    i < files@.len(),
                    start == start_cluster(files_s, i as nat),
                    end == start + files_s[i as int].blocks(),
                    start >= 2,
                    lo >= start,
                    lo >= base,
                    hi <= end,
                    hi <= limit,
                    lo <= c,
                    c <= hi || c == lo,
                    forall|t: int|
                        0 <= t < BLOCK_SIZE ==> block@[t] == if lo <= base + t / 2 < c {
                            fat_byte_upto(files_s, (i + 1) as nat, id as nat, t)
                        } else {
                            fat_byte_upto(files_s, i as nat, id as nat, t)
                        },
                decreases hi - c,
            {
                let v: u16 = if c + 1 == end {
                    0xFFFF
                } else {
                    #[verifier::truncate]
                    ((c + 1) as u16)
                };
                let off = 2 * (c - base);
                block[off] = (v % 256) as u8;
                block[off + 1] = (v / 256) as u8;
                proof {
                    assert forall|t: int| 0 <= t < BLOCK_SIZE implies block@[t] == if lo <= base
                        + t / 2 < c + 1 {
                        fat_byte_upto(files_s, (i + 1) as nat, id as nat, t)
                    } else {
                        fat_byte_upto(files_s, i as nat, id as nat, t)
                    } by {
                        lemma_chain_step(files_s, i as nat, (base + t / 2) as nat);
                    }
                }
                c += 1;
            }
            proof {
                assert forall|t: int| 0 <= t < BLOCK_SIZE implies block@[t] == fat_byte_upto(
                    files_s,
                    (i + 1) as nat,
                    id as nat,
                    t,
                ) by {
                    assert(t / 2 < half);
                    assert(c >= hi);
                    lemma_chain_step(files_s, i as nat, (base + t / 2) as nat);
                }
            }
            start = end;
            i += 1;
        }
        assert(block@ =~= fat_sector(files_s, id as nat));
    }
}

} // verus!
