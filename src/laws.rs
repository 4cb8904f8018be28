//! Properties of the synthesised volume that relate several blocks or several calls.
use vstd::prelude::*;
use vstd::string::StringSliceAdditionalSpecFns;

use crate::boot::text_field;
use crate::config::Config;
use crate::encode::{le16, le32};
use crate::file::{blocks_for, chunk_of, lemma_piece_start, write_chunk_of, File};
use crate::image::{
    boot_sector, disk_block, file_entry, files_fit, lemma_locate_bounds, lemma_locate_found,
    lemma_root_entries_len, lemma_same_layout_locate, locate, padded, root_entries, root_sector,
    same_layout, start_cluster, write_target,
};

verus! {

/// Block 0 carries what a FAT16 driver reads to mount the volume: the jump instruction,
/// the sector size, one sector per cluster, the reserved sectors, two FATs of
/// `sectors_per_fat` sectors, the media byte, the extended boot signature, the file system
/// identifier and the 0x55 0xAA signature at bytes 510 and 511.
pub proof fn lemma_boot_sector_fields<'a, const BLOCK_SIZE: usize>(
    config: Config<BLOCK_SIZE>,
    files: Seq<File<'a, BLOCK_SIZE>>,
)
    requires
        config.valid(),
    ensures
        disk_block(config, files, 0) == Some(boot_sector(config)),
        boot_sector(config).len() == BLOCK_SIZE,
        boot_sector(config).subrange(0, 3) == seq![0xEBu8, 0x3Cu8, 0x90u8],
        boot_sector(config).subrange(11, 13) == le16(BLOCK_SIZE as u16),
        boot_sector(config)[13] == 1,
        boot_sector(config).subrange(14, 16) == le16(config.reserved_sectors as u16),
        boot_sector(config)[16] == 2,
        boot_sector(config)[21] == 0xF8,
        boot_sector(config).subrange(22, 24) == le16(config.spf() as u16),
        boot_sector(config)[38] == 0x29,
        boot_sector(config).subrange(39, 43) == le32(0x00420042),
        boot_sector(config).subrange(54, 62) == text_field(
            config.filesystem_identifier.spec_bytes(),
            8,
        ),
        boot_sector(config)[510] == 0x55,
        boot_sector(config)[511] == 0xAA,
{
    let b = boot_sector(config);
    assert(b.subrange(0, 3) =~= seq![0xEBu8, 0x3Cu8, 0x90u8]);
    assert(b.subrange(11, 13) =~= le16(BLOCK_SIZE as u16));
    assert(b.subrange(14, 16) =~= le16(config.reserved_sectors as u16));
    assert(b.subrange(22, 24) =~= le16(config.spf() as u16));
    assert(b.subrange(39, 43) =~= le32(0x00420042));
    assert(b.subrange(54, 62) =~= text_field(config.filesystem_identifier.spec_bytes(), 8));
}

/// The two FAT copies are identical: sector `s` of the first FAT and sector `s` of the
/// second read the same.
pub proof fn lemma_fat_copies_equal<'a, const BLOCK_SIZE: usize>(
    config: Config<BLOCK_SIZE>,
    files: Seq<File<'a, BLOCK_SIZE>>,
    s: nat,
)
    requires
        config.valid(),
        s < config.spf(),
    ensures
        disk_block(config, files, (config.fat0() + s) as nat) == disk_block(
            config,
            files,
            (config.fat1() + s) as nat,
        ),
{
}

/// Block `k` of file `i` sits at cluster `start_cluster(files, i) + k` and reads as the
/// `k`-th block-sized piece of the file's bytes, padded with zeros.
pub proof fn lemma_file_block<'a, const BLOCK_SIZE: usize>(
    config: Config<BLOCK_SIZE>,
    files: Seq<File<'a, BLOCK_SIZE>>,
    i: nat,
    k: nat,
)
    requires
        config.valid(),
        i < files.len(),
        k < files[i as int].blocks(),
        !(files[i as int].data is Dynamic),
    ensures
        disk_block(config, files, (config.clusters() + start_cluster(files, i) - 2 + k) as nat)
            == Some(
            padded(chunk_of(files[i as int].content(), k, BLOCK_SIZE as nat), BLOCK_SIZE as nat),
        ),
{
    crate::image::lemma_start_cluster_mono(files, 0, i);
    lemma_locate_found(
        files,
        i,
        (start_cluster(files, i) - 2 + k) as nat,
        files.len(),
    );
}

/// Without dynamic files every block of the volume is determined by the configuration
/// and the files' names, attributes and bytes.
pub proof fn lemma_blocks_determined<'a, const BLOCK_SIZE: usize>(
    config: Config<BLOCK_SIZE>,
    files: Seq<File<'a, BLOCK_SIZE>>,
    lba: nat,
)
    requires
        forall|i: int| 0 <= i < files.len() ==> !(#[trigger] files[i].data is Dynamic),
    ensures
        disk_block(config, files, lba) is Some,
{
    if lba >= config.clusters() {
        lemma_locate_bounds(files, files.len(), (lba - config.clusters()) as nat);
    }
}

/// Writing a full block over a block of a buffer-backed writable file, then reading that
/// block back, gives the written bytes up to the end of the file, then zeros.
pub proof fn lemma_write_then_read<'a, 'b, const BLOCK_SIZE: usize>(
    config: Config<BLOCK_SIZE>,
    before: Seq<File<'a, BLOCK_SIZE>>,
    after: Seq<File<'b, BLOCK_SIZE>>,
    lba: nat,
    data: Seq<u8>,
    i: nat,
    k: nat,
)
    requires
        config.valid(),
        data.len() == BLOCK_SIZE,
        write_target(config, before, lba) == Some((i, k)),
        before[i as int].data is Write,
        after.len() == before.len(),
        forall|j: int| 0 <= j < before.len() && j != i ==> after[j] == before[j],
        after[i as int].data is Write,
        after[i as int].content() == write_chunk_of(
            before[i as int].content(),
            k,
            BLOCK_SIZE as nat,
            data,
        ),
    ensures
        disk_block(config, after, lba) == Some(
            padded(
                data.subrange(
                    0,
                    chunk_of(before[i as int].content(), k, BLOCK_SIZE as nat).len() as int,
                ),
                BLOCK_SIZE as nat,
            ),
        ),
{
    let bs = BLOCK_SIZE as nat;
    let d = (lba - config.clusters()) as nat;
    lemma_locate_bounds(before, before.len(), d);
    let c = before[i as int].content();
    let piece = chunk_of(c, k, bs);
    assert(blocks_for(c.len(), bs) == before[i as int].blocks());
    lemma_piece_start(c.len(), bs, k);
    crate::image::lemma_chunk_len(c, k, bs);
    assert((k + 1) * bs == k * bs + bs) by (nonlinear_arith);
    let n = piece.len();
    let written = write_chunk_of(c, k, bs, data);
    assert(written.len() == c.len());
    assert(same_layout(before, after)) by {
        assert forall|j: int| 0 <= j < before.len() implies (#[trigger] before[j]).spec_len()
            == after[j].spec_len() by {
            if j != i {
                assert(after[j] == before[j]);
            }
        }
    }
    lemma_same_layout_locate(before, after, after.len(), d);
    assert(chunk_of(written, k, bs) =~= data.subrange(0, n as int));
}

/// The root directory lists the files in declaration order: after the volume label, the
/// `i`-th entry describes file `i`, whose first cluster is 2 plus the blocks of the files
/// before it.
pub proof fn lemma_root_order<'a, const BLOCK_SIZE: usize>(
    files: Seq<File<'a, BLOCK_SIZE>>,
    label: Seq<u8>,
    i: nat,
)
    requires
        files_fit(files),
        label.len() == 11,
        i < files.len(),
    ensures
        root_sector(files, label).subrange((32 * (i + 1)) as int, (32 * (i + 2)) as int) == file_entry(files, i),
        start_cluster(files, i + 1) == start_cluster(files, i) + files[i as int].blocks(),
        start_cluster(files, 0) == 2,
{
    lemma_root_prefix(files, label, i + 1, files.len());
    lemma_root_entries_len(files, label, i);
    lemma_root_entries_len(files, label, files.len());
    let e = root_entries(files, label, files.len());
    let sector = root_sector(files, label);
    let p = root_entries(files, label, i + 1);
    assert(p == root_entries(files, label, i) + file_entry(files, i));
    assert(sector.subrange((32 * (i + 1)) as int, (32 * (i + 2)) as int) =~= file_entry(files, i)) by {
        assert forall|t: int| 0 <= t < 32 implies sector.subrange((32 * (i + 1)) as int, (32 * (i + 2)) as int)[t]
            == file_entry(files, i)[t] by {
            assert(e.subrange(0, (32 * (i + 2)) as int)[32 * (i + 1) + t] == e[32 * (i + 1) + t]);
            assert(p[32 * (i + 1) + t] == file_entry(files, i)[t]);
        }
    }
}

/// The entries of the first `k` files start the entries of the first `m`.
pub proof fn lemma_root_prefix<'a, const BLOCK_SIZE: usize>(
    files: Seq<File<'a, BLOCK_SIZE>>,
    label: Seq<u8>,
    k: nat,
    m: nat,
)
    requires
        files_fit(files),
        label.len() == 11,
        k <= m <= files.len(),
    ensures
        root_entries(files, label, m).subrange(0, (32 * (k + 1)) as int) == root_entries(files, label, k),
    decreases m - k,
{
    lemma_root_entries_len(files, label, k);
    lemma_root_entries_len(files, label, m);
    if k == m {
        assert(root_entries(files, label, m).subrange(0, (32 * (k + 1)) as int) =~= root_entries(
            files,
            label,
            k,
        ));
    } else {
        lemma_root_prefix(files, label, k, (m - 1) as nat);
        lemma_root_entries_len(files, label, (m - 1) as nat);
        let a = root_entries(files, label, (m - 1) as nat);
        let b = root_entries(files, label, m);
        assert(b == a + file_entry(files, (m - 1) as nat));
        assert(b.subrange(0, (32 * (k + 1)) as int) =~= a.subrange(0, (32 * (k + 1)) as int));
    }
}

} // verus!
