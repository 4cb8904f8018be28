//! The volume as a function of its configuration and files: what each block holds.
use vstd::prelude::*;

use crate::boot::{boot_bytes_of, text_field};
use crate::config::Config;
use crate::encode::{le16, le32, zeros};
use crate::file::{chunk_of, File, ATTR_ARCHIVE, ATTR_VOLUME_LABEL};
use vstd::string::StringSliceAdditionalSpecFns;

verus! {

/// First cluster of file `i`: clusters from 2 on go to the files in declaration order.
pub open spec fn start_cluster<'a, const BLOCK_SIZE: usize>(
    files: Seq<File<'a, BLOCK_SIZE>>,
    i: nat,
) -> nat
    decreases i,
{
    if i == 0 {
        2
    } else {
        start_cluster(files, (i - 1) as nat) + files[i - 1].blocks()
    }
}

/// FAT value of cluster `c` as the first `k` files chain their clusters: the next cluster
/// of the same file, 0xFFFF on a file's last cluster, 0 on a cluster none of them holds.
pub open spec fn chain_value<'a, const BLOCK_SIZE: usize>(
    files: Seq<File<'a, BLOCK_SIZE>>,
    k: nat,
    c: nat,
) -> nat
    decreases k,
{
    if k == 0 {
        0
    } else {
        let s = start_cluster(files, (k - 1) as nat);
        let n = files[k - 1].blocks();
        if s <= c < s + n {
            if c + 1 == s + n {
                0xFFFF
            } else {
                c + 1
            }
        } else {
            chain_value(files, (k - 1) as nat, c)
        }
    }
}

/// FAT entry of cluster `c` when the first `k` files are placed: clusters 0 and 1 hold
/// the reserved markers.
pub open spec fn entry_upto<'a, const BLOCK_SIZE: usize>(
    files: Seq<File<'a, BLOCK_SIZE>>,
    k: nat,
    c: nat,
) -> u16 {
    if c == 0 {
        0xFFF0
    } else if c == 1 {
        0xFFFF
    } else {
        chain_value(files, k, c) as u16
    }
}

/// FAT entry of cluster `c`.
pub open spec fn fat_entry<'a, const BLOCK_SIZE: usize>(
    files: Seq<File<'a, BLOCK_SIZE>>,
    c: nat,
) -> u16 {
    entry_upto(files, files.len(), c)
}

/// Byte `j` of FAT sector `id` when the first `k` files are placed.
pub open spec fn fat_byte_upto<'a, const BLOCK_SIZE: usize>(
    files: Seq<File<'a, BLOCK_SIZE>>,
    k: nat,
    id: nat,
    j: int,
) -> u8 {
    le16(entry_upto(files, k, (id * (BLOCK_SIZE as nat / 2) + j / 2) as nat))[j % 2]
}

/// Sector `id` of a FAT: the entries of `BLOCK_SIZE / 2` clusters from `id * BLOCK_SIZE / 2`.
pub open spec fn fat_sector<'a, const BLOCK_SIZE: usize>(
    files: Seq<File<'a, BLOCK_SIZE>>,
    id: nat,
) -> Seq<u8> {
    Seq::new(BLOCK_SIZE as nat, |j: int| fat_byte_upto(files, files.len(), id, j))
}

/// Directory entry bytes with the given name, attributes, first cluster and size; times
/// and dates are zero.
pub open spec fn entry_bytes(name: Seq<u8>, attrs: u8, cluster: u16, size: u32) -> Seq<u8> {
    name + seq![attrs] + seq![0u8] + seq![0u8] + le16(0) + le16(0) + le16(0) + le16(0) + le16(0)
        + le16(0) + le16(cluster) + le32(size)
}

/// Directory entry of file `i`.
pub open spec fn file_entry<'a, const BLOCK_SIZE: usize>(
    files: Seq<File<'a, BLOCK_SIZE>>,
    i: nat,
) -> Seq<u8> {
    let f = files[i as int];
    entry_bytes(
        f.spec_short_name().unwrap(),
        f.attr_bits(),
        start_cluster(files, i) as u16,
        f.spec_len() as u32,
    )
}

/// The volume label entry followed by the entries of the first `k` files.
pub open spec fn root_entries<'a, const BLOCK_SIZE: usize>(
    files: Seq<File<'a, BLOCK_SIZE>>,
    label: Seq<u8>,
    k: nat,
) -> Seq<u8>
    decreases k,
{
    if k == 0 {
        entry_bytes(label, (ATTR_VOLUME_LABEL | ATTR_ARCHIVE) as u8, 0, 0)
    } else {
        root_entries(files, label, (k - 1) as nat) + file_entry(files, (k - 1) as nat)
    }
}

/// First sector of the root directory.
pub open spec fn root_sector<'a, const BLOCK_SIZE: usize>(
    files: Seq<File<'a, BLOCK_SIZE>>,
    label: Seq<u8>,
) -> Seq<u8> {
    let e = root_entries(files, label, files.len());
    e + zeros((BLOCK_SIZE - e.len()) as nat)
}

/// The file among the first `k`, and the block within it, that data sector `d` (counted
/// from the first cluster) belongs to.
pub open spec fn locate<'a, const BLOCK_SIZE: usize>(
    files: Seq<File<'a, BLOCK_SIZE>>,
    k: nat,
    d: nat,
) -> Option<(nat, nat)>
    decreases k,
{
    if k == 0 {
        None
    } else {
        let s = start_cluster(files, (k - 1) as nat) - 2;
        let n = files[k - 1].blocks();
        if s <= d < s + n {
            Some(((k - 1) as nat, (d - s) as nat))
        } else {
            locate(files, (k - 1) as nat, d)
        }
    }
}

/// `c` followed by zeros up to `n` bytes.
pub open spec fn padded(c: Seq<u8>, n: nat) -> Seq<u8> {
    c + zeros((n - c.len()) as nat)
}

/// Block 0: the encoded boot block, zeros, and the 0x55 0xAA signature at bytes 510 and 511.
pub open spec fn boot_sector<const BLOCK_SIZE: usize>(config: Config<BLOCK_SIZE>) -> Seq<u8> {
    boot_bytes_of(config) + zeros(448) + seq![0x55u8, 0xAAu8] + zeros((BLOCK_SIZE - 512) as nat)
}

/// The bytes the volume holds at block `lba`; `None` where a dynamic file supplies them.
pub open spec fn disk_block<'a, const BLOCK_SIZE: usize>(
    config: Config<BLOCK_SIZE>,
    files: Seq<File<'a, BLOCK_SIZE>>,
    lba: nat,
) -> Option<Seq<u8>> {
    if lba == 0 {
        Some(boot_sector(config))
    } else if lba < config.fat0() {
        Some(zeros(BLOCK_SIZE as nat))
    } else if lba < config.rootdir() {
        let s = lba - config.fat0();
        let id = if s >= config.spf() {
            s - config.spf()
        } else {
            s
        };
        Some(fat_sector(files, id as nat))
    } else if lba < config.clusters() {
        if lba == config.rootdir() {
            Some(root_sector(files, text_field(config.volume_label.spec_bytes(), 11)))
        } else {
            Some(zeros(BLOCK_SIZE as nat))
        }
    } else {
        match locate(files, files.len(), (lba - config.clusters()) as nat) {
            None => Some(zeros(BLOCK_SIZE as nat)),
            Some((i, k)) => if files[i as int].data is Dynamic {
                None
            } else {
                Some(padded(chunk_of(files[i as int].content(), k, BLOCK_SIZE as nat), BLOCK_SIZE as nat))
            },
        }
    }
}

/// The file and block a write to `lba` lands in; `None` outside the files' clusters.
pub open spec fn write_target<'a, const BLOCK_SIZE: usize>(
    config: Config<BLOCK_SIZE>,
    files: Seq<File<'a, BLOCK_SIZE>>,
    lba: nat,
) -> Option<(nat, nat)> {
    if lba < config.clusters() {
        None
    } else {
        locate(files, files.len(), (lba - config.clusters()) as nat)
    }
}

/// Two file tables whose files have the same lengths, so the same clusters.
pub open spec fn same_layout<'a, 'b, const BLOCK_SIZE: usize>(
    a: Seq<File<'a, BLOCK_SIZE>>,
    b: Seq<File<'b, BLOCK_SIZE>>,
) -> bool {
    &&& a.len() == b.len()
    &&& forall|j: int| 0 <= j < a.len() ==> (#[trigger] a[j]).spec_len() == b[j].spec_len()
}

/// A file table the root directory sector and the cluster arithmetic can hold.
pub open spec fn files_fit<'a, const BLOCK_SIZE: usize>(files: Seq<File<'a, BLOCK_SIZE>>) -> bool {
    &&& (files.len() + 1) * 32 <= BLOCK_SIZE
    &&& forall|i: int| 0 <= i < files.len() ==> (#[trigger] files[i]).spec_short_name() is Some
    &&& start_cluster(files, files.len()) <= u32::MAX
}

/// Clusters of the files in order never pass `start_cluster` of a later index.
pub proof fn lemma_start_cluster_mono<'a, const BLOCK_SIZE: usize>(
    files: Seq<File<'a, BLOCK_SIZE>>,
    i: nat,
    j: nat,
)
    requires
        i <= j,
    ensures
        start_cluster(files, i) <= start_cluster(files, j),
    decreases j - i,
{
    if i < j {
        lemma_start_cluster_mono(files, i, (j - 1) as nat);
    }
}

/// The volume label entry and `k` file entries take `32 * (k + 1)` bytes.
pub proof fn lemma_root_entries_len<'a, const BLOCK_SIZE: usize>(
    files: Seq<File<'a, BLOCK_SIZE>>,
    label: Seq<u8>,
    k: nat,
)
    requires
        label.len() == 11,
        k <= files.len(),
        forall|i: int| 0 <= i < files.len() ==> (#[trigger] files[i]).spec_short_name() is Some,
    ensures
        root_entries(files, label, k).len() == 32 * (k + 1),
    decreases k,
{
    if k > 0 {
        lemma_root_entries_len(files, label, (k - 1) as nat);
        assert(files[k - 1].spec_short_name() is Some);
    }
}

/// A data sector inside file `i`'s blocks is located in file `i`.
pub proof fn lemma_locate_found<'a, const BLOCK_SIZE: usize>(
    files: Seq<File<'a, BLOCK_SIZE>>,
    i: nat,
    d: nat,
    k: nat,
)
    requires
        i < k <= files.len(),
        start_cluster(files, i) - 2 <= d < start_cluster(files, i) - 2 + files[i as int].blocks(),
    ensures
        locate(files, k, d) == Some((i, (d - (start_cluster(files, i) - 2)) as nat)),
    decreases k,
{
    if k > i + 1 {
        lemma_start_cluster_mono(files, i + 1, (k - 1) as nat);
        lemma_locate_found(files, i, d, (k - 1) as nat);
    }
}

/// A located sector lies inside the file it is located in.
pub proof fn lemma_locate_bounds<'a, const BLOCK_SIZE: usize>(
    files: Seq<File<'a, BLOCK_SIZE>>,
    k: nat,
    d: nat,
)
    requires
        k <= files.len(),
    ensures
        locate(files, k, d) matches Some((i, off)) ==> {
            &&& i < k
            &&& off < files[i as int].blocks()
            &&& d + 2 == start_cluster(files, i) + off
        },
    decreases k,
{
    if k > 0 {
        lemma_locate_bounds(files, (k - 1) as nat, d);
        lemma_start_cluster_mono(files, 0, (k - 1) as nat);
    }
}

/// No piece of a file is longer than a block.
pub proof fn lemma_chunk_len(c: Seq<u8>, k: nat, bs: nat)
    requires
        bs > 0,
    ensures
        chunk_of(c, k, bs).len() <= bs,
{
    assert((k + 1) * bs == k * bs + bs) by (nonlinear_arith);
    if k < crate::file::blocks_for(c.len(), bs) {
        crate::file::lemma_piece_start(c.len(), bs, k);
    }
}

/// Files of the same lengths start at the same clusters.
pub proof fn lemma_same_layout_start<'a, 'b, const BLOCK_SIZE: usize>(
    a: Seq<File<'a, BLOCK_SIZE>>,
    b: Seq<File<'b, BLOCK_SIZE>>,
    k: nat,
)
    requires
        same_layout(a, b),
        k <= a.len(),
    ensures
        start_cluster(a, k) == start_cluster(b, k),
    decreases k,
{
    if k > 0 {
        lemma_same_layout_start(a, b, (k - 1) as nat);
        assert(a[k - 1].spec_len() == b[k - 1].spec_len());
    }
}

/// Files of the same lengths locate every data sector alike.
pub proof fn lemma_same_layout_locate<'a, 'b, const BLOCK_SIZE: usize>(
    a: Seq<File<'a, BLOCK_SIZE>>,
    b: Seq<File<'b, BLOCK_SIZE>>,
    k: nat,
    d: nat,
)
    requires
        same_layout(a, b),
        k <= a.len(),
    ensures
        locate(a, k, d) == locate(b, k, d),
    decreases k,
{
    if k > 0 {
        lemma_same_layout_locate(a, b, (k - 1) as nat, d);
        lemma_same_layout_start(a, b, (k - 1) as nat);
        assert(a[k - 1].spec_len() == b[k - 1].spec_len());
    }
}

/// Placing file `k` changes the FAT only on that file's clusters.
pub proof fn lemma_chain_step<'a, const BLOCK_SIZE: usize>(
    files: Seq<File<'a, BLOCK_SIZE>>,
    k: nat,
    c: nat,
)
    requires
        k < files.len(),
    ensures
        ({
            let s = start_cluster(files, k);
            let n = files[k as int].blocks();
            chain_value(files, k + 1, c) == if s <= c < s + n {
                if c + 1 == s + n {
                    0xFFFF
                } else {
                    c + 1
                }
            } else {
                chain_value(files, k, c)
            }
        }),
{
}

} // verus!
