use ghostfat::{
    BlockDeviceError, Config, DirectoryEntry, DynamicFile, FatBootBlock, File, FileContent,
    GhostFat, PackError,
};

fn le16(b: &[u8], at: usize) -> u16 {
    u16::from_le_bytes([b[at], b[at + 1]])
}

fn le32(b: &[u8], at: usize) -> u32 {
    u32::from_le_bytes([b[at], b[at + 1], b[at + 2], b[at + 3]])
}

#[test]
fn default_layout() {
    let c = Config::<512>::default();
    assert_eq!(c.num_blocks, 8000);
    assert_eq!(c.sector_size(), 512);
    assert_eq!(c.sectors_per_fat(), 32);
    assert_eq!(c.start_fat0(), 1);
    assert_eq!(c.start_fat1(), 33);
    assert_eq!(c.start_rootdir(), 65);
    assert_eq!(c.start_clusters(), 69);
}

#[test]
fn sectors_per_fat_rounds_up() {
    let mut c = Config::<512>::default();
    c.num_blocks = 256;
    assert_eq!(c.sectors_per_fat(), 1);
    c.num_blocks = 257;
    assert_eq!(c.sectors_per_fat(), 2);
    c.num_blocks = 100;
    assert_eq!(c.sectors_per_fat(), 1);
}

#[test]
fn boot_block_shape() {
    let files: &mut [File<512>] = &mut [];
    let fs = GhostFat::new(files, Config::default());
    let mut b = [0xAAu8; 512];
    assert_eq!(fs.read_block(0, &mut b), Ok(()));
    assert_eq!(&b[0..3], &[0xEB, 0x3C, 0x90]);
    assert_eq!(&b[3..11], b"UF2 UF2 ");
    assert_eq!(le16(&b, 11), 512);
    assert_eq!(b[13], 1);
    assert_eq!(le16(&b, 14), 1);
    assert_eq!(b[16], 2);
    assert_eq!(le16(&b, 17), 64);
    assert_eq!(le16(&b, 19), 7998);
    assert_eq!(b[21], 0xF8);
    assert_eq!(le16(&b, 22), 32);
    assert_eq!(le16(&b, 24), 1);
    assert_eq!(le16(&b, 26), 1);
    assert_eq!(le32(&b, 28), 0);
    assert_eq!(le32(&b, 32), 0);
    assert_eq!(b[38], 0x29);
    assert_eq!(le32(&b, 39), 0x00420042);
    assert_eq!(&b[43..54], b"GHOSTFAT   ");
    assert_eq!(&b[54..62], b"FAT16   ");
    assert!(b[62..510].iter().all(|&x| x == 0));
    assert_eq!(b[510], 0x55);
    assert_eq!(b[511], 0xAA);
}

#[test]
fn boot_block_text_fields_keep_a_trailing_space() {
    let mut c = Config::<512>::default();
    c.oem_info = "ABCDEFGHIJ";
    c.volume_label = "A_VERY_LONG_LABEL";
    c.num_blocks = 70000;
    let bb = FatBootBlock::new(&c);
    assert_eq!(&bb.oem_info, b"ABCDEFG ");
    assert_eq!(&bb.volume_label, b"A_VERY_LON ");
    assert_eq!(bb.total_sectors16, 0);
    assert_eq!(bb.total_sectors32, 69998);
    assert_eq!(bb.sectors_per_fat, 274);
}

#[test]
fn encode_matches_packed_boot_block() {
    let c = Config::<512>::default();
    let mut a = [0x11u8; 70];
    c.encode(&mut a);
    let mut b = [0x11u8; 70];
    assert_eq!(FatBootBlock::new(&c).pack(&mut b), Ok(()));
    assert_eq!(a, b);
    assert_eq!(&a[62..], &[0x11u8; 8]);
    assert_eq!(&a[54..62], b"FAT16   ");
}

#[test]
fn packing_into_short_buffers_fails() {
    let c = Config::<512>::default();
    let mut short = [7u8; 61];
    assert_eq!(FatBootBlock::new(&c).pack(&mut short), Err(PackError::BufferTooSmall));
    assert_eq!(short, [7u8; 61]);
    let mut short = [7u8; 31];
    assert_eq!(DirectoryEntry::default().pack(&mut short), Err(PackError::BufferTooSmall));
    assert_eq!(short, [7u8; 31]);
}

#[test]
fn directory_entry_layout() {
    let mut e = DirectoryEntry::default();
    e.name = *b"TEST    TXT";
    e.attrs = 0x01;
    e.start_cluster = 0x1234;
    e.size = 0x01020304;
    let mut b = [0xFFu8; 40];
    assert_eq!(e.pack(&mut b), Ok(()));
    assert_eq!(&b[0..11], b"TEST    TXT");
    assert_eq!(b[11], 0x01);
    assert!(b[12..26].iter().all(|&x| x == 0));
    assert_eq!(&b[26..28], &[0x34, 0x12]);
    assert_eq!(&b[28..32], &[0x04, 0x03, 0x02, 0x01]);
    assert_eq!(&b[32..], &[0xFFu8; 8]);
}

#[test]
fn root_directory_lists_files_in_order() {
    let d1 = b"abc123456";
    let d2 = [3u8; 1024];
    let d3 = b"xyz";
    let files = &mut [
        File::new("TEST1.TXT", FileContent::Read(d1)).unwrap(),
        File::new("BIG.BIN", FileContent::Read(&d2)).unwrap(),
        File::new("TEST2.TXT", FileContent::Read(d3)).unwrap(),
    ];
    let fs = GhostFat::new(files, Config::<512>::default());
    let mut b = [0u8; 512];
    fs.read_block(65, &mut b).unwrap();
    assert_eq!(&b[0..11], b"GHOSTFAT   ");
    assert_eq!(b[11], 0x28);
    assert_eq!(&b[32..43], b"TEST1   TXT");
    assert_eq!(b[43], 0x01);
    assert_eq!(le16(&b, 58), 2);
    assert_eq!(le32(&b, 60), 9);
    assert_eq!(&b[64..75], b"BIG     BIN");
    assert_eq!(le16(&b, 90), 3);
    assert_eq!(le32(&b, 92), 1024);
    assert_eq!(&b[96..107], b"TEST2   TXT");
    assert_eq!(le16(&b, 122), 5);
    assert_eq!(le32(&b, 124), 3);
    assert!(b[128..].iter().all(|&x| x == 0));

    // Later root directory sectors are empty
    let mut b = [9u8; 512];
    fs.read_block(66, &mut b).unwrap();
    assert_eq!(b, [0u8; 512]);
}

#[test]
fn two_fats_are_identical() {
    let d1 = [1u8; 1024];
    let d2 = b"abc";
    let files = &mut [
        File::new("TEST.BIN", FileContent::Read(&d1)).unwrap(),
        File::new("TEST.TXT", FileContent::Read(d2)).unwrap(),
    ];
    let fs = GhostFat::new(files, Config::<512>::default());
    let mut a = [0u8; 512];
    let mut b = [0u8; 512];
    fs.read_block(1, &mut a).unwrap();
    fs.read_block(33, &mut b).unwrap();
    assert_eq!(a, b);
    assert_eq!(&a[0..10], &[0xF0, 0xFF, 0xFF, 0xFF, 0x03, 0x00, 0xFF, 0xFF, 0xFF, 0xFF]);
    assert!(a[10..].iter().all(|&x| x == 0));
    for s in 1..32 {
        fs.read_block(1 + s, &mut a).unwrap();
        fs.read_block(33 + s, &mut b).unwrap();
        assert_eq!(a, b);
        assert_eq!(a, [0u8; 512]);
    }
}

#[test]
fn data_blocks_are_padded_file_pieces() {
    let data: Vec<u8> = (0..700u32).map(|i| (i % 251) as u8).collect();
    let other = b"second";
    let files = &mut [
        File::new("A.BIN", FileContent::Read(&data)).unwrap(),
        File::new("B.TXT", FileContent::Read(other)).unwrap(),
    ];
    let fs = GhostFat::new(files, Config::<512>::default());
    let mut b = [0xEEu8; 512];
    fs.read_block(69, &mut b).unwrap();
    assert_eq!(&b[..], &data[..512]);
    let mut b = [0xEEu8; 512];
    fs.read_block(70, &mut b).unwrap();
    assert_eq!(&b[..188], &data[512..]);
    assert!(b[188..].iter().all(|&x| x == 0));
    let mut b = [0xEEu8; 512];
    fs.read_block(71, &mut b).unwrap();
    assert_eq!(&b[..6], b"second");
    assert!(b[6..].iter().all(|&x| x == 0));
    // Past the last file
    let mut b = [0xEEu8; 512];
    fs.read_block(72, &mut b).unwrap();
    assert_eq!(b, [0u8; 512]);
    assert_eq!(fs.max_lba(), 7999);
}

#[test]
fn reads_are_repeatable() {
    let data = [5u8; 600];
    let files = &mut [File::new("A.BIN", FileContent::Read(&data)).unwrap()];
    let fs = GhostFat::new(files, Config::<512>::default());
    for lba in [0u32, 1, 33, 65, 66, 69, 70, 71, 7999] {
        let mut a = [1u8; 512];
        let mut b = [2u8; 512];
        fs.read_block(lba, &mut a).unwrap();
        fs.read_block(lba, &mut b).unwrap();
        assert_eq!(a, b);
    }
}

#[test]
fn writes_to_metadata_are_ignored() {
    let mut data = [0u8; 16];
    let files = &mut [File::new("A.BIN", FileContent::Write(&mut data)).unwrap()];
    let mut fs = GhostFat::new(files, Config::<512>::default());
    for lba in [0u32, 1, 40, 65, 68] {
        let mut before = [0u8; 512];
        fs.read_block(lba, &mut before).unwrap();
        assert_eq!(fs.write_block(lba, &[0x5Au8; 512]), Ok(()));
        let mut after = [0u8; 512];
        fs.read_block(lba, &mut after).unwrap();
        assert_eq!(before, after);
    }
    // Past the files' clusters
    assert_eq!(fs.write_block(100, &[0x5Au8; 512]), Ok(()));
    let mut b = [0u8; 512];
    fs.read_block(69, &mut b).unwrap();
    assert_eq!(b, [0u8; 512]);
}

#[test]
fn write_to_read_only_file_fails() {
    let data = [1u8; 16];
    let files = &mut [File::new("A.BIN", FileContent::Read(&data)).unwrap()];
    let mut fs = GhostFat::new(files, Config::<512>::default());
    assert_eq!(fs.write_block(69, &[0u8; 512]), Err(BlockDeviceError::WriteError));
    let mut b = [0u8; 512];
    fs.read_block(69, &mut b).unwrap();
    assert_eq!(&b[..16], &[1u8; 16]);
}

#[test]
fn write_then_read_round_trip() {
    let mut data = [0u8; 600];
    let written: Vec<u8> = (0..512u32).map(|i| (i * 7 % 256) as u8).collect();
    {
        let files = &mut [
            File::new("A.TXT", FileContent::Read(b"hello")).unwrap(),
            File::new("B.BIN", FileContent::Write(&mut data)).unwrap(),
        ];
        let mut fs = GhostFat::new(files, Config::<512>::default());
        // B.BIN holds clusters 3 and 4, sectors 70 and 71
        assert_eq!(fs.write_block(70, &written), Ok(()));
        assert_eq!(fs.write_block(71, &written), Ok(()));
        let mut b = [0u8; 512];
        fs.read_block(70, &mut b).unwrap();
        assert_eq!(&b[..], &written[..]);
        fs.read_block(71, &mut b).unwrap();
        assert_eq!(&b[..88], &written[..88]);
        assert!(b[88..].iter().all(|&x| x == 0));
        let mut a = [0u8; 512];
        fs.read_block(69, &mut a).unwrap();
        assert_eq!(&a[..5], b"hello");
    }
    assert_eq!(&data[..512], &written[..]);
    assert_eq!(&data[512..], &written[..88]);
}

struct Pattern;

impl DynamicFile for Pattern {
    fn len(&self) -> usize {
        1500
    }

    fn read_chunk(&self, index: usize, buff: &mut [u8]) -> usize {
        for b in buff.iter_mut() {
            *b = 0xA0 + index as u8;
        }
        buff.len()
    }

    fn write_chunk(&self, _index: usize, data: &[u8]) -> usize {
        data.len()
    }
}

#[test]
fn dynamic_files_take_their_clusters() {
    let p = Pattern;
    let files = &mut [
        File::new_dyn("DYN.BIN", &p),
        File::new("AFTER.TXT", FileContent::Read(b"tail")).unwrap(),
    ];
    let mut fs = GhostFat::new(files, Config::<512>::default());
    let mut b = [0u8; 512];
    fs.read_block(71, &mut b).unwrap();
    assert_eq!(b, [0xA2u8; 512]);
    fs.read_block(72, &mut b).unwrap();
    assert_eq!(&b[..4], b"tail");
    fs.read_block(65, &mut b).unwrap();
    assert_eq!(&b[32..43], b"DYN     BIN");
    assert_eq!(b[43], 0);
    assert_eq!(le32(&b, 60), 1500);
    assert_eq!(le16(&b, 90), 5);
    assert_eq!(fs.write_block(70, &[0u8; 512]), Ok(()));
}

#[test]
fn admission_checks() {
    let c = Config::<512>::default();
    assert!(c.is_valid());
    let mut small = Config::<512>::default();
    small.num_blocks = 7;
    assert!(!small.is_valid());
    let mut none_reserved = Config::<512>::default();
    none_reserved.reserved_sectors = 0;
    assert!(!none_reserved.is_valid());
    assert!(!Config::<256>::default().is_valid());

    let data = [0u8; 4];
    let good = [File::<512>::new_ro("A.TXT", &data), File::<512>::new_ro("B.TXT", &data)];
    assert!(GhostFat::accepts(&good, &c));
    let bad_name = [File::<512>::new_ro("NODOT", &data)];
    assert!(!GhostFat::accepts(&bad_name, &c));
    assert!(!GhostFat::accepts(&good, &small));
    let many: Vec<File<512>> = (0..16).map(|_| File::new_ro("A.TXT", &data)).collect();
    assert!(!GhostFat::accepts(&many, &c));
    let fifteen: Vec<File<512>> = (0..15).map(|_| File::new_ro("A.TXT", &data)).collect();
    assert!(GhostFat::accepts(&fifteen, &c));
}
