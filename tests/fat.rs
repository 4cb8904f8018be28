use ghostfat::{File, GhostFat};

#[test]
fn file_offsets() {
    let data = [0xAAu8; 64];
    let f = [File::<8>::new_ro("test.bin", &data)];
    assert_eq!(f[0].len(), data.len());

    let mut block = [0u8; 8];
    GhostFat::fat(0, &f, &mut block);
    assert_eq!(&block, &[0xf0, 0xff, 0xff, 0xff, 0x03, 0x00, 0x04, 0x00]);

    GhostFat::fat(1, &f, &mut block);
    assert_eq!(&block, &[0x05, 0x00, 0x06, 0x00, 0x07, 0x00, 0x08, 0x00]);

    GhostFat::fat(2, &f, &mut block);
    assert_eq!(&block, &[0x09, 0x00, 0xff, 0xff, 0x00, 0x00, 0x00, 0x00]);
}

#[test]
fn fat_chain_across_files_and_sectors() {
    // Three blocks, one empty file, then five blocks: clusters 2..=4 and 5..=9.
    let a = [1u8; 24];
    let empty: [u8; 0] = [];
    let b = [2u8; 33];
    let f = [
        File::<8>::new_ro("a.bin", &a),
        File::<8>::new_ro("e.bin", &empty),
        File::<8>::new_ro("b.bin", &b),
    ];
    let mut block = [0u8; 8];
    GhostFat::fat(0, &f, &mut block);
    assert_eq!(&block, &[0xf0, 0xff, 0xff, 0xff, 0x03, 0x00, 0x04, 0x00]);
    GhostFat::fat(1, &f, &mut block);
    assert_eq!(&block, &[0xff, 0xff, 0x06, 0x00, 0x07, 0x00, 0x08, 0x00]);
    GhostFat::fat(2, &f, &mut block);
    assert_eq!(&block, &[0x09, 0x00, 0xff, 0xff, 0x00, 0x00, 0x00, 0x00]);
    GhostFat::fat(3, &f, &mut block);
    assert_eq!(&block, &[0u8; 8]);
}
