use std::io::{Read, Seek, SeekFrom, Write};

use fatfs::{FatType, FsOptions};

use ghostfat::{Config, File, FileContent, GhostFat};

/// Block device adapter so that fatfs can mount the volume
pub struct MockDisk<'a> {
    pub index: usize,
    pub disk: GhostFat<'a, 512>,
}

impl<'a> Read for MockDisk<'a> {
    fn read(&mut self, buff: &mut [u8]) -> std::io::Result<usize> {
        let mut lba = self.index as u32 / 512;
        let offset = self.index % 512;

        let mut block = [0u8; 512];
        let mut index = 0;

        // Partial first block when the read starts inside a block and goes past it
        if offset > 0 && buff.len() > (512 - offset) {
            self.disk.read_block(lba, &mut block).unwrap();
            buff[..512 - offset].copy_from_slice(&block[offset..]);
            index += 512 - offset;
            lba += 1;
        }

        for c in (&mut buff[index..]).chunks_mut(512) {
            self.disk.read_block(lba, &mut block).unwrap();
            let start = if index == 0 { offset } else { 0 };
            c.copy_from_slice(&block[start..][..c.len()]);
            index += c.len();
            lba += 1;
        }

        self.index += buff.len();
        Ok(buff.len())
    }
}

impl<'a> Write for MockDisk<'a> {
    fn write(&mut self, buff: &[u8]) -> std::io::Result<usize> {
        let mut lba = self.index as u32 / 512;
        let mut offset = self.index % 512;
        let mut done = 0;

        // Read-modify-write each block the write touches
        while done < buff.len() {
            let mut block = [0u8; 512];
            self.disk.read_block(lba, &mut block).unwrap();
            let n = usize::min(512 - offset, buff.len() - done);
            block[offset..offset + n].copy_from_slice(&buff[done..done + n]);
            self.disk.write_block(lba, &block).unwrap();
            done += n;
            offset = 0;
            lba += 1;
        }

        self.index += buff.len();
        Ok(buff.len())
    }

    fn flush(&mut self) -> std::io::Result<()> {
        Ok(())
    }
}

impl<'a> Seek for MockDisk<'a> {
    fn seek(&mut self, pos: SeekFrom) -> std::io::Result<u64> {
        match pos {
            SeekFrom::Start(v) => self.index = v as usize,
            SeekFrom::End(v) => self.index = (8000 * 512i64 + v) as usize,
            SeekFrom::Current(v) => self.index = (self.index as i64 + v) as usize,
        }
        Ok(self.index as u64)
    }
}

fn setup<'a>(files: &'a mut [File<'a, 512>]) -> MockDisk<'a> {
    let ghost_fat = GhostFat::new(files, Config::default());
    MockDisk { index: 0, disk: ghost_fat }
}

fn random_bytes(n: usize) -> Vec<u8> {
    (0..n).map(|_| rand::random::<u8>()).collect()
}

fn read_file(n: usize) {
    let data = random_bytes(n);

    let files = &mut [File::new("TEST.BIN", FileContent::Read(&data)).unwrap()];
    let disk = setup(files);

    let fs = fatfs::FileSystem::new(disk, FsOptions::new()).unwrap();
    assert_eq!(fs.fat_type(), FatType::Fat16);

    let root_dir = fs.root_dir();
    let f: Vec<_> = root_dir.iter().map(|v| v.unwrap()).collect();

    assert_eq!(f[0].short_file_name(), "TEST.BIN");
    let mut f0 = f[0].to_file();

    let mut v0 = Vec::new();
    f0.read_to_end(&mut v0).unwrap();

    assert_eq!(v0.as_slice() == data.as_slice(), true);
}

#[test]
fn read_small_file() {
    read_file(64);
}

#[test]
fn read_multi_cluster_file() {
    read_file(1024);
}

#[test]
fn read_multi_fat_file() {
    read_file(200_000);
}

fn write_file(n: usize) {
    let mut data = random_bytes(n);

    let files = &mut [File::new("TEST.BIN", FileContent::Write(&mut data)).unwrap()];
    let disk = setup(files);

    let fs = fatfs::FileSystem::new(disk, FsOptions::new()).unwrap();
    assert_eq!(fs.fat_type(), FatType::Fat16);

    let root_dir = fs.root_dir();
    let f: Vec<_> = root_dir.iter().map(|v| v.unwrap()).collect();
    assert_eq!(f[0].short_file_name(), "TEST.BIN");

    let d1 = random_bytes(n);

    let mut f0 = f[0].to_file();
    f0.seek(SeekFrom::Start(0)).unwrap();
    f0.write_all(&d1).unwrap();
    f0.flush().unwrap();
    drop(f0);

    let mut f1 = f[0].to_file();
    let mut v0 = Vec::new();
    f1.read_to_end(&mut v0).unwrap();
    assert_eq!(v0.as_slice(), d1.as_slice());
}

#[test]
fn write_small_file() {
    write_file(64);
}

#[test]
fn write_multi_cluster_file() {
    write_file(64_000);
}

#[test]
fn write_multi_fat_file() {
    write_file(128_000);
}

#[test]
fn read_many_files() {
    let d1 = b"abc123456";
    let d2 = b"abc123457";

    let files = &mut [
        File::new("TEST1.TXT", FileContent::Read(d1)).unwrap(),
        File::new("TEST2.TXT", FileContent::Read(d2)).unwrap(),
    ];
    let disk = setup(files);

    let fs = fatfs::FileSystem::new(disk, FsOptions::new()).unwrap();
    assert_eq!(fs.fat_type(), FatType::Fat16);

    let root_dir = fs.root_dir();
    let f: Vec<_> = root_dir.iter().map(|v| v.unwrap()).collect();

    assert_eq!(f[0].short_file_name(), "TEST1.TXT");
    let mut f1 = f[0].to_file();
    let mut s0 = String::new();
    f1.read_to_string(&mut s0).unwrap();
    assert_eq!(s0.as_bytes(), d1);

    assert_eq!(f[1].short_file_name(), "TEST2.TXT");
    let mut f1 = f[1].to_file();
    let mut s0 = String::new();
    f1.read_to_string(&mut s0).unwrap();
    assert_eq!(s0.as_bytes(), d2);
}

#[test]
fn mount_info_file() {
    let info = b"UF2 Bootloader 1.2.3\r\nModel: BluePill\r\nBoard-ID: xyz_123\r\n";
    let files = &mut [File::new("INFO_UF2.TXT", FileContent::Read(info)).unwrap()];
    let disk = setup(files);

    let fs = fatfs::FileSystem::new(disk, FsOptions::new()).unwrap();
    assert_eq!(fs.fat_type(), FatType::Fat16);

    let f: Vec<_> = fs.root_dir().iter().map(|v| v.unwrap()).collect();
    assert_eq!(f.len(), 1);
    assert_eq!(f[0].short_file_name(), "INFO_UF2.TXT");
    let mut v = Vec::new();
    f[0].to_file().read_to_end(&mut v).unwrap();
    assert_eq!(v.len(), info.len());
    assert_eq!(v.as_slice(), &info[..]);
}

#[test]
fn write_small_text_round_trip() {
    let mut data = [0u8; 8];
    let files = &mut [File::new("TEST.TXT", FileContent::Write(&mut data)).unwrap()];
    let disk = setup(files);

    let fs = fatfs::FileSystem::new(disk, FsOptions::new()).unwrap();
    let f: Vec<_> = fs.root_dir().iter().map(|v| v.unwrap()).collect();

    let mut f0 = f[0].to_file();
    f0.write_all(b"DEF456\r\n").unwrap();
    drop(f0);

    let mut v = Vec::new();
    f[0].to_file().read_to_end(&mut v).unwrap();
    assert_eq!(v.as_slice(), b"DEF456\r\n");
}
