//! Logical files: a name and contents from a buffer or a user object.
use vstd::prelude::*;
use vstd::arithmetic::div_mod::lemma_fundamental_div_mod;
use vstd::math::min;
use vstd::string::StringSliceAdditionalSpecFns;

use crate::encode::stored_at;

verus! {

/// The byte that pads short names.
pub const ASCII_SPACE: u8 = 0x20;

/// The byte that separates a name from its extension.
pub const ASCII_DOT: u8 = 0x2E;

/// Attribute bit: the file cannot be written.
pub const ATTR_READ_ONLY: u8 = 0x01;

/// Attribute bit: the entry is hidden from normal listings.
pub const ATTR_HIDDEN: u8 = 0x02;

/// Attribute bit: the entry belongs to the system.
pub const ATTR_SYSTEM: u8 = 0x04;

/// Attribute bit: the entry holds the volume label.
pub const ATTR_VOLUME_LABEL: u8 = 0x08;

/// Attribute bit: the entry is a subdirectory.
pub const ATTR_SUBDIR: u8 = 0x10;

/// Attribute bit: the entry changed since the last backup.
pub const ATTR_ARCHIVE: u8 = 0x20;

/// Attribute bit: the entry is a device.
pub const ATTR_DEVICE: u8 = 0x40;

/// A set of FAT16 file attributes, one bit per `ATTR_*` flag.
#[derive(Clone, Copy, Debug, PartialEq, Eq, Structural)]
pub struct Attrs {
    pub bits: u8,
}

impl Attrs {
    /// The attribute byte.
    pub fn bits(&self) -> (r: u8)
        ensures
            r == self.bits,
    {
        self.bits
    }
}

/// Read/write interface of files whose contents live in user code.
pub trait DynamicFile {
    /// Return the maximum length of the virtual file
    fn len(&self) -> usize;

    /// Read a chunk of the virtual file, returning the read length
    fn read_chunk(&self, index: usize, buff: &mut [u8]) -> usize;

    /// Write a chunk of the virtual file, returning the write length
    fn write_chunk(&self, index: usize, data: &[u8]) -> usize;
}

/// Files may contain a read buffer, write buffer, or read/write object
#[verifier::reject_recursive_types(BLOCK_SIZE)]
pub enum FileContent<'a, const BLOCK_SIZE: usize> {
    /// Read only buffer
    Read(&'a [u8]),
    /// Read/write buffer
    Write(&'a mut [u8]),
    /// Read/write object, with the length it reported when the file was made; the volume
    /// layout is built on that length
    Dynamic(&'a dyn DynamicFile, usize),
}

/// Create a file from an immutable buffer
impl<'a, const BLOCK_SIZE: usize> From<&'a [u8]> for FileContent<'a, BLOCK_SIZE> {
    fn from(d: &'a [u8]) -> (r: Self)
        ensures
            r == FileContent::<'a, BLOCK_SIZE>::Read(d),
    {
        FileContent::Read(d)
    }
}

impl<'a, const BLOCK_SIZE: usize> vstd::std_specs::convert::FromSpecImpl<&'a [u8]> for FileContent<'a, BLOCK_SIZE> {
    open spec fn obeys_from_spec() -> bool {
        true
    }

    open spec fn from_spec(d: &'a [u8]) -> Self {
        FileContent::Read(d)
    }
}

/// File error types
#[derive(Clone, Copy, Debug, PartialEq, Eq, Structural)]
pub enum FileError {
    /// The name has no 8.3 short form.
    InvalidName,
}

/// Virtual file object
#[verifier::reject_recursive_types(BLOCK_SIZE)]
pub struct File<'a, const BLOCK_SIZE: usize> {
    pub name: &'a str,
    pub data: FileContent<'a, BLOCK_SIZE>,
}

/// Blocks of `bs` bytes needed to hold `len` bytes.
pub open spec fn blocks_for(len: nat, bs: nat) -> nat {
    len / bs + if len % bs == 0 {
        0nat
    } else {
        1nat
    }
}

/// The `k`-th block-sized piece of `c` (the last one may be short); empty past the end.
pub open spec fn chunk_of(c: Seq<u8>, k: nat, bs: nat) -> Seq<u8> {
    if k < blocks_for(c.len(), bs) {
        c.subrange(k * bs as int, if (k + 1) * bs <= c.len() {
            ((k + 1) * bs) as int
        } else {
            c.len() as int
        })
    } else {
        Seq::empty()
    }
}

/// `c` after `data` was written over its `k`-th piece, as far as both reach.
pub open spec fn write_chunk_of(c: Seq<u8>, k: nat, bs: nat, data: Seq<u8>) -> Seq<u8> {
    let piece = chunk_of(c, k, bs);
    let n = if data.len() <= piece.len() {
        data.len()
    } else {
        piece.len()
    };
    if k < blocks_for(c.len(), bs) {
        c.subrange(0, k * bs as int) + data.subrange(0, n as int) + c.subrange(
            (k * bs + n) as int,
            c.len() as int,
        )
    } else {
        c
    }
}

/// Position of the first `.` in `s` at or after `from`, or `s.len()` if there is none.
pub open spec fn find_dot(s: Seq<u8>, from: int) -> int
    decreases s.len() - from,
{
    if from >= s.len() {
        s.len() as int
    } else if s[from] == ASCII_DOT {
        from
    } else {
        find_dot(s, from + 1)
    }
}

/// The 11-byte 8.3 form of `name`: the part before the first `.` at the start, the part
/// up to the next `.` at the end, spaces between.
pub open spec fn short_name_of(name: Seq<u8>) -> Option<Seq<u8>> {
    let d = find_dot(name, 0);
    if d >= name.len() {
        None
    } else {
        let prefix = name.subrange(0, d);
        let ext = name.subrange(d + 1, find_dot(name, d + 1));
        if ext.len() == 0 || prefix.len() + ext.len() > 11 {
            None
        } else {
            Some(
                Seq::new(
                    11,
                    |i: int|
                        if i < prefix.len() {
                            prefix[i]
                        } else if i >= 11 - ext.len() {
                            ext[i - (11 - ext.len())]
                        } else {
                            ASCII_SPACE
                        },
                ),
            )
        }
    }
}

/// Position of the first `.` in `s` at or after `from`.
fn next_dot(s: &[u8], from: usize) -> (r: usize)
    requires
        from <= s@.len(),
    ensures
        r == find_dot(s@, from as int),
        from <= r <= s@.len(),
{
    let mut i = from;
    while i < s.len()
        invariant
            from <= i <= s@.len(),
            find_dot(s@, from as int) == find_dot(s@, i as int),
        decreases s@.len() - i,
    {
        if s[i] == ASCII_DOT {
            return i;
        }
        i += 1;
    }
    i
}

/// Where the `k`-th piece of `len` bytes starts, when there is such a piece.
pub proof fn lemma_piece_start(len: nat, bs: nat, k: nat)
    requires
        bs > 0,
        k < blocks_for(len, bs),
    ensures
        k * bs < len,
{
    let q = len / bs;
    let r = len % bs;
    assert(len == bs * q + r) by (nonlinear_arith)
        requires
            bs > 0,
            q == len / bs,
            r == len % bs,
    ;
    if r == 0 {
        assert(k * bs < len) by (nonlinear_arith)
            requires
                k < q,
                len == bs * q,
                bs > 0,
        ;
    } else {
        assert(k * bs < len) by (nonlinear_arith)
            requires
                k <= q,
                len == bs * q + r,
                r > 0,
        ;
    }
}

/// Number of `bs`-byte pieces of `len` bytes.
fn pieces(len: usize, bs: usize) -> (r: usize)
    requires
        bs > 0,
    ensures
        r == blocks_for(len as nat, bs as nat),
{
    if len % bs == 0 {
        len / bs
    } else {
        proof {
            let q = len / bs;
            let r = len % bs;
            lemma_fundamental_div_mod(len as int, bs as int);
            assert(q < len) by (nonlinear_arith)
                requires
                    len == bs * q + r,
                    r > 0,
                    bs >= 2,
                    q >= 0,
            ;
        }
        len / bs + 1
    }
}

/// Copies the `index`-th `bs`-byte piece of `src` to the start of `buff`, as far as it fits.
fn read_piece(src: &[u8], bs: usize, index: usize, buff: &mut [u8]) -> (r: usize)
    requires
        bs > 0,
    ensures
        r == min(old(buff)@.len() as int, chunk_of(src@, index as nat, bs as nat).len() as int),
        stored_at(
            old(buff)@,
            final(buff)@,
            0,
            chunk_of(src@, index as nat, bs as nat).subrange(0, r as int),
        ),
{
    let ghost piece = chunk_of(src@, index as nat, bs as nat);
    let n = src.len();
    if index >= pieces(n, bs) {
        assert(buff@.subrange(0, 0) =~= old(buff)@.subrange(0, 0));
        assert(piece.subrange(0, 0) =~= buff@.subrange(0, 0));
        assert(buff@.subrange(0, buff@.len() as int) =~= old(buff)@.subrange(0, old(buff)@.len() as int));
        return 0;
    }
    proof {
        lemma_piece_start(n as nat, bs as nat, index as nat);
    }
    let start = index * bs;
    let avail = if n - start < bs {
        n - start
    } else {
        bs
    };
    assert((index + 1) * bs == start + bs) by (nonlinear_arith)
        requires
            start == index * bs,
    ;
    assert(piece.len() == avail);
    let len = if buff.len() < avail {
        buff.len()
    } else {
        avail
    };
    let blen = buff.len();
    let mut i: usize = 0;
    while i < len
        invariant
            len <= avail,
            len <= blen,
            blen == buff@.len(),
            buff@.len() == old(buff)@.len(),
            start + avail <= n,
            n == src@.len(),
            piece.len() == avail,
            forall|j: int| 0 <= j < avail ==> piece[j] == src@[start + j],
            i <= len,
            forall|j: int| 0 <= j < i ==> buff@[j] == src@[start + j],
            forall|j: int| i <= j < blen ==> buff@[j] == old(buff)@[j],
        decreases len - i,
    {
        buff[i] = src[start + i];
        i += 1;
    }
    assert(buff@.subrange(0, 0) =~= old(buff)@.subrange(0, 0));
    assert(buff@.subrange(0, len as int) =~= piece.subrange(0, len as int));
    assert(buff@.subrange(len as int, blen as int) =~= old(buff)@.subrange(len as int, blen as int));
    len
}

/// Copies the start of `data` over the `index`-th `bs`-byte piece of `dst`, as far as both
/// reach.
fn write_piece(dst: &mut [u8], bs: usize, index: usize, data: &[u8]) -> (r: usize)
    requires
        bs > 0,
    ensures
        r == min(data@.len() as int, chunk_of(old(dst)@, index as nat, bs as nat).len() as int),
        final(dst)@ == write_chunk_of(old(dst)@, index as nat, bs as nat, data@),
        final(dst)@.len() == old(dst)@.len(),
{
    let ghost piece = chunk_of(dst@, index as nat, bs as nat);
    let n = dst.len();
    if index >= pieces(n, bs) {
        return 0;
    }
    proof {
        lemma_piece_start(n as nat, bs as nat, index as nat);
    }
    let start = index * bs;
    let avail = if n - start < bs {
        n - start
    } else {
        bs
    };
    assert((index + 1) * bs == start + bs) by (nonlinear_arith)
        requires
            start == index * bs,
    ;
    assert(piece.len() == avail);
    let len = if data.len() < avail {
        data.len()
    } else {
        avail
    };
    let mut i: usize = 0;
    while i < len
        invariant
            len <= avail,
            len <= data@.len(),
            dst@.len() == old(dst)@.len(),
            start + avail <= n,
            n == old(dst)@.len(),
            i <= len,
            forall|j: int| 0 <= j < start || start + i <= j < n ==> dst@[j] == old(dst)@[j],
            forall|j: int| start <= j < start + i ==> dst@[j] == data@[j - start],
        decreases len - i,
    {
        dst[start + i] = data[i];
        i += 1;
    }
    assert(dst@ =~= write_chunk_of(old(dst)@, index as nat, bs as nat, data@));
    len
}

impl<'a, const BLOCK_SIZE: usize> File<'a, BLOCK_SIZE> {
    /// Length of the contents in bytes.
    pub open spec fn spec_len(&self) -> nat {
        match self.data {
            FileContent::Read(r) => r@.len(),
            FileContent::Write(w) => w@.len(),
            FileContent::Dynamic(_, n) => n as nat,
        }
    }

    /// The bytes of a buffer-backed file; empty for a dynamic one.
    pub open spec fn content(&self) -> Seq<u8> {
        match self.data {
            FileContent::Read(r) => r@,
            FileContent::Write(w) => w@,
            FileContent::Dynamic(..) => Seq::empty(),
        }
    }

    /// Blocks (clusters) the file takes.
    pub open spec fn blocks(&self) -> nat {
        blocks_for(self.spec_len(), BLOCK_SIZE as nat)
    }

    /// The attribute byte of the file's directory entry.
    pub open spec fn attr_bits(&self) -> u8 {
        if self.data is Read {
            ATTR_READ_ONLY
        } else {
            0u8
        }
    }

    /// The 8.3 form of the file's name.
    pub open spec fn spec_short_name(&self) -> Option<Seq<u8>> {
        short_name_of(self.name.spec_bytes())
    }

    /// Create a new File object with the provided data
    pub fn new(name: &'a str, data: FileContent<'a, BLOCK_SIZE>) -> (r: Result<Self, FileError>)
        ensures
            r is Ok <==> short_name_of(name.spec_bytes()) is Some,
            r is Err ==> r == Err::<Self, FileError>(FileError::InvalidName),
            r matches Ok(f) ==> f.name == name && f.data == data,
    {
        let f = File { name, data };
        match f.short_name() {
            Ok(_) => Ok(f),
            Err(e) => Err(e),
        }
    }

    /// Helper to create read only files; the short name is not checked.
    pub fn new_ro(name: &'a str, data: &'a [u8]) -> (r: Self)
        ensures
            r.name == name,
            r.data == FileContent::<'a, BLOCK_SIZE>::Read(data),
    {
        File { name, data: FileContent::Read(data) }
    }

    /// Helper to create read-write files; the short name is not checked.
    pub fn new_rw(name: &'a str, data: &'a mut [u8]) -> (r: Self)
        ensures
            r.name == name,
            r.data is Write,
            r.content() == old(data)@,
    {
        File { name, data: FileContent::Write(data) }
    }

    /// Helper to create dynamic files, reading the object's length once; the short name is
    /// not checked.
    pub fn new_dyn(name: &'a str, data: &'a dyn DynamicFile) -> (r: Self)
        ensures
            r.name == name,
            r.data == FileContent::<'a, BLOCK_SIZE>::Dynamic(data, r.spec_len() as usize),
    {
        let n = data.len();
        File { name, data: FileContent::Dynamic(data, n) }
    }

    /// Fetch the file length
    pub fn len(&self) -> (r: usize)
        ensures
            r == self.spec_len(),
    {
        match &self.data {
            FileContent::Read(r) => r.len(),
            FileContent::Write(w) => w.len(),
            FileContent::Dynamic(_, n) => *n,
        }
    }

    /// Number of blocks (clusters) the file takes
    pub fn num_blocks(&self) -> (r: usize)
        requires
            BLOCK_SIZE > 0,
        ensures
            r == self.blocks(),
    {
        pieces(self.len(), BLOCK_SIZE)
    }

    /// Fetch file attributes
    pub fn attrs(&self) -> (r: Attrs)
        ensures
            r.bits == self.attr_bits(),
    {
        match &self.data {
            FileContent::Read(_) => Attrs { bits: ATTR_READ_ONLY },
            FileContent::Write(_) => Attrs { bits: 0 },
            FileContent::Dynamic(..) => Attrs { bits: 0 },
        }
    }

    /// Read a <= BLOCK_SIZE chunk of the file into the provided buffer
    pub fn chunk(&self, index: usize, buff: &mut [u8]) -> (r: usize)
        requires
            BLOCK_SIZE > 0,
        ensures
            !(self.data is Dynamic) ==> {
                let piece = chunk_of(self.content(), index as nat, BLOCK_SIZE as nat);
                &&& r == min(old(buff)@.len() as int, piece.len() as int)
                &&& stored_at(old(buff)@, final(buff)@, 0, piece.subrange(0, r as int))
            },
    {
        match &self.data {
            FileContent::Read(r) => read_piece(r, BLOCK_SIZE, index, buff),
            FileContent::Write(w) => read_piece(w, BLOCK_SIZE, index, buff),
            FileContent::Dynamic(rw, _) => rw.read_chunk(index, buff),
        }
    }

    /// Write a <= BLOCK_SIZE chunk of the file from the provided buffer
    pub fn chunk_mut(&mut self, index: usize, data: &[u8]) -> (r: usize)
        requires
            BLOCK_SIZE > 0,
        ensures
            final(self).name == old(self).name,
            final(self).spec_len() == old(self).spec_len(),
            old(self).data is Read ==> r == 0 && final(self).data == old(self).data,
            old(self).data is Dynamic ==> final(self).data == old(self).data,
            old(self).data is Write ==> {
                &&& final(self).data is Write
                &&& r == min(
                    data@.len() as int,
                    chunk_of(old(self).content(), index as nat, BLOCK_SIZE as nat).len() as int,
                )
                &&& final(self).content() == write_chunk_of(
                    old(self).content(),
                    index as nat,
                    BLOCK_SIZE as nat,
                    data@,
                )
            },
    {
        match &mut self.data {
            FileContent::Read(_) => 0,
            FileContent::Write(w) => write_piece(w, BLOCK_SIZE, index, data),
            FileContent::Dynamic(rw, _) => rw.write_chunk(index, data),
        }
    }

    /// Fetch the file name
    pub fn name(&self) -> (r: &str)
        ensures
            r == self.name,
    {
        self.name
    }

    /// Fetch short file name for directory entry
    pub fn short_name(&self) -> (r: Result<[u8; 11], FileError>)
        ensures
            match self.spec_short_name() {
                Some(s) => r is Ok && r->Ok_0@ == s,
                None => r == Err::<[u8; 11], FileError>(FileError::InvalidName),
            },
    {
        let n = self.name.as_bytes();
        let d = next_dot(n, 0);
        if d >= n.len() {
            return Err(FileError::InvalidName);
        }
        let e = next_dot(n, d + 1);
        let prefix_len = d;
        let ext_len = e - (d + 1);
        if ext_len == 0 || prefix_len + ext_len > 11 {
            return Err(FileError::InvalidName);
        }
        let mut short_name = [ASCII_SPACE; 11];
        let mut i: usize = 0;
        while i < prefix_len
            invariant
                prefix_len + ext_len <= 11,
                d == prefix_len,
                d < n@.len(),
                i <= prefix_len,
                short_name@.len() == 11,
                forall|j: int| 0 <= j < i ==> short_name@[j] == n@[j],
                forall|j: int| i <= j < 11 ==> short_name@[j] == ASCII_SPACE,
            decreases prefix_len - i,
        {
            short_name[i] = n[i];
            i += 1;
        }
        let mut k: usize = 0;
        while k < ext_len
            invariant
                prefix_len + ext_len <= 11,
                d == prefix_len,
                e == d + 1 + ext_len,
                e <= n@.len(),
                k <= ext_len,
                short_name@.len() == 11,
                forall|j: int| 0 <= j < prefix_len ==> short_name@[j] == n@[j],
                forall|j: int| prefix_len <= j < 11 - ext_len ==> short_name@[j] == ASCII_SPACE,
                forall|j: int|
                    11 - ext_len <= j < 11 - ext_len + k ==> short_name@[j] == n@[d + 1 + j - (11
                        - ext_len)],
                forall|j: int| 11 - ext_len + k <= j < 11 ==> short_name@[j] == ASCII_SPACE,
            decreases ext_len - k,
        {
            short_name[11 - ext_len + k] = n[d + 1 + k];
            k += 1;
        }
        assert(short_name@ =~= self.spec_short_name().unwrap());
        Ok(short_name)
    }
}

} // verus!
