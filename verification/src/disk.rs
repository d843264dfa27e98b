//! The disk: an image of blocks in memory, and the commands that bring its backing file up to date.

use crate::bytes::{copy_into, splice};
use vstd::prelude::*;

verus! {

/// Size of the virtual disk in bytes.
pub const DISK_SIZE: u64 = 10485760;

/// Size of a block in bytes.
pub const BLOCK_SIZE: usize = 512;

/// Bytes of a block that hold data: the last two are kept for a link to another block.
pub const PAGE_SIZE: usize = 510;

/// Number of blocks of the virtual disk.
pub const MAX_BLOCKS: u32 = 20480;

/// A change that the backing file of a disk has yet to see.
pub enum DiskCommand {
    /// Make the file `size` bytes long.
    Truncate { size: u64 },
    /// Write one block and wait until it is on the medium.
    WriteBlock { block_num: u32, bytes: Vec<u8> },
}

/// What a `DiskCommand` asks for.
pub enum Command {
    Truncate { size: int },
    WriteBlock { block_num: int, bytes: Seq<u8> },
}

impl View for DiskCommand {
    type V = Command;

    open spec fn view(&self) -> Command {
        match *self {
            DiskCommand::Truncate { size } => Command::Truncate { size: size as int },
            DiskCommand::WriteBlock { block_num, bytes } => Command::WriteBlock {
                block_num: block_num as int,
                bytes: bytes@,
            },
        }
    }
}

/// `image` cut off or filled up with zeros to `size` bytes.
pub open spec fn resized(image: Seq<u8>, size: int) -> Seq<u8> {
    Seq::new(size as nat, |i: int| if i < image.len() { image[i] } else { 0u8 })
}

/// `image` with block `b` replaced by `bytes`; a block past the end makes the image longer.
pub open spec fn with_block(image: Seq<u8>, b: int, bytes: Seq<u8>) -> Seq<u8> {
    let end = b * BLOCK_SIZE + BLOCK_SIZE;
    splice(
        resized(image, if end <= image.len() { image.len() as int } else { end }),
        b * BLOCK_SIZE,
        bytes,
    )
}

/// The image after one command.
pub open spec fn carried_out(image: Seq<u8>, c: Command) -> Seq<u8> {
    match c {
        Command::Truncate { size } => resized(image, size),
        Command::WriteBlock { block_num, bytes } => with_block(image, block_num, bytes),
    }
}

/// The image after all commands of `log`, in order.
pub open spec fn replayed(image: Seq<u8>, log: Seq<Command>) -> Seq<u8>
    decreases log.len(),
{
    if log.len() == 0 {
        image
    } else {
        carried_out(replayed(image, log.drop_last()), log.last())
    }
}

/// A disk: its bytes, and the commands issued since they were last handed out.
#[verifier::ext_equal]
pub struct DiskView {
    pub image: Seq<u8>,
    pub log: Seq<Command>,
}

impl DiskView {
    /// Block `b` lies wholly on the disk.
    pub open spec fn has(self, b: int) -> bool {
        0 <= b && b * BLOCK_SIZE + BLOCK_SIZE <= self.image.len()
    }

    /// The bytes of block `b`.
    #[verifier::opaque]
    pub open spec fn block(self, b: int) -> Seq<u8> {
        self.image.subrange(b * BLOCK_SIZE, b * BLOCK_SIZE + BLOCK_SIZE)
    }

    /// The disk after one command.
    pub open spec fn run(self, c: Command) -> DiskView {
        DiskView { image: carried_out(self.image, c), log: self.log.push(c) }
    }

    /// The disk after `bytes` have been written to block `b`.
    #[verifier::opaque]
    pub open spec fn write(self, b: int, bytes: Seq<u8>) -> DiskView {
        self.run(Command::WriteBlock { block_num: b, bytes })
    }

    /// The disk made `size` bytes long.
    pub open spec fn truncate(self, size: int) -> DiskView {
        self.run(Command::Truncate { size })
    }
}

/// A block written is the block read back, and no other block of the disk changes.
pub broadcast proof fn lemma_block_of_write(d: DiskView, b: int, bytes: Seq<u8>, c: int)
    requires
        0 <= b,
        bytes.len() == BLOCK_SIZE,
        d.has(c) || c == b,
    ensures
        #[trigger] d.write(b, bytes).block(c) == if c == b { bytes } else { d.block(c) },
{
    reveal(DiskView::write);
    reveal(DiskView::block);
    assert(d.write(b, bytes).block(c) =~= if c == b { bytes } else { d.block(c) });
}

/// A write loses no block of the disk, and the block written is on it afterwards.
pub broadcast proof fn lemma_has_after_write(d: DiskView, b: int, bytes: Seq<u8>, c: int)
    requires
        0 <= b,
        bytes.len() == BLOCK_SIZE,
    ensures
        d.has(c) || c == b ==> #[trigger] d.write(b, bytes).has(c),
        d.has(b) ==> d.write(b, bytes).has(c) == d.has(c),
{
    reveal(DiskView::write);
}

/// A block has `BLOCK_SIZE` bytes.
pub broadcast proof fn lemma_block_len(d: DiskView, b: int)
    requires
        d.has(b),
    ensures
        #[trigger] d.block(b).len() == BLOCK_SIZE,
{
    reveal(DiskView::block);
}

pub broadcast group group_disk {
    lemma_block_of_write,
    lemma_has_after_write,
    lemma_block_len,
}

/// The disk image and the commands not yet handed to whoever keeps the backing file.
pub struct Disk {
    image: Vec<u8>,
    log: Vec<DiskCommand>,
}

impl View for Disk {
    type V = DiskView;

    closed spec fn view(&self) -> DiskView {
        DiskView { image: self.image@, log: self.log@.map_values(|c: DiskCommand| c@) }
    }
}

impl Disk {
    /// A disk whose bytes are those of its backing file.
    pub fn open(image: Vec<u8>) -> (r: Disk)
        ensures
            r@ == (DiskView { image: image@, log: Seq::empty() }),
    {
        let r = Disk { image, log: Vec::new() };
        assert(r@ =~= DiskView { image: image@, log: Seq::empty() });
        r
    }

    /// Size of the disk in bytes.
    pub fn size(&self) -> (r: u64)
        ensures
            r == self@.image.len(),
    {
        self.image.len() as u64
    }

    /// Makes the disk `size` bytes long; new bytes are zero.
    pub fn truncate(&mut self, size: u64)
        requires
            size <= isize::MAX,
        ensures
            final(self)@ == old(self)@.truncate(size as int),
    {
        self.image.resize(size as usize, 0u8);
        self.log.push(DiskCommand::Truncate { size });
        assert(self@ =~= old(self)@.truncate(size as int));
    }

    /// Whether block `block_num` lies wholly on the disk.
    pub fn has_block(&self, block_num: u32) -> (r: bool)
        ensures
            r == self@.has(block_num as int),
    {
        let n: u64 = self.image.len() as u64;
        block_num as u64 * 512 + 512 <= n
    }

    /// Copies block `block_num` to the front of `buf`.
    pub fn read_block(&self, block_num: u32, buf: &mut [u8])
        requires
            self@.has(block_num as int),
            old(buf)@.len() >= BLOCK_SIZE,
        ensures
            final(buf)@ == splice(old(buf)@, 0, self@.block(block_num as int)),
    {
        assert(self.image.len() == self.image@.len());
        let start: usize = block_num as usize * BLOCK_SIZE;
        copy_into(buf, 0, &self.image[start..start + BLOCK_SIZE]);
        assert(self.image@.subrange(start as int, start + BLOCK_SIZE) == self@.block(
            block_num as int,
        )) by {
            reveal(DiskView::block);
        }
    }

    /// The bytes of block `block_num`, if it lies on the disk.
    pub fn try_load(&self, block_num: u32) -> (r: Option<Vec<u8>>)
        ensures
            match r {
                Some(bytes) => {
                    &&& self@.has(block_num as int)
                    &&& bytes@ == self@.block(block_num as int)
                    &&& bytes@.len() == BLOCK_SIZE
                    &&& block_num * BLOCK_SIZE + BLOCK_SIZE <= usize::MAX
                },
                None => !self@.has(block_num as int),
            },
    {
        if self.has_block(block_num) {
            Some(self.load(block_num))
        } else {
            None
        }
    }

    /// The bytes of block `block_num`.
    pub fn load(&self, block_num: u32) -> (r: Vec<u8>)
        requires
            self@.has(block_num as int),
        ensures
            r@ == self@.block(block_num as int),
            r@.len() == BLOCK_SIZE,
            block_num * BLOCK_SIZE + BLOCK_SIZE <= usize::MAX,
    {
        broadcast use group_disk;

        assert(self.image.len() == self.image@.len());
        let mut buf: Vec<u8> = vec![0u8; BLOCK_SIZE];
        self.read_block(block_num, &mut buf);
        assert(buf@ =~= self@.block(block_num as int));
        buf
    }

    /// Writes the first `BLOCK_SIZE` bytes of `buf` to block `block_num`.
    pub fn write_block(&mut self, block_num: u32, buf: &[u8])
        requires
            buf@.len() >= BLOCK_SIZE,
            block_num * BLOCK_SIZE + BLOCK_SIZE <= usize::MAX,
        ensures
            final(self)@ == old(self)@.write(
                block_num as int,
                buf@.subrange(0, BLOCK_SIZE as int),
            ),
    {
        let start: usize = block_num as usize * BLOCK_SIZE;
        let end: usize = start + BLOCK_SIZE;
        if end > self.image.len() {
            self.image.resize(end, 0u8);
        }
        copy_into(&mut self.image, start, &buf[0..BLOCK_SIZE]);
        let mut bytes: Vec<u8> = vec![0u8; BLOCK_SIZE];
        copy_into(&mut bytes, 0, &buf[0..BLOCK_SIZE]);
        assert(bytes@ =~= buf@.subrange(0, BLOCK_SIZE as int));
        self.log.push(DiskCommand::WriteBlock { block_num, bytes });
        proof {
            reveal(DiskView::write);
            assert(self@ =~= old(self)@.write(block_num as int, bytes@));
        }
    }

    /// Copies `len` bytes of block `block_num`, from position `offset` on, to the front of `buf`;
    /// what would lie past the end of the block is left out.
    pub fn read_partial(&self, block_num: u32, offset: usize, len: usize, buf: &mut [u8])
        requires
            self@.has(block_num as int),
            offset <= BLOCK_SIZE,
            offset + len <= usize::MAX,
            old(buf)@.len() >= if offset + len <= BLOCK_SIZE {
                len as int
            } else {
                BLOCK_SIZE - offset
            },
        ensures
            final(buf)@ == splice(
                old(buf)@,
                0,
                self@.block(block_num as int).subrange(
                    offset as int,
                    if offset + len <= BLOCK_SIZE { offset + len } else { BLOCK_SIZE as int },
                ),
            ),
    {
        let block_buf = self.load(block_num);
        let end: usize = if offset + len <= BLOCK_SIZE { offset + len } else { BLOCK_SIZE };
        copy_into(buf, 0, &block_buf[offset..end]);
    }

    /// Writes `data` over block `block_num` from position `offset` on; what would lie past the
    /// data area of the block is left out.
    pub fn write_partial(&mut self, block_num: u32, offset: usize, data: &[u8])
        requires
            old(self)@.has(block_num as int),
            offset <= PAGE_SIZE,
            offset + data@.len() <= usize::MAX,
        ensures
            final(self)@ == old(self)@.write(
                block_num as int,
                splice(
                    old(self)@.block(block_num as int),
                    offset as int,
                    if offset + data@.len() <= PAGE_SIZE {
                        data@
                    } else {
                        data@.subrange(0, PAGE_SIZE - offset)
                    },
                ),
            ),
    {
        let mut block_buf = self.load(block_num);
        let n: usize = data.len();
        let end: usize = if offset + n <= PAGE_SIZE { offset + n } else { PAGE_SIZE };
        copy_into(&mut block_buf, offset, &data[0..end - offset]);
        assert(data@.subrange(0, n as int) =~= data@);
        assert(block_buf@.subrange(0, BLOCK_SIZE as int) =~= block_buf@);
        self.write_block(block_num, &block_buf);
    }

    /// Hands out the commands issued since the last call.
    pub fn take_commands(&mut self) -> (r: Vec<DiskCommand>)
        ensures
            r@.map_values(|c: DiskCommand| c@) == old(self)@.log,
            final(self)@ == (DiskView { image: old(self)@.image, log: Seq::empty() }),
    {
        let mut log: Vec<DiskCommand> = Vec::new();
        std::mem::swap(&mut log, &mut self.log);
        assert(self@ =~= DiskView { image: old(self)@.image, log: Seq::empty() });
        log
    }
}

} // verus!
