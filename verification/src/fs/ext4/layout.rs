//! The ext4 file object of the kernel: one open file, its offset and
//! permissions, and the inode it stands for with that inode's page cache.
//!
//! The inode and its page cache are kept apart from the file objects, in
//! the open inodes, under a handle; every file object opened or cloned from
//! another holds the same handle and so sees the same inode and cache.
//!
//! A read or write loads the pages it touches that are not cached from the
//! disk blocks that hold them. Reading the blocks is the caller's part: it
//! hands them in, page `p` as `disk[p]`, and the contracts state the bytes
//! of the file over what the page cache and those blocks hold.

use super::cache::{CACHE_SZ, PageCacheManager};
use crate::fs::{
    makedev, spec_makedev, Dirent, DiskInodeType, OpenFlags, SeekWhence, Stat, EINVAL, ENOTDIR,
    ENOTEMPTY, O_APPEND, O_RDONLY, O_RDWR, O_WRONLY, SEEK_CUR, SEEK_END, SEEK_SET, S_IFDIR,
    S_IFREG, S_IRWXG, S_IRWXO, S_IRWXU,
};
use vstd::prelude::*;

verus! {

/// The ext file-system generations.
#[derive(Clone, Copy, Debug, PartialEq, Eq, Structural)]
pub enum ExtType {
    Ext2,
    Ext3,
    Ext4,
}

/// Regular-file type bits of an ext4 inode mode.
pub const INODE_S_IFREG: u16 = 0x8000;

/// Directory type bits of an ext4 inode mode.
pub const INODE_S_IFDIR: u16 = 0x4000;

/// Owner read permission of an ext4 inode mode.
pub const INODE_S_IREAD: u16 = 0o400;

/// Owner write permission of an ext4 inode mode.
pub const INODE_S_IWRITE: u16 = 0o200;

/// The fields of an on-disk ext4 inode that the file object reads: its
/// size, its type, its times, and the physical block of each logical block.
pub struct Ext4Inode {
    pub size: u64,
    pub file_type: DiskInodeType,
    pub atime: u32,
    pub mtime: u32,
    pub ctime: u32,
    pub blocks: Vec<u32>,
}

/// An inode together with its number.
pub struct Ext4InodeRef {
    pub inode_num: u32,
    pub inode: Ext4Inode,
}

impl Ext4InodeRef {
    /// Two inode references hold the same values.
    pub open spec fn same(&self, other: &Ext4InodeRef) -> bool {
        &&& self.inode_num == other.inode_num
        &&& self.inode.size == other.inode.size
        &&& self.inode.file_type == other.inode.file_type
        &&& self.inode.atime == other.inode.atime
        &&& self.inode.mtime == other.inode.mtime
        &&& self.inode.ctime == other.inode.ctime
        &&& self.inode.blocks@ == other.inode.blocks@
    }

    /// Two inode references hold the same values but perhaps the size.
    pub open spec fn same_but_size(&self, other: &Ext4InodeRef) -> bool {
        &&& self.inode_num == other.inode_num
        &&& self.inode.file_type == other.inode.file_type
        &&& self.inode.atime == other.inode.atime
        &&& self.inode.mtime == other.inode.mtime
        &&& self.inode.ctime == other.inode.ctime
        &&& self.inode.blocks@ == other.inode.blocks@
    }

    /// A copy of this inode reference.
    pub fn duplicate(&self) -> (r: Ext4InodeRef)
        ensures
            r.same(self),
    {
        let blocks = self.inode.blocks.clone();
        proof {
            assert(blocks@ =~= self.inode.blocks@);
        }
        Ext4InodeRef {
            inode_num: self.inode_num,
            inode: Ext4Inode {
                size: self.inode.size,
                file_type: self.inode.file_type,
                atime: self.inode.atime,
                mtime: self.inode.mtime,
                ctime: self.inode.ctime,
                blocks,
            },
        }
    }
}

/// The mounted file system as the file object sees it: its block size, and
/// the lookups and updates of inodes that the file object asks of it.
#[derive(Clone, Copy, Debug, PartialEq, Eq, Structural)]
pub struct Ext4FileSystem {
    pub block_size: usize,
}

impl Ext4FileSystem {
    /// The physical block that holds logical block `lblock` of the inode.
    pub fn get_pblock_idx(&self, inode_ref: &Ext4InodeRef, lblock: u32) -> (r: Result<u64, ()>)
        ensures
            r == if lblock < inode_ref.inode.blocks@.len() {
                Ok::<u64, ()>(inode_ref.inode.blocks@[lblock as int] as u64)
            } else {
                Err::<u64, ()>(())
            },
    {
        if (lblock as usize) < inode_ref.inode.blocks.len() {
            Ok(inode_ref.inode.blocks[lblock as usize] as u64)
        } else {
            Err(())
        }
    }

    /// Sets the recorded size of an inode; its block map stays as it is.
    pub fn truncate_inode(&self, inode_ref: &mut Ext4InodeRef, new_size: u64) -> (r: Result<usize, isize>)
        ensures
            r is Ok,
            final(inode_ref).inode_num == old(inode_ref).inode_num,
            final(inode_ref).inode.size == new_size,
            final(inode_ref).inode.file_type == old(inode_ref).inode.file_type,
            final(inode_ref).inode.atime == old(inode_ref).inode.atime,
            final(inode_ref).inode.mtime == old(inode_ref).inode.mtime,
            final(inode_ref).inode.ctime == old(inode_ref).inode.ctime,
            final(inode_ref).inode.blocks@ == old(inode_ref).inode.blocks@,
    {
        inode_ref.inode.size = new_size;
        Ok(0)
    }
}

/// One entry of an ext4 directory as the file system lists it.
pub struct Ext4DirEntry {
    pub inode: u32,
    pub entry_len: u16,
    pub de_type: u8,
    pub name: String,
}

/// Unknown directory entry type.
pub const EXT4_DE_UNKNOWN: u8 = 0;

/// Regular file directory entry type.
pub const EXT4_DE_REG_FILE: u8 = 1;

/// Directory directory entry type.
pub const EXT4_DE_DIR: u8 = 2;

/// Unknown `d_type` of a `getdents` record.
pub const DT_UNKNOWN: u8 = 0;

/// Directory `d_type` of a `getdents` record.
pub const DT_DIR: u8 = 4;

/// Regular file `d_type` of a `getdents` record.
pub const DT_REG: u8 = 8;

/// The `d_type` that `getdents` reports for an ext4 entry type.
pub open spec fn spec_d_type(de_type: u8) -> u8 {
    if de_type == EXT4_DE_DIR {
        DT_DIR
    } else if de_type == EXT4_DE_REG_FILE {
        DT_REG
    } else {
        DT_UNKNOWN
    }
}

/// The `stat` mode of an inode of the given type: its type bits and every
/// permission bit.
pub open spec fn spec_stat_mode(file_type: DiskInodeType) -> u32 {
    if file_type == DiskInodeType::Directory {
        S_IFDIR | S_IRWXU | S_IRWXG | S_IRWXO
    } else {
        S_IFREG | S_IRWXU | S_IRWXG | S_IRWXO
    }
}

/// What `create` asks the file system to make.
#[derive(Debug)]
pub struct CreateRequest {
    /// The inode number of the directory to create in.
    pub parent_inode_num: u32,
    /// The new entry's name.
    pub name: String,
    /// Whether a directory is made (else a regular file).
    pub directory: bool,
    /// The mode of the new inode.
    pub mode: u16,
}

/// What removing an inode from its parent directory involves.
#[derive(Clone, Copy, Debug, PartialEq, Eq, Structural)]
pub enum UnlinkAction {
    /// Truncate the directory to nothing, then remove its entry.
    RemoveDirectory,
    /// Remove the file's entry.
    RemoveFile,
}

/// A list of buffers being written: where the next one goes, how many bytes
/// have been written, whether the offset is the file object's own, and the
/// inode as it was when the write began.
pub struct UserWrite {
    pub offset: usize,
    pub total: usize,
    pub own_offset: bool,
    pub inode_ref: Ext4InodeRef,
}

/// An inode and its page cache: the state that every file object opened on
/// the inode shares.
pub struct SharedInode {
    pub inode: Ext4InodeRef,
    pub file_cache_manager: PageCacheManager,
}

impl SharedInode {
    /// The page cache is well formed.
    pub open spec fn wf(&self) -> bool {
        self.file_cache_manager.wf()
    }

    /// The size of the file in bytes.
    pub open spec fn size(&self) -> int {
        self.inode.inode.size as int
    }

    /// Byte `i` of the file as the page cache holds it.
    pub open spec fn byte(&self, i: int) -> u8 {
        self.file_cache_manager.byte(i)
    }

    /// The bytes a read of `len` bytes from position `start` gets, where
    /// `disk[p]` gives the disk blocks of page `p`: those from `start` up to
    /// the end of the read or of the file.
    pub open spec fn read_bytes(&self, start: int, len: int, disk: Seq<Vec<Vec<u8>>>, bs: int) -> Seq<
        u8,
    > {
        Seq::new(
            spec_read_len(start, len, self.size()) as nat,
            |k: int| self.content(disk, bs, start + k),
        )
    }

    /// Every page holding a byte from `lo` up to `hi` is cached.
    pub open spec fn covers(&self, lo: int, hi: int) -> bool {
        self.file_cache_manager.covers(lo, hi)
    }

    /// Page `p` holds a byte from `lo` up to `hi` and is not cached: a read
    /// or write of that range loads it.
    pub open spec fn loads(&self, lo: int, hi: int, p: int) -> bool {
        &&& lo < hi
        &&& lo / (CACHE_SZ as int) <= p
        &&& p * CACHE_SZ < hi
        &&& !self.file_cache_manager.cached(p)
    }

    /// `disk` gives, for each page `p` that the range from `lo` up to `hi`
    /// loads, as `disk[p]`, the disk blocks of `bs` bytes it is loaded from
    /// (no more than fit in a page).
    pub open spec fn disk_fits(&self, lo: int, hi: int, disk: Seq<Vec<Vec<u8>>>, bs: int) -> bool {
        forall|p: int|
            #[trigger] self.loads(lo, hi, p) ==> {
                &&& bs > 0
                &&& p < disk.len()
                &&& disk[p]@.len() * bs <= CACHE_SZ
                &&& forall|k: int| 0 <= k < disk[p]@.len() ==> (#[trigger] disk[p]@[k])@.len() == bs
            }
    }

    /// Byte `i` of the file, where `disk[p]` gives the disk blocks, of `bs`
    /// bytes each, of page `p`: as the page cache holds it where its page is
    /// cached, else as the disk blocks give it.
    pub open spec fn content(&self, disk: Seq<Vec<Vec<u8>>>, bs: int, i: int) -> u8 {
        if 0 <= i && !self.file_cache_manager.cached(i / (CACHE_SZ as int)) && i / (
        CACHE_SZ as int) < disk.len() {
            spec_page_byte(disk[i / (CACHE_SZ as int)]@, bs, i % (CACHE_SZ as int))
        } else {
            self.byte(i)
        }
    }

    /// Byte `i` of the file once the range from `lo` up to `hi` is loaded
    /// from `disk`: in a page that the range loads, as its disk blocks give
    /// it; elsewhere as the page cache holds it.
    pub open spec fn loaded_byte(
        &self,
        lo: int,
        hi: int,
        disk: Seq<Vec<Vec<u8>>>,
        bs: int,
        i: int,
    ) -> u8 {
        if 0 <= i && self.loads(lo, hi, i / (CACHE_SZ as int)) {
            spec_page_byte(disk[i / (CACHE_SZ as int)]@, bs, i % (CACHE_SZ as int))
        } else {
            self.byte(i)
        }
    }

    /// This state is `before` with the range from `lo` up to `hi` loaded
    /// from `disk`: the same inode, the pages of the range cached besides
    /// those that were, and every byte as loaded.
    pub open spec fn spec_loaded(
        &self,
        before: &SharedInode,
        lo: int,
        hi: int,
        disk: Seq<Vec<Vec<u8>>>,
        bs: int,
    ) -> bool {
        &&& self.inode == before.inode
        &&& forall|p: int|
            #[trigger] self.file_cache_manager.cached(p) == (before.file_cache_manager.cached(p) || (
            lo < hi && lo / (CACHE_SZ as int) <= p && p * CACHE_SZ < hi))
        &&& forall|i: int|
            #![trigger self.byte(i)]
            self.byte(i) == before.loaded_byte(lo, hi, disk, bs, i)
    }

    /// The page cache of this state is that of `before` with `data` stored
    /// at position `start`, after the range it covers was loaded from
    /// `disk`: the pages of that range cached besides those that were, the
    /// data in place, and every other byte as loaded.
    pub open spec fn spec_stored(
        &self,
        before: &SharedInode,
        start: int,
        data: Seq<u8>,
        disk: Seq<Vec<Vec<u8>>>,
        bs: int,
    ) -> bool {
        let hi = start + data.len();
        &&& forall|p: int|
            #[trigger] self.file_cache_manager.cached(p) == (before.file_cache_manager.cached(p) || (
            start < hi && start / (CACHE_SZ as int) <= p && p * CACHE_SZ < hi))
        &&& forall|i: int|
            #![trigger self.byte(i)]
            self.byte(i) == if start <= i < hi {
                data[i - start]
            } else {
                before.loaded_byte(start, hi, disk, bs, i)
            }
    }

    /// The file reads zero from its end on, where `disk[p]` gives the disk
    /// blocks of page `p`.
    pub open spec fn clean_tail(&self, disk: Seq<Vec<Vec<u8>>>, bs: int) -> bool {
        forall|i: int| self.size() <= i ==> #[trigger] self.content(disk, bs, i) == 0
    }

    /// This state holds what writing `data` at position `start` into
    /// `before` leaves, where `disk[p]` gives the disk blocks of page `p`:
    /// the file reaches at least to the end of the data, and the data is
    /// stored there.
    pub open spec fn spec_written(
        &self,
        before: &SharedInode,
        start: int,
        data: Seq<u8>,
        disk: Seq<Vec<Vec<u8>>>,
        bs: int,
    ) -> bool {
        &&& self.size() == if before.size() < start + data.len() {
            start + data.len()
        } else {
            before.size()
        }
        &&& self.spec_stored(before, start, data, disk, bs)
    }

    /// The shared state of `inode` with nothing cached yet.
    pub fn new(inode: Ext4InodeRef) -> (s: Self)
        ensures
            s.wf(),
            s.inode == inode,
            forall|p: int| !(#[trigger] s.file_cache_manager.cached(p)),
            forall|i: int| #[trigger] s.byte(i) == 0,
    {
        SharedInode { inode, file_cache_manager: PageCacheManager::new() }
    }

    /// Copies the cached bytes from position `offset` on into `buffer`, page
    /// by page, up to the end of the buffer or of a file of `file_size`
    /// bytes. Returns how many bytes it copied; the rest of the buffer is
    /// left as it was.
    fn read_at(
        &self,
        offset: usize,
        buffer: &mut Vec<u8>,
        file_size: u64,
    ) -> (n: usize)
        requires
            self.wf(),
            offset + old(buffer)@.len() <= usize::MAX,
            file_size + CACHE_SZ <= usize::MAX,
        ensures
            n == spec_read_len(offset as int, old(buffer)@.len() as int, file_size as int),
            final(buffer)@.len() == old(buffer)@.len(),
            forall|k: int| 0 <= k < n ==> #[trigger] final(buffer)@[k] == self.byte(offset + k),
            forall|k: int|
                n <= k < old(buffer)@.len() ==> #[trigger] final(buffer)@[k] == old(buffer)@[k],
    {
        let mut start = offset;
        let size = file_size as usize;
        let end = if offset + buffer.len() < size {
            offset + buffer.len()
        } else {
            size
        };
        if start >= end {
            return 0;
        }
        let ghost old_buffer = buffer@;
        let mut start_cache = start / CACHE_SZ;
        let mut read_size: usize = 0;
        loop
            invariant_except_break
                offset <= start < end,
                read_size == start - offset,
                start_cache == start / CACHE_SZ,
            invariant
                self.wf(),
                end <= size,
                size + CACHE_SZ <= usize::MAX,
                end == offset + old_buffer.len() || end == size,
                end <= offset + old_buffer.len(),
                buffer@.len() == old_buffer.len(),
                forall|k: int| 0 <= k < read_size ==> #[trigger] buffer@[k] == self.byte(offset + k),
                forall|k: int|
                    read_size <= k < old_buffer.len() ==> #[trigger] buffer@[k] == old_buffer[k],
            ensures
                read_size == end - offset,
                buffer@.len() == old_buffer.len(),
                forall|k: int| 0 <= k < read_size ==> #[trigger] buffer@[k] == self.byte(offset + k),
                forall|k: int|
                    read_size <= k < old_buffer.len() ==> #[trigger] buffer@[k] == old_buffer[k],
            decreases end - start,
        {
            let mut end_current_block = (start / CACHE_SZ + 1) * CACHE_SZ;
            if end < end_current_block {
                end_current_block = end;
            }
            let block_read_size = end_current_block - start;
            proof {
                super::cache::lemma_byte_position(start as int);
            }
            let ghost before = buffer@;
            self.file_cache_manager.read(
                start_cache,
                start % CACHE_SZ,
                block_read_size,
                buffer,
                read_size,
            );
            proof {
                assert forall|k: int| 0 <= k < read_size + block_read_size implies #[trigger] buffer@[k]
                    == self.byte(offset + k) by {
                    if k >= read_size {
                        let m = k - read_size;
                        assert(buffer@[read_size + m] == self.byte(
                            start_cache * CACHE_SZ + start % CACHE_SZ + m,
                        ));
                    } else {
                        assert(before[k] == self.byte(offset + k));
                    }
                }
            }
            read_size += block_read_size;
            if end_current_block == end {
                break;
            }
            start_cache += 1;
            start = end_current_block;
            proof {
                super::cache::lemma_page_position(start_cache as int, 0);
            }
        }
        read_size
    }

    fn update_block_cache(&mut self, offset: usize, buf: &Vec<u8>, file_size: u64) -> (n:
        usize)
        requires
            old(self).wf(),
            offset <= file_size,
            old(self).covers(
                offset as int,
                offset + spec_read_len(offset as int, buf@.len() as int, file_size as int),
            ),
            offset + buf@.len() <= usize::MAX,
            file_size + CACHE_SZ <= usize::MAX,
        ensures
            n == spec_read_len(offset as int, buf@.len() as int, file_size as int),
            final(self).wf(),
            final(self).inode == old(self).inode,
            forall|p: int|
                #[trigger] final(self).file_cache_manager.cached(p) == old(self).file_cache_manager.cached(p),
            forall|i: int|
                #![trigger final(self).byte(i)]
                final(self).byte(i) == if offset <= i < offset + n {
                    buf@[i - offset]
                } else {
                    old(self).byte(i)
                },
    {
        let ghost old_self = *self;
        let mut start = offset;
        let old_size = file_size as usize;
        let end = if offset + buf.len() < old_size {
            offset + buf.len()
        } else {
            old_size
        };
        let mut start_cache = start / CACHE_SZ;
        let mut write_size: usize = 0;
        loop
            invariant_except_break
                offset <= start <= end,
                write_size == start - offset,
                start_cache == start / CACHE_SZ,
            invariant
                self.wf(),
                self.inode == old_self.inode,
                forall|p: int|
                    #[trigger] self.file_cache_manager.cached(p) == old_self.file_cache_manager.cached(p),
                old_self.covers(offset as int, end as int),
                end <= old_size,
                old_size + CACHE_SZ <= usize::MAX,
                end == offset + buf@.len() || end == old_size,
                end <= offset + buf@.len(),
                forall|i: int|
                    #![trigger self.byte(i)]
                    self.byte(i) == if offset <= i < offset + write_size {
                        buf@[i - offset]
                    } else {
                        old_self.byte(i)
                    },
            ensures
                write_size == end - offset,
            decreases end - start,
        {
            let mut end_current_block = (start / CACHE_SZ + 1) * CACHE_SZ;
            if end < end_current_block {
                end_current_block = end;
            }
            let block_write_size = end_current_block - start;
            proof {
                super::cache::lemma_byte_position(start as int);
                if block_write_size > 0 {
                    assert(old_self.file_cache_manager.cached_at(start as int));
                }
            }
            let ghost before = *self;
            self.file_cache_manager.modify(
                start_cache,
                start % CACHE_SZ,
                buf,
                write_size,
                block_write_size,
            );
            proof {
                assert(start_cache * CACHE_SZ + start % CACHE_SZ == start);
                assert forall|i: int|
                    #![trigger self.byte(i)]
                    self.byte(i) == if offset <= i < offset + write_size + block_write_size {
                        buf@[i - offset]
                    } else {
                        old_self.byte(i)
                    } by {
                    assert(before.byte(i) == if offset <= i < offset + write_size {
                        buf@[i - offset]
                    } else {
                        old_self.byte(i)
                    });
                    if start <= i < start + block_write_size {
                        assert(self.byte(i) == buf@[write_size + i - start]);
                    } else {
                        assert(self.byte(i) == before.byte(i));
                    }
                }
            }
            write_size += block_write_size;
            if end_current_block == end {
                break;
            }
            start_cache += 1;
            start = end_current_block;
            proof {
                super::cache::lemma_page_position(start_cache as int, 0);
            }
        }
        write_size
    }

    /// Reads `buffer` from position `offset` on in a file of `file_size`
    /// bytes, first loading the pages of the range read that are not
    /// cached, page `p` from its blocks in `disk[p]`.
    fn read_loading(
        &mut self,
        offset: usize,
        buffer: &mut Vec<u8>,
        file_size: u64,
        disk: &Vec<Vec<Vec<u8>>>,
        bs: usize,
    ) -> (n: usize)
        requires
            old(self).wf(),
            offset + old(buffer)@.len() <= usize::MAX,
            file_size + CACHE_SZ <= usize::MAX,
            old(self).disk_fits(
                offset as int,
                offset + spec_read_len(offset as int, old(buffer)@.len() as int, file_size as int),
                disk@,
                bs as int,
            ),
        ensures
            n == spec_read_len(offset as int, old(buffer)@.len() as int, file_size as int),
            final(self).wf(),
            final(self).spec_loaded(old(self), offset as int, offset + n, disk@, bs as int),
            final(buffer)@.len() == old(buffer)@.len(),
            forall|k: int|
                0 <= k < n ==> #[trigger] final(buffer)@[k] == old(self).content(
                    disk@,
                    bs as int,
                    offset + k,
                ),
            forall|k: int|
                n <= k < old(buffer)@.len() ==> #[trigger] final(buffer)@[k] == old(buffer)@[k],
    {
        let ghost old_self = *self;
        let end = if offset + buffer.len() < file_size as usize {
            offset + buffer.len()
        } else {
            file_size as usize
        };
        let hi = if offset < end {
            end
        } else {
            offset
        };
        self.load_range(offset, hi, disk, bs);
        let n = self.read_at(offset, buffer, file_size);
        proof {
            assert forall|k: int| 0 <= k < n implies #[trigger] buffer@[k] == old_self.content(
                disk@,
                bs as int,
                offset + k,
            ) by {
                lemma_loaded_is_content(&old_self, offset as int, hi as int, disk@, bs as int, offset + k);
            }
        }
        n
    }

    /// Writes `buf` at position `offset` in a file of `file_size` bytes, up
    /// to its end, first loading the pages of the range written that are
    /// not cached, page `p` from its blocks in `disk[p]`.
    fn write_loading(
        &mut self,
        offset: usize,
        buf: &Vec<u8>,
        file_size: u64,
        disk: &Vec<Vec<Vec<u8>>>,
        bs: usize,
    ) -> (n: usize)
        requires
            old(self).wf(),
            offset <= file_size,
            offset + buf@.len() <= usize::MAX,
            file_size + CACHE_SZ <= usize::MAX,
            old(self).disk_fits(
                offset as int,
                offset + spec_read_len(offset as int, buf@.len() as int, file_size as int),
                disk@,
                bs as int,
            ),
        ensures
            n == spec_read_len(offset as int, buf@.len() as int, file_size as int),
            final(self).wf(),
            final(self).inode == old(self).inode,
            final(self).spec_stored(old(self), offset as int, buf@.subrange(0, n as int), disk@, bs as int),
    {
        let ghost old_self = *self;
        let end = if offset + buf.len() < file_size as usize {
            offset + buf.len()
        } else {
            file_size as usize
        };
        self.load_range(offset, end, disk, bs);
        let ghost loaded = *self;
        let n = self.update_block_cache(offset, buf, file_size);
        proof {
            assert forall|i: int|
                #![trigger self.byte(i)]
                self.byte(i) == if offset <= i < offset + n {
                    buf@.subrange(0, n as int)[i - offset]
                } else {
                    old_self.loaded_byte(offset as int, offset + n, disk@, bs as int, i)
                } by {
                assert(loaded.byte(i) == old_self.loaded_byte(
                    offset as int,
                    end as int,
                    disk@,
                    bs as int,
                    i,
                ));
            }
        }
        n
    }

    /// Reads into each buffer of `buf` in turn from position `start` on,
    /// continuing where the previous read ended; it stops at the end of the
    /// file or at the first empty buffer.
    fn read_buffers(&self, start: usize, buf: &mut Vec<Vec<u8>>) -> (n: usize)
        requires
            self.wf(),
            start + spec_prefix_len(old(buf)@, old(buf)@.len() as int) <= usize::MAX,
            self.size() + CACHE_SZ <= usize::MAX,
        ensures
            n == spec_user_read_len(old(buf)@, start as int, self.size()),
            final(buf)@.len() == old(buf)@.len(),
            forall|j: int|
                0 <= j < old(buf)@.len() ==> (#[trigger] final(buf)@[j])@.len() == old(buf)@[j]@.len(),
            forall|j: int, k: int|
                0 <= j < old(buf)@.len() && 0 <= k < old(buf)@[j]@.len()
                    ==> #[trigger] final(buf)@[j]@[k] == if j < spec_first_empty(old(buf)@, 0) && k < spec_available(
                    start as int,
                    self.size(),
                ) - spec_prefix_len(old(buf)@, j) {
                    self.byte(start + spec_prefix_len(old(buf)@, j) + k)
                } else {
                    old(buf)@[j]@[k]
                },
    {
        let ghost old_buf = buf@;
        let ghost size = self.size();
        let ghost avail = spec_available(start as int, size);
        let ghost z = spec_first_empty(old_buf, 0);
        let mut off = start;
        let mut total_read_size: usize = 0;
        let mut i: usize = 0;
        proof {
            lemma_prefix_monotonic(old_buf, 0, old_buf.len() as int);
            lemma_first_empty_bounds(old_buf, 0);
        }
        while i < buf.len()
            invariant_except_break
                i <= old_buf.len(),
                total_read_size == spec_min(spec_prefix_len(old_buf, i as int), avail),
            invariant
                self.wf(),
                size == self.size(),
                size + CACHE_SZ <= usize::MAX,
                avail == spec_available(start as int, size),
                z == spec_first_empty(old_buf, 0),
                start + spec_prefix_len(old_buf, old_buf.len() as int) <= usize::MAX,
                off == start + total_read_size,
                i <= old_buf.len(),
                i <= z <= old_buf.len(),
                z == spec_first_empty(old_buf, i as int),
                buf@.len() == old_buf.len(),
                forall|j: int| 0 <= j < old_buf.len() ==> (#[trigger] buf@[j])@.len() == old_buf[j]@.len(),
                forall|j: int, k: int|
                    0 <= j < old_buf.len() && 0 <= k < old_buf[j]@.len() ==> #[trigger] buf@[j]@[k]
                        == if j < i && k < avail - spec_prefix_len(old_buf, j) {
                        self.byte(start + spec_prefix_len(old_buf, j) + k)
                    } else {
                        old_buf[j]@[k]
                    },
            ensures
                total_read_size == spec_min(spec_prefix_len(old_buf, z), avail),
                forall|j: int, k: int|
                    0 <= j < old_buf.len() && 0 <= k < old_buf[j]@.len() ==> #[trigger] buf@[j]@[k]
                        == if j < z && k < avail - spec_prefix_len(old_buf, j) {
                        self.byte(start + spec_prefix_len(old_buf, j) + k)
                    } else {
                        old_buf[j]@[k]
                    },
            decreases old_buf.len() - i,
        {
            proof {
                lemma_prefix_monotonic(old_buf, i as int, i + 1);
                lemma_prefix_monotonic(old_buf, i + 1, old_buf.len() as int);
                lemma_prefix_monotonic(old_buf, i as int, z);
                lemma_first_empty_bounds(old_buf, i + 1);
            }
            let mut slice: Vec<u8> = Vec::new();
            core::mem::swap(&mut slice, &mut buf[i]);
            let ghost before = slice@;
            assert(before == old_buf[i as int]@);
            let read_size = self.read_at(off, &mut slice, self.inode.inode.size);
            buf[i] = slice;
            if read_size == 0 {
                proof {
                    if old_buf[i as int]@.len() != 0 {
                        assert(off >= size);
                    }
                    assert forall|j: int, k: int|
                        0 <= j < old_buf.len() && 0 <= k < old_buf[j]@.len() implies #[trigger] buf@[j]@[k]
                            == if j < z && k < avail - spec_prefix_len(old_buf, j) {
                            self.byte(start + spec_prefix_len(old_buf, j) + k)
                        } else {
                            old_buf[j]@[k]
                        } by {
                        if j > i {
                            lemma_prefix_monotonic(old_buf, i as int, j);
                        }
                    }
                }
                break;
            }
            proof {
                assert forall|j: int, k: int|
                    0 <= j < old_buf.len() && 0 <= k < old_buf[j]@.len() implies #[trigger] buf@[j]@[k]
                        == if j < i + 1 && k < avail - spec_prefix_len(old_buf, j) {
                        self.byte(start + spec_prefix_len(old_buf, j) + k)
                    } else {
                        old_buf[j]@[k]
                    } by {
                    if j == i {
                        assert(buf@[j] == slice);
                    }
                }
            }
            off += read_size;
            total_read_size += read_size;
            i += 1;
        }
        total_read_size
    }

    /// Loads page `cache_id` from `blocks`, the disk blocks of `bs` bytes
    /// that hold it, unless it is cached already. Block `k` fills the page
    /// from position `k * bs` on; the rest of the page is zero.
    fn fill(&mut self, cache_id: usize, blocks: &Vec<Vec<u8>>, bs: usize)
        requires
            old(self).wf(),
            bs > 0,
            blocks@.len() * bs <= CACHE_SZ,
            forall|k: int| 0 <= k < blocks@.len() ==> (#[trigger] blocks@[k])@.len() == bs,
        ensures
            final(self).wf(),
            final(self).inode == old(self).inode,
            forall|p: int|
                #[trigger] final(self).file_cache_manager.cached(p) == (
                old(self).file_cache_manager.cached(p) || p == cache_id),
            forall|i: int|
                #![trigger final(self).byte(i)]
                final(self).byte(i) == if !old(self).file_cache_manager.cached(cache_id as int)
                    && cache_id * CACHE_SZ <= i < cache_id * CACHE_SZ + CACHE_SZ {
                    spec_page_byte(blocks@, bs as int, i - cache_id * CACHE_SZ)
                } else {
                    old(self).byte(i)
                },
    {
        let mut page: Vec<u8> = vec![0u8; CACHE_SZ];
        let filled = blocks.len() * bs;
        let mut r: usize = 0;
        while r < filled
            invariant
                bs > 0,
                filled == blocks@.len() * bs,
                filled <= CACHE_SZ,
                forall|k: int| 0 <= k < blocks@.len() ==> (#[trigger] blocks@[k])@.len() == bs,
                r <= filled,
                page@.len() == CACHE_SZ,
                forall|q: int|
                    0 <= q < CACHE_SZ ==> #[trigger] page@[q] == if q < r {
                        spec_page_byte(blocks@, bs as int, q)
                    } else {
                        0u8
                    },
            decreases filled - r,
        {
            proof {
                let (ri, bi) = (r as int, bs as int);
                vstd::arithmetic::div_mod::lemma_fundamental_div_mod(ri, bi);
                assert(ri / bi < blocks@.len()) by (nonlinear_arith)
                    requires
                        ri < blocks@.len() * bi,
                        ri == (ri / bi) * bi + ri % bi,
                        0 <= ri % bi,
                        bi > 0,
                ;
            }
            let b = blocks[r / bs][r % bs];
            page[r] = b;
            r += 1;
        }
        proof {
            assert forall|q: int| 0 <= q < CACHE_SZ implies #[trigger] page@[q] == spec_page_byte(
                blocks@,
                bs as int,
                q,
            ) by {}
        }
        self.file_cache_manager.load(cache_id, page);
    }

    /// Loads every page holding a byte from `lo` up to `hi` that is not
    /// cached, page `p` from its blocks in `disk[p]`.
    fn load_range(&mut self, lo: usize, hi: usize, disk: &Vec<Vec<Vec<u8>>>, bs: usize)
        requires
            old(self).wf(),
            old(self).disk_fits(lo as int, hi as int, disk@, bs as int),
        ensures
            final(self).wf(),
            final(self).spec_loaded(old(self), lo as int, hi as int, disk@, bs as int),
            final(self).covers(lo as int, hi as int),
    {
        let ghost old_self = *self;
        if lo >= hi {
            return ;
        }
        let first = lo / CACHE_SZ;
        let last = (hi - 1) / CACHE_SZ;
        let mut p = first;
        while p <= last
            invariant
                self.wf(),
                self.inode == old_self.inode,
                lo < hi,
                first == lo / CACHE_SZ,
                last == (hi - 1) as int / (CACHE_SZ as int),
                first <= p <= last + 1,
                last < usize::MAX,
                old_self.disk_fits(lo as int, hi as int, disk@, bs as int),
                forall|q: int|
                    #[trigger] self.file_cache_manager.cached(q) == (old_self.file_cache_manager.cached(q)
                        || (first <= q < p)),
                forall|i: int|
                    #![trigger self.byte(i)]
                    self.byte(i) == if 0 <= i && first <= i / (CACHE_SZ as int) < p
                        && !old_self.file_cache_manager.cached(i / (CACHE_SZ as int)) {
                        spec_page_byte(disk@[i / (CACHE_SZ as int)]@, bs as int, i % (CACHE_SZ as int))
                    } else {
                        old_self.byte(i)
                    },
            decreases last + 1 - p,
        {
            if !self.file_cache_manager.is_cached(p) {
                proof {
                    lemma_page_before(p as int, hi as int);
                    assert(old_self.loads(lo as int, hi as int, p as int));
                }
                let ghost before = *self;
                self.fill(p, &disk[p], bs);
                proof {
                    assert forall|i: int|
                        #![trigger self.byte(i)]
                        self.byte(i) == if 0 <= i && first <= i / (CACHE_SZ as int) < p + 1
                            && !old_self.file_cache_manager.cached(i / (CACHE_SZ as int)) {
                            spec_page_byte(
                                disk@[i / (CACHE_SZ as int)]@,
                                bs as int,
                                i % (CACHE_SZ as int),
                            )
                        } else {
                            old_self.byte(i)
                        } by {
                        if 0 <= i {
                            super::cache::lemma_byte_position(i);
                            let q = i / (CACHE_SZ as int);
                            if q == p {
                                assert(p * CACHE_SZ <= i < p * CACHE_SZ + CACHE_SZ);
                            } else {
                                assert(!(p * CACHE_SZ <= i < p * CACHE_SZ + CACHE_SZ)) by {
                                    if p * CACHE_SZ <= i < p * CACHE_SZ + CACHE_SZ {
                                        super::cache::lemma_page_position(
                                            p as int,
                                            i - p * CACHE_SZ,
                                        );
                                    }
                                }
                            }
                        }
                    }
                }
            }
            p += 1;
        }
        proof {
            assert forall|q: int|
                #[trigger] self.file_cache_manager.cached(q) == (old_self.file_cache_manager.cached(q)
                    || (lo < hi && lo as int / (CACHE_SZ as int) <= q && q * CACHE_SZ < hi as int)) by {
                if q >= 0 {
                    lemma_page_before(q, hi as int);
                }
                if q < 0 {
                    assert(q * CACHE_SZ < 0);
                }
            }
            assert forall|i: int|
                #![trigger self.byte(i)]
                self.byte(i) == old_self.loaded_byte(lo as int, hi as int, disk@, bs as int, i) by {
                if 0 <= i {
                    super::cache::lemma_byte_position(i);
                    lemma_page_before(i / (CACHE_SZ as int), hi as int);
                }
            }
            assert forall|i: int| lo <= i < hi implies #[trigger] self.file_cache_manager.cached_at(i) by {
                super::cache::lemma_byte_position(i);
                vstd::arithmetic::div_mod::lemma_div_is_ordered(lo as int, i, CACHE_SZ as int);
                lemma_page_before(i / (CACHE_SZ as int), hi as int);
            }
        }
    }
}

/// Within the range loaded, a loaded byte is the byte the file holds.
proof fn lemma_loaded_is_content(
    s: &SharedInode,
    lo: int,
    hi: int,
    disk: Seq<Vec<Vec<u8>>>,
    bs: int,
    i: int,
)
    requires
        0 <= lo <= i < hi,
        s.disk_fits(lo, hi, disk, bs),
    ensures
        s.loaded_byte(lo, hi, disk, bs, i) == s.content(disk, bs, i),
{
    super::cache::lemma_byte_position(i);
    vstd::arithmetic::div_mod::lemma_div_is_ordered(lo, i, CACHE_SZ as int);
    let p = i / (CACHE_SZ as int);
    assert(p * CACHE_SZ <= i);
    if !s.file_cache_manager.cached(p) {
        assert(s.loads(lo, hi, p));
    }
}

/// Page `q` starts before position `hi` exactly when it is no later than
/// the page holding byte `hi - 1`.
proof fn lemma_page_before(q: int, hi: int)
    requires
        0 <= q,
        0 < hi,
    ensures
        (q <= (hi - 1) / (CACHE_SZ as int)) == (q * CACHE_SZ < hi),
{
    vstd::arithmetic::div_mod::lemma_fundamental_div_mod(hi - 1, CACHE_SZ as int);
    let d = (hi - 1) / (CACHE_SZ as int);
    let m = (hi - 1) % (CACHE_SZ as int);
    if q <= d {
        assert(q * CACHE_SZ <= d * CACHE_SZ) by (nonlinear_arith)
            requires
                q <= d,
        ;
    } else {
        assert(q * CACHE_SZ >= (d + 1) * CACHE_SZ) by (nonlinear_arith)
            requires
                q >= d + 1,
        ;
    }
}

/// The inodes that are open, each with its page cache, by handle: the file
/// objects on one inode hold the same handle.
pub struct OpenInodes {
    pub slots: Vec<SharedInode>,
}

impl OpenInodes {
    /// Every shared state is well formed.
    pub open spec fn wf(&self) -> bool {
        forall|h: int| 0 <= h < self.slots@.len() ==> (#[trigger] self.slots@[h]).wf()
    }

    /// Only the shared state `h` differs from `before`.
    pub open spec fn only_changed(&self, before: &OpenInodes, h: int) -> bool {
        &&& self.slots@.len() == before.slots@.len()
        &&& forall|g: int|
            0 <= g < self.slots@.len() && g != h ==> #[trigger] self.slots@[g] == before.slots@[g]
    }

    pub fn new() -> (s: Self)
        ensures
            s.wf(),
            s.slots@.len() == 0,
    {
        OpenInodes { slots: Vec::new() }
    }

    /// Opens `inode` with nothing cached, under a new handle.
    fn add(&mut self, inode: Ext4InodeRef) -> (h: usize)
        requires
            old(self).wf(),
        ensures
            final(self).wf(),
            h == old(self).slots@.len(),
            final(self).slots@.len() == old(self).slots@.len() + 1,
            forall|g: int|
                0 <= g < old(self).slots@.len() ==> #[trigger] final(self).slots@[g] == old(self).slots@[g],
            final(self).slots@[h as int].inode == inode,
            forall|p: int| !(#[trigger] final(self).slots@[h as int].file_cache_manager.cached(p)),
            forall|i: int| #[trigger] final(self).slots@[h as int].byte(i) == 0,
    {
        let h = self.slots.len();
        self.slots.push(SharedInode::new(inode));
        h
    }

    /// Takes the shared state `h` out, leaving an empty one in its place.
    fn take(&mut self, h: usize) -> (s: SharedInode)
        requires
            old(self).wf(),
            h < old(self).slots@.len(),
        ensures
            s == old(self).slots@[h as int],
            final(self).wf(),
            final(self).only_changed(old(self), h as int),
    {
        let mut s = SharedInode::new(
            Ext4InodeRef {
                inode_num: 0,
                inode: Ext4Inode {
                    size: 0,
                    file_type: DiskInodeType::File,
                    atime: 0,
                    mtime: 0,
                    ctime: 0,
                    blocks: Vec::new(),
                },
            },
        );
        core::mem::swap(&mut s, &mut self.slots[h]);
        s
    }

    /// Puts the shared state `h` back.
    fn put(&mut self, h: usize, s: SharedInode)
        requires
            h < old(self).slots@.len(),
        ensures
            final(self).slots@ == old(self).slots@.update(h as int, s),
    {
        self.slots[h] = s;
    }
}

/// An open ext4 file: its permissions, uses and offset, and the handle of
/// the inode state it shares with every other file object on that inode.
pub struct Ext4OSInode {
    pub readable: bool,
    pub writable: bool,
    pub special_use: bool,
    pub append: bool,
    pub shared: usize,
    pub offset: usize,
    pub ext4fs: Ext4FileSystem,
}

impl Ext4OSInode {
    /// The open inodes are well formed and hold this file object's handle.
    pub open spec fn valid(&self, inodes: &OpenInodes) -> bool {
        inodes.wf() && self.shared < inodes.slots@.len()
    }

    /// The inode state this file object shares.
    pub open spec fn slot(&self, inodes: &OpenInodes) -> SharedInode {
        inodes.slots@[self.shared as int]
    }

    /// The position a read or write starts at: the given offset, or else the
    /// file object's own.
    pub open spec fn start_of(&self, offset: Option<usize>) -> int {
        match offset {
            Some(o) => o as int,
            None => self.offset as int,
        }
    }

    /// Everything but the offset is the same in both file objects.
    pub open spec fn same_but_offset(&self, other: &Ext4OSInode) -> bool {
        &&& self.readable == other.readable
        &&& self.writable == other.writable
        &&& self.special_use == other.special_use
        &&& self.append == other.append
        &&& self.shared == other.shared
        &&& self.ext4fs == other.ext4fs
    }

    /// The root directory's file object, on a newly opened inode with
    /// nothing cached: readable, writable, in special use, at offset zero.
    pub fn new(inodes: &mut OpenInodes, root_inode: Ext4InodeRef, ext4fs: Ext4FileSystem) -> (f:
        Self)
        requires
            old(inodes).wf(),
        ensures
            f.valid(final(inodes)),
            f.shared == old(inodes).slots@.len(),
            final(inodes).slots@.len() == old(inodes).slots@.len() + 1,
            forall|g: int|
                0 <= g < old(inodes).slots@.len() ==> #[trigger] final(inodes).slots@[g] == old(
                    inodes,
                ).slots@[g],
            f.slot(final(inodes)).inode == root_inode,
            forall|p: int| !(#[trigger] f.slot(final(inodes)).file_cache_manager.cached(p)),
            f.readable && f.writable && f.special_use && !f.append,
            f.offset == 0,
            f.ext4fs == ext4fs,
    {
        let h = inodes.add(root_inode);
        Ext4OSInode {
            readable: true,
            writable: true,
            special_use: true,
            append: false,
            shared: h,
            offset: 0,
            ext4fs,
        }
    }

    /// The file object for another inode of this file system, as creating a
    /// file or listing a directory makes it: on a newly opened inode with
    /// nothing cached, readable, writable, not in special use, at offset zero.
    pub fn child(&self, inodes: &mut OpenInodes, inode: Ext4InodeRef) -> (f: Self)
        requires
            old(inodes).wf(),
        ensures
            f.valid(final(inodes)),
            f.shared == old(inodes).slots@.len(),
            final(inodes).slots@.len() == old(inodes).slots@.len() + 1,
            forall|g: int|
                0 <= g < old(inodes).slots@.len() ==> #[trigger] final(inodes).slots@[g] == old(
                    inodes,
                ).slots@[g],
            f.slot(final(inodes)).inode == inode,
            forall|p: int| !(#[trigger] f.slot(final(inodes)).file_cache_manager.cached(p)),
            f.readable && f.writable && !f.special_use && !f.append,
            f.offset == 0,
            f.ext4fs == self.ext4fs,
    {
        let h = inodes.add(inode);
        Ext4OSInode {
            readable: true,
            writable: true,
            special_use: false,
            append: false,
            shared: h,
            offset: 0,
            ext4fs: self.ext4fs,
        }
    }

    pub fn readable(&self) -> (r: bool)
        ensures
            r == self.readable,
    {
        self.readable
    }

    pub fn writable(&self) -> (r: bool)
        ensures
            r == self.writable,
    {
        self.writable
    }

    /// Always ready for reading.
    pub fn r_ready(&self) -> (r: bool)
        ensures
            r,
    {
        true
    }

    /// Always ready for writing.
    pub fn w_ready(&self) -> (r: bool)
        ensures
            r,
    {
        true
    }

    /// The size of the file in bytes.
    pub fn get_size(&self, inodes: &OpenInodes) -> (s: usize)
        requires
            self.valid(inodes),
        ensures
            s == self.slot(inodes).inode.inode.size as usize,
    {
        inodes.slots[self.shared].inode.inode.size as usize
    }

    pub fn get_file_type(&self, inodes: &OpenInodes) -> (t: DiskInodeType)
        requires
            self.valid(inodes),
        ensures
            t == self.slot(inodes).inode.inode.file_type,
    {
        inodes.slots[self.shared].inode.inode.file_type
    }

    /// The `stat` record of the file: device 8:0, the inode number, a mode
    /// of the file's type with every permission, one link, the size and the
    /// three times.
    pub fn get_stat(&self, inodes: &OpenInodes) -> (s: Stat)
        requires
            self.valid(inodes),
        ensures
            s.st_dev == spec_makedev(8, 0),
            s.st_ino == self.slot(inodes).inode.inode_num as u64,
            s.st_mode == spec_stat_mode(self.slot(inodes).inode.inode.file_type),
            s.st_nlink == 1,
            s.st_rdev == 0,
            s.st_size == (self.slot(inodes).inode.inode.size as usize) as i64,
            s.st_atime_sec == self.slot(inodes).inode.inode.atime as i64,
            s.st_mtime_sec == self.slot(inodes).inode.inode.mtime as i64,
            s.st_ctime_sec == self.slot(inodes).inode.inode.ctime as i64,
    {
        let inode_ref = &inodes.slots[self.shared].inode;
        let size = inode_ref.inode.size as usize;
        let atime = inode_ref.inode.atime;
        let mtime = inode_ref.inode.mtime;
        let ctime = inode_ref.inode.ctime;
        let st_mod: u32 = if inode_ref.inode.file_type == DiskInodeType::Directory {
            S_IFDIR | S_IRWXU | S_IRWXG | S_IRWXO
        } else {
            S_IFREG | S_IRWXU | S_IRWXG | S_IRWXO
        };
        Stat::new(
            makedev(8, 0),
            inode_ref.inode_num as u64,
            st_mod,
            1,
            0,
            size as i64,
            atime as i64,
            mtime as i64,
            ctime as i64,
        )
    }

    /// Copies the file's bytes from position `offset` on into `buffer`, page
    /// by page through the shared page cache, up to the end of the buffer or
    /// of the file (as `inode_ref` records its size). A page that is not
    /// cached is loaded first: page `p` from its disk blocks in `disk[p]`.
    /// Returns how many bytes it copied; the rest of the buffer is left as
    /// it was.
    pub fn read_at_block_cache(
        &self,
        inodes: &mut OpenInodes,
        offset: usize,
        buffer: &mut Vec<u8>,
        inode_ref: &Ext4InodeRef,
        disk: &Vec<Vec<Vec<u8>>>,
    ) -> (n: usize)
        requires
            self.valid(old(inodes)),
            offset + old(buffer)@.len() <= usize::MAX,
            inode_ref.inode.size + CACHE_SZ <= usize::MAX,
            self.slot(old(inodes)).disk_fits(
                offset as int,
                offset + spec_read_len(
                    offset as int,
                    old(buffer)@.len() as int,
                    inode_ref.inode.size as int,
                ),
                disk@,
                self.ext4fs.block_size as int,
            ),
        ensures
            n == spec_read_len(offset as int, old(buffer)@.len() as int, inode_ref.inode.size as int),
            final(buffer)@.len() == old(buffer)@.len(),
            forall|k: int|
                0 <= k < n ==> #[trigger] final(buffer)@[k] == self.slot(old(inodes)).content(
                    disk@,
                    self.ext4fs.block_size as int,
                    offset + k,
                ),
            forall|k: int|
                n <= k < old(buffer)@.len() ==> #[trigger] final(buffer)@[k] == old(buffer)@[k],
            final(inodes).wf(),
            final(inodes).only_changed(old(inodes), self.shared as int),
            self.slot(final(inodes)).spec_loaded(
                &self.slot(old(inodes)),
                offset as int,
                offset + n,
                disk@,
                self.ext4fs.block_size as int,
            ),
    {
        let h = self.shared;
        let mut slot = inodes.take(h);
        let n = slot.read_loading(offset, buffer, inode_ref.inode.size, disk, self.ext4fs.block_size);
        inodes.put(h, slot);
        n
    }

    /// Reads from the given offset, or else from the file object's own, into
    /// `buffer`, up to the end of the buffer or of the file. A page that is
    /// not cached is loaded first: page `p` from its disk blocks in
    /// `disk[p]`. With a given offset, a read that gets any byte sets that
    /// offset to the number of bytes read; with none, the file object's
    /// offset advances by it.
    pub fn read(
        &mut self,
        inodes: &mut OpenInodes,
        offset: &mut Option<usize>,
        buffer: &mut Vec<u8>,
        disk: &Vec<Vec<Vec<u8>>>,
    ) -> (n: usize)
        requires
            old(self).valid(old(inodes)),
            old(self).start_of(*old(offset)) + old(buffer)@.len() <= usize::MAX,
            old(self).slot(old(inodes)).size() + CACHE_SZ <= usize::MAX,
            old(self).slot(old(inodes)).disk_fits(
                old(self).start_of(*old(offset)),
                old(self).start_of(*old(offset)) + spec_read_len(
                    old(self).start_of(*old(offset)),
                    old(buffer)@.len() as int,
                    old(self).slot(old(inodes)).size(),
                ),
                disk@,
                old(self).ext4fs.block_size as int,
            ),
        ensures
            n == spec_read_len(
                old(self).start_of(*old(offset)),
                old(buffer)@.len() as int,
                old(self).slot(old(inodes)).size(),
            ),
            final(buffer)@.len() == old(buffer)@.len(),
            final(buffer)@.subrange(0, n as int) == old(self).slot(old(inodes)).read_bytes(
                old(self).start_of(*old(offset)),
                old(buffer)@.len() as int,
                disk@,
                old(self).ext4fs.block_size as int,
            ),
            forall|k: int|
                n <= k < old(buffer)@.len() ==> #[trigger] final(buffer)@[k] == old(buffer)@[k],
            final(inodes).wf(),
            final(inodes).only_changed(old(inodes), old(self).shared as int),
            old(self).slot(final(inodes)).spec_loaded(
                &old(self).slot(old(inodes)),
                old(self).start_of(*old(offset)),
                old(self).start_of(*old(offset)) + n,
                disk@,
                old(self).ext4fs.block_size as int,
            ),
            final(self).same_but_offset(old(self)),
            final(self).offset == if *old(offset) is None {
                old(self).offset + n
            } else {
                old(self).offset as int
            },
            *final(offset) == match *old(offset) {
                Some(o) => if n > 0 {
                    Some(n)
                } else {
                    Some(o)
                },
                None => None,
            },
    {
        let start = match *offset {
            Some(o) => o,
            None => self.offset,
        };
        let h = self.shared;
        let mut slot = inodes.take(h);
        let ghost before = slot;
        let size = slot.inode.inode.size;
        let n = slot.read_loading(start, buffer, size, disk, self.ext4fs.block_size);
        inodes.put(h, slot);
        assert(buffer@.subrange(0, n as int) =~= before.read_bytes(
            start as int,
            buffer@.len() as int,
            disk@,
            self.ext4fs.block_size as int,
        ));
        if offset.is_some() {
            if n > 0 {
                *offset = Some(n);
            }
        } else {
            self.offset = self.offset + n;
        }
        n
    }

    /// Sets the size of the file on disk.
    pub fn truncate_size(&self, inodes: &mut OpenInodes, new_size: usize) -> (r: Result<(), isize>)
        requires
            self.valid(old(inodes)),
        ensures
            r is Ok,
            final(inodes).wf(),
            final(inodes).only_changed(old(inodes), self.shared as int),
            self.slot(final(inodes)).inode.inode.size == new_size,
            self.slot(final(inodes)).inode.same_but_size(&self.slot(old(inodes)).inode),
            self.slot(final(inodes)).file_cache_manager == self.slot(old(inodes)).file_cache_manager,
    {
        let h = self.shared;
        let mut slot = inodes.take(h);
        let result = self.ext4fs.truncate_inode(&mut slot.inode, new_size as u64);
        inodes.put(h, slot);
        match result {
            Ok(_) => Ok(()),
            Err(e) => Err(e),
        }
    }

    /// Writes `buf` at the given offset, or else at the file object's own,
    /// first growing the file when the write reaches past its end. A page
    /// written that is not cached is loaded first: page `p` from its disk
    /// blocks in `disk[p]`. Every byte is written; the offset used advances
    /// past them. Every file object on the inode sees the write.
    pub fn write(
        &mut self,
        inodes: &mut OpenInodes,
        offset: &mut Option<usize>,
        buf: &Vec<u8>,
        disk: &Vec<Vec<Vec<u8>>>,
    ) -> (n: usize)
        requires
            old(self).valid(old(inodes)),
            old(self).start_of(*old(offset)) + buf@.len() <= isize::MAX,
            old(self).slot(old(inodes)).size() <= isize::MAX,
            old(self).slot(old(inodes)).disk_fits(
                old(self).start_of(*old(offset)),
                old(self).start_of(*old(offset)) + buf@.len(),
                disk@,
                old(self).ext4fs.block_size as int,
            ),
        ensures
            n == buf@.len(),
            final(inodes).wf(),
            final(inodes).only_changed(old(inodes), old(self).shared as int),
            final(self).slot(final(inodes)).spec_written(
                &old(self).slot(old(inodes)),
                old(self).start_of(*old(offset)),
                buf@,
                disk@,
                old(self).ext4fs.block_size as int,
            ),
            final(self).slot(final(inodes)).inode.same_but_size(&old(self).slot(old(inodes)).inode),
            final(self).same_but_offset(old(self)),
            final(self).offset == if *old(offset) is None {
                old(self).offset + n
            } else {
                old(self).offset as int
            },
            *final(offset) == match *old(offset) {
                Some(o) => Some((o + n) as usize),
                None => None,
            },
    {
        let h = self.shared;
        let old_size = inodes.slots[h].inode.inode.size as usize;
        let start = match *offset {
            Some(o) => o,
            None => self.offset,
        };
        let ghost before = inodes.slots@[h as int];
        let diff_len: isize = buf.len() as isize + start as isize - old_size as isize;
        if diff_len > 0 {
            let _ = self.truncate_size(inodes, (old_size as isize + diff_len) as usize);
        }
        let mut slot = inodes.take(h);
        let ghost grown = slot;
        assert(grown.file_cache_manager == before.file_cache_manager);
        assert forall|i: int|
            #![trigger grown.loaded_byte(start as int, start + buf@.len(), disk@, self.ext4fs.block_size as int, i)]
            grown.loaded_byte(start as int, start + buf@.len(), disk@, self.ext4fs.block_size as int, i)
                == before.loaded_byte(start as int, start + buf@.len(), disk@, self.ext4fs.block_size as int, i) by {}
        let size = slot.inode.inode.size;
        assert(grown.disk_fits(
            start as int,
            start + spec_read_len(start as int, buf@.len() as int, size as int),
            disk@,
            self.ext4fs.block_size as int,
        )) by {
            assert(spec_read_len(start as int, buf@.len() as int, size as int) == buf@.len());
            assert forall|p: int|
                #[trigger] grown.loads(start as int, start + buf@.len(), p) implies before.loads(
                start as int,
                start + buf@.len(),
                p,
            ) by {}
        }
        let total_write_size = slot.write_loading(start, buf, size, disk, self.ext4fs.block_size);
        assert(start == old(self).start_of(*old(offset)));
        assert(slot.inode.inode.size >= start + buf@.len());
        assert(total_write_size == buf@.len());
        assert(buf@.subrange(0, total_write_size as int) =~= buf@);
        inodes.put(h, slot);
        if offset.is_some() {
            *offset = Some(start + total_write_size);
        } else {
            self.offset = start + total_write_size;
        }
        total_write_size
    }

    /// Reads into each buffer of `buf` in turn, from the given offset or
    /// else from the file object's own, continuing where the previous read
    /// ended. A page read that is not cached is loaded first: page `p` from
    /// its disk blocks in `disk[p]`. It stops at the end of the file or at
    /// the first empty buffer. Without a given offset, the file object's
    /// offset advances by the number of bytes read.
    pub fn read_user(
        &mut self,
        inodes: &mut OpenInodes,
        offset: Option<usize>,
        buf: &mut Vec<Vec<u8>>,
        disk: &Vec<Vec<Vec<u8>>>,
    ) -> (n: usize)
        requires
            old(self).valid(old(inodes)),
            old(self).start_of(offset) + spec_prefix_len(old(buf)@, old(buf)@.len() as int)
                <= usize::MAX,
            old(self).slot(old(inodes)).size() + CACHE_SZ <= usize::MAX,
            old(self).slot(old(inodes)).disk_fits(
                old(self).start_of(offset),
                old(self).start_of(offset) + spec_user_read_len(
                    old(buf)@,
                    old(self).start_of(offset),
                    old(self).slot(old(inodes)).size(),
                ),
                disk@,
                old(self).ext4fs.block_size as int,
            ),
        ensures
            n == spec_user_read_len(
                old(buf)@,
                old(self).start_of(offset),
                old(self).slot(old(inodes)).size(),
            ),
            final(buf)@.len() == old(buf)@.len(),
            forall|j: int|
                0 <= j < old(buf)@.len() ==> (#[trigger] final(buf)@[j])@.len() == old(buf)@[j]@.len(),
            forall|j: int, k: int|
                0 <= j < old(buf)@.len() && 0 <= k < old(buf)@[j]@.len()
                    ==> #[trigger] final(buf)@[j]@[k] == if j < spec_first_empty(old(buf)@, 0) && k
                    < spec_available(old(self).start_of(offset), old(self).slot(old(inodes)).size())
                    - spec_prefix_len(old(buf)@, j) {
                    old(self).slot(old(inodes)).content(
                        disk@,
                        old(self).ext4fs.block_size as int,
                        old(self).start_of(offset) + spec_prefix_len(old(buf)@, j) + k,
                    )
                } else {
                    old(buf)@[j]@[k]
                },
            final(inodes).wf(),
            final(inodes).only_changed(old(inodes), old(self).shared as int),
            old(self).slot(final(inodes)).spec_loaded(
                &old(self).slot(old(inodes)),
                old(self).start_of(offset),
                old(self).start_of(offset) + n,
                disk@,
                old(self).ext4fs.block_size as int,
            ),
            final(self).same_but_offset(old(self)),
            final(self).offset == if offset is None {
                old(self).offset + n
            } else {
                old(self).offset as int
            },
    {
        let start = match offset {
            Some(o) => o,
            None => self.offset,
        };
        let ghost bufs = buf@;
        let ghost z = spec_first_empty(bufs, 0);
        proof {
            lemma_first_empty_bounds(bufs, 0);
        }
        let mut total: usize = 0;
        let mut i: usize = 0;
        while i < buf.len() && buf[i].len() > 0
            invariant
                buf@ == bufs,
                i <= z <= bufs.len(),
                z == spec_first_empty(bufs, i as int),
                total == spec_prefix_len(bufs, i as int),
                start + spec_prefix_len(bufs, bufs.len() as int) <= usize::MAX,
            decreases bufs.len() - i,
        {
            proof {
                lemma_prefix_monotonic(bufs, i + 1, bufs.len() as int);
                lemma_first_empty_bounds(bufs, i + 1);
            }
            total = total + buf[i].len();
            i += 1;
        }
        assert(i == z);
        let h = self.shared;
        let mut slot = inodes.take(h);
        let ghost before = slot;
        let size = slot.inode.inode.size as usize;
        let avail = if start < size {
            size - start
        } else {
            0
        };
        let hi = if total < avail {
            start + total
        } else {
            start + avail
        };
        slot.load_range(start, hi, disk, self.ext4fs.block_size);
        let n = slot.read_buffers(start, buf);
        proof {
            assert forall|j: int, k: int|
                0 <= j < bufs.len() && 0 <= k < bufs[j]@.len() && j < z && k < spec_available(
                    start as int,
                    size as int,
                ) - spec_prefix_len(bufs, j) implies #[trigger] slot.byte(start + spec_prefix_len(bufs, j) + k)
                == before.content(disk@, self.ext4fs.block_size as int, start + spec_prefix_len(bufs, j) + k) by {
                lemma_prefix_monotonic(bufs, j + 1, z);
                lemma_prefix_monotonic(bufs, 0, j);
                assert(spec_prefix_len(bufs, j + 1) == spec_prefix_len(bufs, j) + bufs[j]@.len());
                assert(total == spec_prefix_len(bufs, z));
                assert(avail == spec_available(start as int, size as int));
                lemma_loaded_is_content(
                    &before,
                    start as int,
                    hi as int,
                    disk@,
                    self.ext4fs.block_size as int,
                    start + spec_prefix_len(bufs, j) + k,
                );
            }
        }
        inodes.put(h, slot);
        if offset.is_none() {
            self.offset = start + n;
        }
        n
    }

    /// A second file object on the same inode state, with the same
    /// permissions, uses and offset.
    pub fn deep_clone(&self) -> (f: Self)
        ensures
            f.readable == self.readable,
            f.writable == self.writable,
            f.special_use == self.special_use,
            f.append == self.append,
            f.offset == self.offset,
            f.shared == self.shared,
            f.ext4fs == self.ext4fs,
    {
        Ext4OSInode {
            readable: self.readable,
            writable: self.writable,
            special_use: self.special_use,
            append: self.append,
            shared: self.shared,
            offset: self.offset,
            ext4fs: self.ext4fs,
        }
    }

    /// A new file object on the same inode state, opened with `flags`:
    /// readable when the flags contain `O_RDONLY` or `O_RDWR`, writable when
    /// they contain `O_WRONLY` or `O_RDWR`, appending when they contain
    /// `O_APPEND`; at offset zero.
    pub fn open(&self, flags: OpenFlags, special_use: bool) -> (f: Self)
        ensures
            f.readable == ((flags.bits & O_RDONLY) == O_RDONLY || (flags.bits & O_RDWR) == O_RDWR),
            f.writable == ((flags.bits & O_WRONLY) == O_WRONLY || (flags.bits & O_RDWR) == O_RDWR),
            f.append == ((flags.bits & O_APPEND) == O_APPEND),
            f.special_use == special_use,
            f.offset == 0,
            f.shared == self.shared,
            f.ext4fs == self.ext4fs,
    {
        Ext4OSInode {
            readable: flags.contains(O_RDONLY) || flags.contains(O_RDWR),
            writable: flags.contains(O_WRONLY) || flags.contains(O_RDWR),
            special_use,
            append: flags.contains(O_APPEND),
            shared: self.shared,
            offset: 0,
            ext4fs: self.ext4fs,
        }
    }

    /// The target of an `lseek`: the offset counted from the start, from the
    /// current offset or from the end of the file; none for another origin
    /// or a negative target.
    pub open spec fn spec_seek_target(&self, size: u64, offset: isize, whence: SeekWhence) -> Option<
        int,
    > {
        let target = if whence.bits == SEEK_SET {
            offset as int
        } else if whence.bits == SEEK_CUR {
            (self.offset as isize) + offset
        } else {
            (size as isize) + offset
        };
        if whence.bits != SEEK_SET && whence.bits != SEEK_CUR && whence.bits != SEEK_END {
            None
        } else if target < 0 {
            None
        } else {
            Some(target)
        }
    }

    /// Moves the offset of the file object and returns it, or fails with
    /// `EINVAL` for an unknown origin or a negative target.
    pub fn lseek(&mut self, inodes: &OpenInodes, offset: isize, whence: SeekWhence) -> (r: Result<
        usize,
        isize,
    >)
        requires
            old(self).valid(inodes),
            whence.bits == SEEK_CUR ==> isize::MIN <= (old(self).offset as isize) + offset
                <= isize::MAX,
            whence.bits == SEEK_END ==> isize::MIN <= (old(self).slot(inodes).inode.inode.size as isize)
                + offset <= isize::MAX,
        ensures
            r == match old(self).spec_seek_target(
                old(self).slot(inodes).inode.inode.size,
                offset,
                whence,
            ) {
                Some(t) => Ok::<usize, isize>(t as usize),
                None => Err::<usize, isize>(EINVAL),
            },
            final(self).offset == match r {
                Ok(o) => o,
                Err(_) => old(self).offset,
            },
            final(self).same_but_offset(old(self)),
    {
        let new_offset: isize = if whence.bits == SEEK_SET {
            offset
        } else if whence.bits == SEEK_CUR {
            self.offset as isize + offset
        } else if whence.bits == SEEK_END {
            inodes.slots[self.shared].inode.inode.size as isize + offset
        } else {
            return Err(EINVAL);
        };
        if new_offset < 0 {
            return Err(EINVAL);
        }
        let new_offset = new_offset as usize;
        self.offset = new_offset;
        Ok(new_offset)
    }

    /// Tells the page cache that the file shrinks by `-diff` bytes (of its
    /// size taken modulo 2^32); the cached pages wholly past the new size are
    /// dropped. The recorded size of the inode is left as it is.
    pub fn modify_size(&self, inodes: &mut OpenInodes, diff: isize) -> (r: Result<(), isize>)
        requires
            self.valid(old(inodes)),
            diff <= 0,
            diff + (self.slot(old(inodes)).inode.inode.size as isize) >= 0,
            isize::MIN <= ((self.slot(old(inodes)).inode.inode.size as u32) as isize) + diff
                <= isize::MAX,
            spec_shrunk_size(self.slot(old(inodes)).inode.inode.size, diff) + CACHE_SZ
                <= usize::MAX,
        ensures
            r is Ok,
            final(inodes).wf(),
            final(inodes).only_changed(old(inodes), self.shared as int),
            self.slot(final(inodes)).inode == self.slot(old(inodes)).inode,
            self.slot(final(inodes)).file_cache_manager.page_count() == spec_min(
                self.slot(old(inodes)).file_cache_manager.page_count() as int,
                (spec_shrunk_size(self.slot(old(inodes)).inode.inode.size, diff) + CACHE_SZ - 1)
                    / (CACHE_SZ as int),
            ),
            forall|p: int|
                #[trigger] self.slot(final(inodes)).file_cache_manager.cached(p) == (self.slot(
                    old(inodes),
                ).file_cache_manager.cached(p) && p < self.slot(
                    final(inodes),
                ).file_cache_manager.page_count()),
            forall|i: int|
                #![trigger self.slot(final(inodes)).byte(i)]
                self.slot(final(inodes)).byte(i) == if i < self.slot(
                    final(inodes),
                ).file_cache_manager.page_count() * CACHE_SZ {
                    self.slot(old(inodes)).byte(i)
                } else {
                    0
                },
    {
        let h = self.shared;
        let mut slot = inodes.take(h);
        let old_size = slot.inode.inode.size as u32;
        let new_size = (old_size as isize + diff) as u32;
        slot.file_cache_manager.notify_new_size(new_size as usize);
        inodes.put(h, slot);
        Ok(())
    }

    /// Sets the change, access and modification times that are given,
    /// each taken modulo 2^32.
    pub fn set_timestamp(
        &self,
        inodes: &mut OpenInodes,
        ctime: Option<usize>,
        atime: Option<usize>,
        mtime: Option<usize>,
    )
        requires
            self.valid(old(inodes)),
        ensures
            final(inodes).wf(),
            final(inodes).only_changed(old(inodes), self.shared as int),
            self.slot(final(inodes)).inode.inode.ctime == match ctime {
                Some(t) => t as u32,
                None => self.slot(old(inodes)).inode.inode.ctime,
            },
            self.slot(final(inodes)).inode.inode.atime == match atime {
                Some(t) => t as u32,
                None => self.slot(old(inodes)).inode.inode.atime,
            },
            self.slot(final(inodes)).inode.inode.mtime == match mtime {
                Some(t) => t as u32,
                None => self.slot(old(inodes)).inode.inode.mtime,
            },
            self.slot(final(inodes)).inode.inode_num == self.slot(old(inodes)).inode.inode_num,
            self.slot(final(inodes)).inode.inode.size == self.slot(old(inodes)).inode.inode.size,
            self.slot(final(inodes)).inode.inode.file_type == self.slot(
                old(inodes),
            ).inode.inode.file_type,
            self.slot(final(inodes)).inode.inode.blocks == self.slot(old(inodes)).inode.inode.blocks,
            self.slot(final(inodes)).file_cache_manager == self.slot(old(inodes)).file_cache_manager,
    {
        let h = self.shared;
        let mut slot = inodes.take(h);
        if let Some(ctime) = ctime {
            slot.inode.inode.ctime = ctime as u32;
        }
        if let Some(atime) = atime {
            slot.inode.inode.atime = atime as u32;
        }
        if let Some(mtime) = mtime {
            slot.inode.inode.mtime = mtime as u32;
        }
        inodes.put(h, slot);
    }

    /// The page that holds the bytes from the page-aligned position `offset`
    /// on, by its number, loaded into the shared page cache if it is not
    /// cached yet: from its disk blocks in `disk[p]`, for page `p`.
    pub fn get_single_cache(
        &self,
        inodes: &mut OpenInodes,
        offset: usize,
        disk: &Vec<Vec<Vec<u8>>>,
    ) -> (r: Result<usize, ()>)
        requires
            self.valid(old(inodes)),
            offset % CACHE_SZ == 0,
            self.slot(old(inodes)).disk_fits(
                offset as int,
                offset + 1,
                disk@,
                self.ext4fs.block_size as int,
            ),
        ensures
            r == Ok::<usize, ()>((offset / CACHE_SZ) as usize),
            final(inodes).wf(),
            final(inodes).only_changed(old(inodes), self.shared as int),
            self.slot(final(inodes)).spec_loaded(
                &self.slot(old(inodes)),
                offset as int,
                offset + 1,
                disk@,
                self.ext4fs.block_size as int,
            ),
    {
        let r = self.get_single_cache_new(offset);
        assert(offset < usize::MAX) by {
            assert(usize::MAX == 0xffff_ffff || usize::MAX == 0xffff_ffff_ffff_ffff);
        }
        let h = self.shared;
        let mut slot = inodes.take(h);
        slot.load_range(offset, offset + 1, disk, self.ext4fs.block_size);
        inodes.put(h, slot);
        r
    }

    fn get_single_cache_new(&self, offset: usize) -> (r: Result<usize, ()>)
        requires
            offset % CACHE_SZ == 0,
        ensures
            r == Ok::<usize, ()>((offset / CACHE_SZ) as usize),
    {
        let low = offset & 0xfff;
        proof {
            assert(offset & 0xfff == offset % 4096) by (bit_vector);
            assert(offset >> 12 == offset / 4096) by (bit_vector);
        }
        if low != 0 {
            proof {
                assert(false);
            }
            return Err(());
        }
        let inner_cache_id = offset >> 12;
        Ok(inner_cache_id)
    }

    /// The numbers of all pages that hold bytes of the file, in order, each
    /// loaded into the shared page cache if it is not cached yet: page `p`
    /// from its disk blocks in `disk[p]`.
    pub fn get_all_caches(&self, inodes: &mut OpenInodes, disk: &Vec<Vec<Vec<u8>>>) -> (r: Result<
        Vec<usize>,
        (),
    >)
        requires
            self.valid(old(inodes)),
            self.slot(old(inodes)).size() + CACHE_SZ <= usize::MAX,
            self.slot(old(inodes)).disk_fits(
                0,
                self.slot(old(inodes)).size(),
                disk@,
                self.ext4fs.block_size as int,
            ),
        ensures
            r is Ok,
            r->Ok_0@ == Seq::new(
                ((self.slot(old(inodes)).size() + CACHE_SZ - 1) / (CACHE_SZ as int)) as nat,
                |k: int| k as usize,
            ),
            final(inodes).wf(),
            final(inodes).only_changed(old(inodes), self.shared as int),
            self.slot(final(inodes)).spec_loaded(
                &self.slot(old(inodes)),
                0,
                self.slot(old(inodes)).size(),
                disk@,
                self.ext4fs.block_size as int,
            ),
    {
        let h = self.shared;
        let mut slot = inodes.take(h);
        let size = slot.inode.inode.size as usize;
        slot.load_range(0, size, disk, self.ext4fs.block_size);
        inodes.put(h, slot);
        let file_size = inodes.slots[self.shared].inode.inode.size as usize;
        let cache_num = (file_size + CACHE_SZ - 1) / CACHE_SZ;
        let mut cache_list: Vec<usize> = Vec::with_capacity(cache_num);
        let mut cache_id: usize = 0;
        while cache_id < cache_num
            invariant
                cache_num == (self.slot(inodes).size() + CACHE_SZ - 1) / (CACHE_SZ as int),
                self.slot(inodes).size() + CACHE_SZ <= usize::MAX,
                cache_id <= cache_num,
                cache_list@ == Seq::new(cache_id as nat, |k: int| k as usize),
            decreases cache_num - cache_id,
        {
            proof {
                assert(cache_id * 4096 <= usize::MAX) by (nonlinear_arith)
                    requires
                        cache_id < cache_num,
                        cache_num == (self.slot(inodes).size() + CACHE_SZ - 1) / (CACHE_SZ as int),
                        self.slot(inodes).size() + CACHE_SZ <= usize::MAX,
                ;
                vstd::arithmetic::power2::lemma2_to64();
                vstd::bits::lemma_usize_shl_is_mul(cache_id, 12);
                super::cache::lemma_page_position(cache_id as int, 0);
            }
            let page = self.get_single_cache_new(cache_id << 12usize);
            match page {
                Ok(id) => {
                    cache_list.push(id);
                },
                Err(_) => {
                    return Err(());
                },
            }
            cache_id += 1;
            proof {
                assert(cache_list@ =~= Seq::new(cache_id as nat, |k: int| k as usize));
            }
        }
        Ok(cache_list)
    }

    /// The physical blocks that page `inner_cache_id` of the file spans: one
    /// per file-system block in a page, from the page's first logical block
    /// on, stopping at the last block of the file.
    pub fn get_neighboring_blk(&self, inner_cache_id: usize, inode_ref: &Ext4InodeRef) -> (blocks:
        Vec<usize>)
        requires
            self.ext4fs.block_size > 0,
            inner_cache_id * (CACHE_SZ / self.ext4fs.block_size) <= usize::MAX,
            inode_ref.inode.size + self.ext4fs.block_size <= usize::MAX,
            forall|k: int|
                0 <= k < spec_neighbor_count(
                    inner_cache_id as int,
                    self.ext4fs.block_size as int,
                    inode_ref.inode.size as int,
                ) ==> #[trigger] spec_lblock(
                    inner_cache_id * (CACHE_SZ / self.ext4fs.block_size),
                    k,
                ) < inode_ref.inode.blocks@.len(),
        ensures
            blocks@ == Seq::new(
                spec_neighbor_count(
                    inner_cache_id as int,
                    self.ext4fs.block_size as int,
                    inode_ref.inode.size as int,
                ) as nat,
                |k: int|
                    inode_ref.inode.blocks@[spec_lblock(
                        inner_cache_id * (CACHE_SZ / self.ext4fs.block_size),
                        k,
                    )] as usize,
            ),
    {
        let byts_per_blk = self.ext4fs.block_size;
        let blk_per_cache = CACHE_SZ / byts_per_blk;
        let first = inner_cache_id * blk_per_cache;
        let mut blk_id = first;
        let mut block_ids: Vec<usize> = Vec::with_capacity(blk_per_cache);
        let file_size = inode_ref.inode.size as usize;
        let blk_cnts = (file_size + byts_per_blk - 1) / byts_per_blk;
        let mut step: usize = 0;
        while step < blk_per_cache
            invariant_except_break
                step <= blk_per_cache,
                blk_id == first + step,
                blk_id <= blk_cnts || step == 0,
            invariant
                byts_per_blk == self.ext4fs.block_size,
                blk_per_cache == CACHE_SZ / byts_per_blk,
                first == inner_cache_id * blk_per_cache,
                blk_cnts == spec_block_count(inode_ref.inode.size as int, byts_per_blk as int),
                forall|k: int|
                    0 <= k < spec_neighbor_count(
                        inner_cache_id as int,
                        byts_per_blk as int,
                        inode_ref.inode.size as int,
                    ) ==> #[trigger] spec_lblock(first as int, k) < inode_ref.inode.blocks@.len(),
                block_ids@ == Seq::new(
                    (blk_id - first) as nat,
                    |k: int| inode_ref.inode.blocks@[spec_lblock(first as int, k)] as usize,
                ),
                first <= blk_id <= first + blk_per_cache,
            ensures
                blk_id == first + spec_neighbor_count(
                    inner_cache_id as int,
                    byts_per_blk as int,
                    inode_ref.inode.size as int,
                ),
            decreases blk_per_cache - step,
        {
            if blk_id >= blk_cnts {
                break;
            }
            proof {
                let k = blk_id - first;
                assert(k < spec_neighbor_count(
                    inner_cache_id as int,
                    byts_per_blk as int,
                    inode_ref.inode.size as int,
                ));
                assert(spec_lblock(first as int, k) < inode_ref.inode.blocks@.len());
            }
            let start_block_id = self.ext4fs.get_pblock_idx(
                inode_ref,
                #[verifier::truncate]
                (blk_id as u32),
            );
            match start_block_id {
                Ok(pblock) => {
                    block_ids.push(pblock as usize);
                },
                Err(_) => {
                    proof {
                        assert(false);
                    }
                },
            }
            blk_id += 1;
            step += 1;
            proof {
                assert(block_ids@ =~= Seq::new(
                    (blk_id - first) as nat,
                    |k: int| inode_ref.inode.blocks@[spec_lblock(first as int, k)] as usize,
                ));
            }
        }
        block_ids
    }

    /// Starts writing a list of buffers, at the given offset or else at the
    /// file object's own, against the inode as it is now.
    pub fn write_user_begin(&self, inodes: &OpenInodes, offset: Option<usize>) -> (w: UserWrite)
        requires
            self.valid(inodes),
        ensures
            w.offset == self.start_of(offset),
            w.total == 0,
            w.own_offset == (offset is None),
            w.inode_ref.same(&self.slot(inodes).inode),
    {
        let start = match offset {
            Some(o) => o,
            None => self.offset,
        };
        UserWrite {
            offset: start,
            total: 0,
            own_offset: offset.is_none(),
            inode_ref: inodes.slots[self.shared].inode.duplicate(),
        }
    }

    /// One buffer of a list being written: the buffer goes into the shared
    /// page cache at the current offset, up to the size the inode had when
    /// the write began (a page written that is not cached is loaded first,
    /// page `p` from its disk blocks in `disk[p]`); then `written`,
    /// what the file system reported for the same buffer, moves the offset
    /// and the total on by the bytes it wrote. Returns whether to go on with
    /// the next buffer: not after a write of zero bytes. A failed write
    /// moves nothing.
    pub fn write_user_step(
        &mut self,
        inodes: &mut OpenInodes,
        w: &mut UserWrite,
        slice: &Vec<u8>,
        written: Result<usize, isize>,
        disk: &Vec<Vec<Vec<u8>>>,
    ) -> (go_on: bool)
        requires
            old(self).valid(old(inodes)),
            old(w).offset <= old(w).inode_ref.inode.size,
            old(w).offset + slice@.len() <= usize::MAX,
            old(w).inode_ref.inode.size + CACHE_SZ <= usize::MAX,
            old(self).slot(old(inodes)).disk_fits(
                old(w).offset as int,
                old(w).offset + spec_read_len(
                    old(w).offset as int,
                    slice@.len() as int,
                    old(w).inode_ref.inode.size as int,
                ),
                disk@,
                old(self).ext4fs.block_size as int,
            ),
            written is Ok ==> old(w).offset + written->Ok_0 <= usize::MAX,
            written is Ok ==> old(w).total + written->Ok_0 <= usize::MAX,
        ensures
            go_on == !(written is Ok && written->Ok_0 == 0),
            final(w).offset == if written is Ok {
                old(w).offset + written->Ok_0
            } else {
                old(w).offset as int
            },
            final(w).total == if written is Ok {
                old(w).total + written->Ok_0
            } else {
                old(w).total as int
            },
            final(w).own_offset == old(w).own_offset,
            final(w).inode_ref == old(w).inode_ref,
            final(inodes).wf(),
            final(inodes).only_changed(old(inodes), old(self).shared as int),
            final(self).same_but_offset(old(self)),
            final(self).slot(final(inodes)).inode == old(self).slot(old(inodes)).inode,
            final(self).offset == if old(w).own_offset {
                final(w).offset
            } else {
                old(self).offset
            },
            final(self).slot(final(inodes)).spec_stored(
                &old(self).slot(old(inodes)),
                old(w).offset as int,
                slice@.subrange(
                    0,
                    spec_read_len(
                        old(w).offset as int,
                        slice@.len() as int,
                        old(w).inode_ref.inode.size as int,
                    ),
                ),
                disk@,
                old(self).ext4fs.block_size as int,
            ),
    {
        let h = self.shared;
        let mut slot = inodes.take(h);
        let _ = slot.write_loading(w.offset, slice, w.inode_ref.inode.size, disk, self.ext4fs.block_size);
        inodes.put(h, slot);
        let mut go_on = true;
        if let Ok(write_size) = written {
            if write_size == 0 {
                go_on = false;
            } else {
                w.offset = w.offset + write_size;
                w.total = w.total + write_size;
            }
        }
        if w.own_offset {
            self.offset = w.offset;
        }
        go_on
    }

    /// Writes each buffer of `buf` in turn into the shared page cache, from
    /// the given offset or else from the file object's own, up to the size
    /// the inode has when the write begins; `written[j]` is what the file
    /// system reported for writing buffer `j` to disk. A page written that
    /// is not cached is loaded first: page `p` from its disk blocks in
    /// `disk[p]`. Each reported byte count moves the offset on; a failed
    /// write moves nothing, and after a write of zero bytes no later buffer
    /// is written. Returns the number of bytes the file system wrote; without
    /// a given offset, the file object's offset advances by it.
    pub fn write_user(
        &mut self,
        inodes: &mut OpenInodes,
        offset: Option<usize>,
        buf: &Vec<Vec<u8>>,
        written: &Vec<Result<usize, isize>>,
        disk: &Vec<Vec<Vec<u8>>>,
    ) -> (n: usize)
        requires
            old(self).valid(old(inodes)),
            written@.len() == buf@.len(),
            old(self).slot(old(inodes)).size() + CACHE_SZ <= usize::MAX,
            spec_user_offset(
                old(self).start_of(offset),
                written@,
                spec_user_steps(written@),
            ) <= usize::MAX,
            forall|j: int|
                0 <= j < spec_user_steps(written@) ==> {
                    let o = spec_user_offset(old(self).start_of(offset), written@, j);
                    &&& o <= old(self).slot(old(inodes)).size()
                    &&& o + (#[trigger] buf@[j])@.len() <= usize::MAX
                    &&& old(self).slot(old(inodes)).disk_fits(
                        o,
                        o + spec_read_len(o, buf@[j]@.len() as int, old(self).slot(old(inodes)).size()),
                        disk@,
                        old(self).ext4fs.block_size as int,
                    )
                },
        ensures
            n == spec_user_offset(
                old(self).start_of(offset),
                written@,
                spec_user_steps(written@),
            ) - old(self).start_of(offset),
            final(inodes).wf(),
            final(inodes).only_changed(old(inodes), old(self).shared as int),
            old(self).slot(final(inodes)).inode == old(self).slot(old(inodes)).inode,
            forall|i: int|
                #![trigger old(self).slot(final(inodes)).content(disk@, old(self).ext4fs.block_size as int, i)]
                0 <= i ==> old(self).slot(final(inodes)).content(
                    disk@,
                    old(self).ext4fs.block_size as int,
                    i,
                ) == spec_user_content(
                    old(self).slot(old(inodes)),
                    old(self).start_of(offset),
                    buf@,
                    written@,
                    disk@,
                    old(self).ext4fs.block_size as int,
                    spec_user_steps(written@),
                    i,
                ),
            final(self).same_but_offset(old(self)),
            final(self).offset == if offset is None {
                old(self).offset + n
            } else {
                old(self).offset as int
            },
    {
        let ghost s0 = self.slot(inodes);
        let ghost old_inodes = *inodes;
        let ghost old_self = *self;
        let ghost start = self.start_of(offset);
        let ghost bs = self.ext4fs.block_size as int;
        let ghost steps = spec_user_steps(written@);
        let ghost stop = spec_user_stop(written@, 0);
        proof {
            lemma_user_stop_bounds(written@, 0);
        }
        assert forall|i: int| 0 <= i < steps implies spec_user_offset(start, written@, i) <= s0.size() by {
            let _ = buf@[i];
        }
        let mut w = self.write_user_begin(inodes, offset);
        assert(forall|i: int|
            0 <= i < steps ==> {
                let o = spec_user_offset(start, written@, i);
                &&& o <= s0.size()
                &&& o + (#[trigger] buf@[i])@.len() <= usize::MAX
                &&& s0.disk_fits(
                    o,
                    o + spec_read_len(o, buf@[i]@.len() as int, s0.size()),
                    disk@,
                    bs,
                )
            });
        let mut j: usize = 0;
        while j < buf.len()
            invariant_except_break
                j <= stop,
                stop == spec_user_stop(written@, j as int),
            invariant
                j <= buf@.len(),
                written@.len() == buf@.len(),
                stop == spec_user_stop(written@, 0),
                stop <= buf@.len(),
                steps == spec_user_steps(written@),
                bs == self.ext4fs.block_size as int,
                start == old_self.start_of(offset),
                w.offset == spec_user_offset(start, written@, j as int),
                w.total == w.offset - start,
                w.own_offset == (offset is None),
                w.inode_ref.same(&s0.inode),
                s0 == old_self.slot(&old_inodes),
                s0.size() + CACHE_SZ <= usize::MAX,
                spec_user_offset(start, written@, steps) <= usize::MAX,
                forall|i: int|
                    0 <= i < steps ==> {
                        let o = spec_user_offset(start, written@, i);
                        &&& o <= s0.size()
                        &&& o + (#[trigger] buf@[i])@.len() <= usize::MAX
                        &&& s0.disk_fits(
                            o,
                            o + spec_read_len(o, buf@[i]@.len() as int, s0.size()),
                            disk@,
                            bs,
                        )
                    },
                self.valid(inodes),
                inodes.only_changed(&old_inodes, old_self.shared as int),
                self.same_but_offset(&old_self),
                self.offset == if offset is None {
                    w.offset as int
                } else {
                    old_self.offset as int
                },
                self.slot(inodes).inode == s0.inode,
                forall|p: int|
                    #[trigger] s0.file_cache_manager.cached(p) ==> self.slot(
                        inodes,
                    ).file_cache_manager.cached(p),
                forall|i: int|
                    #![trigger self.slot(inodes).content(disk@, bs, i)]
                    0 <= i ==> self.slot(inodes).content(disk@, bs, i) == spec_user_content(
                        s0,
                        start,
                        buf@,
                        written@,
                        disk@,
                        bs,
                        j as int,
                        i,
                    ),
            ensures
                j == steps,
            decreases buf@.len() - j,
        {
            proof {
                lemma_user_stop_bounds(written@, j + 1);
                assert(j < steps);
                lemma_user_offset_steps(start, written@, j + 1, steps);
                let _ = buf@[j as int];
            }
            let ghost cur = self.slot(inodes);
            let ghost o = w.offset as int;
            let ghost m = spec_read_len(o, buf@[j as int]@.len() as int, s0.size());
            proof {
                assert(cur.disk_fits(o, o + m, disk@, bs)) by {
                    assert(s0.disk_fits(o, o + m, disk@, bs));
                    assert forall|p: int| #[trigger] cur.loads(o, o + m, p) implies s0.loads(
                        o,
                        o + m,
                        p,
                    ) by {}
                }
            }
            let go_on = self.write_user_step(inodes, &mut w, &buf[j], written[j], disk);
            proof {
                let next = self.slot(inodes);
                let data = buf@[j as int]@.subrange(0, m);
                assert forall|i: int|
                    #![trigger self.slot(inodes).content(disk@, bs, i)]
                    0 <= i implies self.slot(inodes).content(disk@, bs, i) == spec_user_content(
                        s0,
                        start,
                        buf@,
                        written@,
                        disk@,
                        bs,
                        j + 1,
                        i,
                    ) by {
                    lemma_stored_content(&cur, &next, o, data, disk@, bs, i);
                    assert(cur.content(disk@, bs, i) == spec_user_content(
                        s0,
                        start,
                        buf@,
                        written@,
                        disk@,
                        bs,
                        j as int,
                        i,
                    ));
                }
            }
            j += 1;
            if !go_on {
                break;
            }
        }
        proof {
            lemma_user_stop_bounds(written@, j as int);
        }
        w.total
    }

    /// The pages, in increasing order, that hold a byte from `start` up to
    /// `start + len` and are not cached yet: those a read or write of that
    /// range has to load first.
    pub fn pages_to_load(&self, inodes: &OpenInodes, start: usize, len: usize) -> (pages: Vec<usize>)
        requires
            self.valid(inodes),
            start + len <= usize::MAX,
        ensures
            forall|k: int|
                0 <= k < pages@.len() ==> {
                    &&& (start as int) / (CACHE_SZ as int) <= #[trigger] pages@[k] && pages@[k] * CACHE_SZ
                        < start + len
                    &&& !self.slot(inodes).file_cache_manager.cached(pages@[k] as int)
                },
            forall|k: int, m: int| 0 <= k < m < pages@.len() ==> pages@[k] < pages@[m],
            forall|p: int|
                len > 0 && (start as int) / (CACHE_SZ as int) <= p && p * CACHE_SZ < start + len
                    && !self.slot(inodes).file_cache_manager.cached(p) ==> exists|k: int|
                    0 <= k < pages@.len() && #[trigger] pages@[k] == p,
    {
        let cache = &inodes.slots[self.shared].file_cache_manager;
        let mut pages: Vec<usize> = Vec::new();
        if len == 0 {
            return pages;
        }
        let first = start / CACHE_SZ;
        let last = (start + len - 1) / CACHE_SZ;
        let mut p = first;
        while p <= last
            invariant
                first == (start as int) / (CACHE_SZ as int),
                last == (start + len - 1) / (CACHE_SZ as int),
                len > 0,
                start + len <= usize::MAX,
                first <= p <= last + 1,
                last < usize::MAX,
                *cache == self.slot(inodes).file_cache_manager,
                forall|k: int|
                    0 <= k < pages@.len() ==> {
                        &&& first <= #[trigger] pages@[k] < p
                        &&& !cache.cached(pages@[k] as int)
                    },
                forall|k: int, m: int| 0 <= k < m < pages@.len() ==> pages@[k] < pages@[m],
                forall|q: int|
                    first <= q < p && !cache.cached(q) ==> exists|k: int|
                        0 <= k < pages@.len() && #[trigger] pages@[k] == q,
            decreases last + 1 - p,
        {
            if !cache.is_cached(p) {
                let ghost before = pages@;
                pages.push(p);
                proof {
                    assert forall|q: int|
                        first <= q < p + 1 && !cache.cached(q) implies exists|k: int|
                        0 <= k < pages@.len() && #[trigger] pages@[k] == q by {
                        if q == p {
                            assert(pages@[before.len() as int] == q);
                        } else {
                            let k = choose|k: int| 0 <= k < before.len() && before[k] == q;
                            assert(pages@[k] == q);
                        }
                    }
                }
            }
            p += 1;
        }
        proof {
            assert forall|k: int| 0 <= k < pages@.len() implies #[trigger] pages@[k] * CACHE_SZ < start
                + len by {
                assert(pages@[k] * CACHE_SZ <= last * CACHE_SZ) by (nonlinear_arith)
                    requires
                        pages@[k] <= last,
                ;
                vstd::arithmetic::div_mod::lemma_fundamental_div_mod(
                    start + len - 1,
                    CACHE_SZ as int,
                );
            }
            assert forall|q: int|
                (start as int) / (CACHE_SZ as int) <= q && q * CACHE_SZ < start + len && !cache.cached(
                    q,
                ) implies exists|k: int| 0 <= k < pages@.len() && #[trigger] pages@[k] == q by {
                vstd::arithmetic::div_mod::lemma_fundamental_div_mod(
                    start + len - 1,
                    CACHE_SZ as int,
                );
                assert(q <= last) by (nonlinear_arith)
                    requires
                        q * CACHE_SZ < start + len,
                        start + len - 1 == last * CACHE_SZ + (start + len - 1) % (CACHE_SZ as int),
                        0 <= (start + len - 1) % (CACHE_SZ as int),
                ;
            }
        }
        pages
    }

    /// Loads page `cache_id` of the file into the shared page cache, from
    /// the contents of the disk blocks that `get_neighboring_blk` lists for
    /// it, unless the page is cached already. Block `k` fills the page from
    /// position `k * block_size` on; the rest of the page is zero.
    pub fn fill_cache(&self, inodes: &mut OpenInodes, cache_id: usize, blocks: &Vec<Vec<u8>>)
        requires
            self.valid(old(inodes)),
            self.ext4fs.block_size > 0,
            blocks@.len() * self.ext4fs.block_size <= CACHE_SZ,
            forall|k: int| 0 <= k < blocks@.len() ==> (#[trigger] blocks@[k])@.len() == self.ext4fs.block_size,
        ensures
            final(inodes).wf(),
            final(inodes).only_changed(old(inodes), self.shared as int),
            self.slot(final(inodes)).inode == self.slot(old(inodes)).inode,
            forall|p: int|
                #[trigger] self.slot(final(inodes)).file_cache_manager.cached(p) == (self.slot(
                    old(inodes),
                ).file_cache_manager.cached(p) || p == cache_id),
            forall|i: int|
                #![trigger self.slot(final(inodes)).byte(i)]
                self.slot(final(inodes)).byte(i) == if !self.slot(
                    old(inodes),
                ).file_cache_manager.cached(cache_id as int) && cache_id * CACHE_SZ <= i
                    < cache_id * CACHE_SZ + CACHE_SZ {
                    spec_page_byte(blocks@, self.ext4fs.block_size as int, i - cache_id * CACHE_SZ)
                } else {
                    self.slot(old(inodes)).byte(i)
                },
    {
        let h = self.shared;
        let mut slot = inodes.take(h);
        slot.fill(cache_id, blocks, self.ext4fs.block_size);
        inodes.put(h, slot);
    }

    /// Lists the directory for `getdents`, given the entries the file system
    /// holds for it: at most `count` of them, the first ones. The offset of
    /// the file object becomes the record length of the directory's last
    /// entry; when that leaves the offset as it was, nothing is listed, so a
    /// listing right after another lists nothing. Otherwise each entry
    /// listed comes with its inode number, record length, type and name.
    pub fn get_dirent(&mut self, inodes: &OpenInodes, count: usize, entries: &Vec<Ext4DirEntry>) -> (r:
        Vec<Dirent>)
        requires
            old(self).valid(inodes),
            old(self).slot(inodes).inode.inode.file_type == DiskInodeType::Directory,
            spec_dirent_offset(old(self).offset, entries@) != old(self).offset ==> forall|
                k: int,
            | 0 <= k < spec_listed(entries@, count) ==> #[trigger] entries@[k].de_type <= 7,
        ensures
            final(self).offset == spec_dirent_offset(old(self).offset, entries@),
            final(self).same_but_offset(old(self)),
            r@.len() == if final(self).offset == old(self).offset {
                0
            } else {
                spec_listed(entries@, count)
            },
            r@.len() <= count,
            final(self).offset != old(self).offset ==> r@.len() == if count < entries@.len() {
                count as int
            } else {
                entries@.len() as int
            },
            forall|k: int|
                0 <= k < r@.len() ==> {
                    &&& (#[trigger] r@[k]).d_ino == entries@[k].inode as usize
                    &&& r@[k].d_off == entries@[k].entry_len as isize
                    &&& r@[k].d_type == spec_d_type(entries@[k].de_type)
                    &&& r@[k].d_name@ == entries@[k].name@
                },
    {
        let listed = if count < entries.len() {
            count
        } else {
            entries.len()
        };
        let old_offset = self.offset;
        if entries.len() > 0 {
            self.offset = entries[entries.len() - 1].entry_len as usize;
        }
        if old_offset == self.offset {
            return Vec::new();
        }
        let mut result: Vec<Dirent> = Vec::new();
        let mut k: usize = 0;
        while k < listed
            invariant
                listed == spec_listed(entries@, count),
                k <= listed,
                forall|m: int| 0 <= m < listed ==> #[trigger] entries@[m].de_type <= 7,
                result@.len() == k,
                forall|m: int|
                    0 <= m < k ==> {
                        &&& (#[trigger] result@[m]).d_ino == entries@[m].inode as usize
                        &&& result@[m].d_off == entries@[m].entry_len as isize
                        &&& result@[m].d_type == spec_d_type(entries@[m].de_type)
                        &&& result@[m].d_name@ == entries@[m].name@
                    },
            decreases listed - k,
        {
            let entry = &entries[k];
            let d_type = match dir_entry_type(entry.de_type) {
                Some(t) => t,
                None => {
                    proof {
                        assert(false);
                    }
                    DT_UNKNOWN
                },
            };
            let dirent = Dirent::new(
                entry.inode as usize,
                entry.entry_len as isize,
                d_type,
                entry.name.as_str(),
            );
            result.push(dirent);
            k += 1;
        }
        result
    }

    /// Opens every entry of the directory, given the entries the file system
    /// holds for it and, for each, its inode; each is opened on an inode
    /// state of its own. Fails with `ENOTDIR` when the file is not a
    /// directory.
    pub fn open_subfile(
        &self,
        inodes: &mut OpenInodes,
        entries: &Vec<Ext4DirEntry>,
        children: &Vec<Ext4InodeRef>,
    ) -> (r: Result<Vec<(String, Ext4OSInode)>, isize>)
        requires
            self.valid(old(inodes)),
            children@.len() == entries@.len(),
            forall|k: int|
                0 <= k < entries@.len() ==> (#[trigger] children@[k]).inode_num == entries@[k].inode,
        ensures
            final(inodes).wf(),
            self.slot(old(inodes)).inode.inode.file_type != DiskInodeType::Directory ==> r
                == Err::<Vec<(String, Ext4OSInode)>, isize>(ENOTDIR) && final(inodes).slots@ == old(
                inodes,
            ).slots@,
            self.slot(old(inodes)).inode.inode.file_type == DiskInodeType::Directory ==> r is Ok,
            r is Ok ==> r->Ok_0@.len() == entries@.len() && final(inodes).slots@.len() == old(
                inodes,
            ).slots@.len() + entries@.len(),
            forall|g: int|
                0 <= g < old(inodes).slots@.len() ==> #[trigger] final(inodes).slots@[g] == old(
                    inodes,
                ).slots@[g],
            r is Ok ==> forall|k: int|
                0 <= k < entries@.len() ==> {
                    let (name, file) = #[trigger] r->Ok_0@[k];
                    &&& name@ == entries@[k].name@
                    &&& file.readable && file.writable && !file.special_use && !file.append
                    &&& file.offset == 0
                    &&& file.shared == old(inodes).slots@.len() + k
                    &&& file.slot(final(inodes)).inode.same(&children@[k])
                    &&& forall|p: int| !(#[trigger] file.slot(final(inodes)).file_cache_manager.cached(p))
                    &&& file.ext4fs == self.ext4fs
                },
    {
        if inodes.slots[self.shared].inode.inode.file_type != DiskInodeType::Directory {
            return Err(ENOTDIR);
        }
        let ghost base = old(inodes).slots@.len();
        let mut result: Vec<(String, Ext4OSInode)> = Vec::new();
        let mut k: usize = 0;
        while k < entries.len()
            invariant
                k <= entries@.len(),
                children@.len() == entries@.len(),
                self.shared < base,
                inodes.wf(),
                inodes.slots@.len() == base + k,
                forall|g: int|
                    0 <= g < base ==> #[trigger] inodes.slots@[g] == old(inodes).slots@[g],
                result@.len() == k,
                forall|m: int|
                    0 <= m < k ==> {
                        let (name, file) = #[trigger] result@[m];
                        &&& name@ == entries@[m].name@
                        &&& file.readable && file.writable && !file.special_use && !file.append
                        &&& file.offset == 0
                        &&& file.shared == base + m
                        &&& file.slot(inodes).inode.same(&children@[m])
                        &&& forall|p: int| !(#[trigger] file.slot(inodes).file_cache_manager.cached(p))
                        &&& file.ext4fs == self.ext4fs
                    },
            decreases entries@.len() - k,
        {
            let name = entries[k].name.clone();
            let file = self.child(inodes, children[k].duplicate());
            result.push((name, file));
            k += 1;
        }
        Ok(result)
    }

    /// What creating `name` of the given type in this directory asks of the
    /// file system: a directory with the directory mode, or a regular file
    /// with the regular mode and owner read and write permission.
    pub fn create(&self, inodes: &OpenInodes, name: &str, file_type: DiskInodeType) -> (req:
        CreateRequest)
        requires
            self.valid(inodes),
        ensures
            req.parent_inode_num == self.slot(inodes).inode.inode_num,
            req.name@ == name@,
            req.directory == (file_type == DiskInodeType::Directory),
            req.mode == if file_type == DiskInodeType::Directory {
                INODE_S_IFDIR
            } else {
                INODE_S_IFREG | INODE_S_IREAD | INODE_S_IWRITE
            },
    {
        let parent_inode_num = inodes.slots[self.shared].inode.inode_num;
        let inode_mode: u16 = match file_type {
            DiskInodeType::File => INODE_S_IFREG,
            DiskInodeType::Directory => INODE_S_IFDIR,
        };
        if inode_mode == INODE_S_IFDIR {
            CreateRequest {
                parent_inode_num,
                name: String::from_str(name),
                directory: true,
                mode: inode_mode,
            }
        } else {
            let inode_perm: u16 = INODE_S_IREAD | INODE_S_IWRITE;
            assert(0x8000u16 | (0o400u16 | 0o200u16) == (0x8000u16 | 0o400u16) | 0o200u16)
                by (bit_vector);
            CreateRequest {
                parent_inode_num,
                name: String::from_str(name),
                directory: false,
                mode: inode_mode | inode_perm,
            }
        }
    }

    /// How to remove this file from its directory, given whether the file
    /// system still lists entries in it: a directory that still has entries
    /// is refused with `ENOTEMPTY`.
    pub fn unlink(&self, inodes: &OpenInodes, dir_has_entry: bool) -> (r: Result<
        UnlinkAction,
        isize,
    >)
        requires
            self.valid(inodes),
        ensures
            r == if self.slot(inodes).inode.inode.file_type == DiskInodeType::Directory {
                if dir_has_entry {
                    Err::<UnlinkAction, isize>(ENOTEMPTY)
                } else {
                    Ok::<UnlinkAction, isize>(UnlinkAction::RemoveDirectory)
                }
            } else {
                Ok::<UnlinkAction, isize>(UnlinkAction::RemoveFile)
            },
    {
        let file_type = inodes.slots[self.shared].inode.inode.file_type;
        if file_type == DiskInodeType::Directory && dir_has_entry {
            return Err(ENOTEMPTY);
        }
        if file_type == DiskInodeType::Directory {
            return Ok(UnlinkAction::RemoveDirectory);
        }
        Ok(UnlinkAction::RemoveFile)
    }
}

/// The `getdents` type of an ext4 directory entry type, when it is a known
/// type (at most 7).
pub fn dir_entry_type(de_type: u8) -> (t: Option<u8>)
    ensures
        t == if de_type <= 7 {
            Some(spec_d_type(de_type))
        } else {
            None::<u8>
        },
{
    if de_type > 7 {
        None
    } else if de_type == EXT4_DE_DIR {
        Some(DT_DIR)
    } else if de_type == EXT4_DE_REG_FILE {
        Some(DT_REG)
    } else {
        Some(DT_UNKNOWN)
    }
}

/// How many of `entries` a listing of at most `count` entries gives.
pub open spec fn spec_listed(entries: Seq<Ext4DirEntry>, count: usize) -> int {
    spec_min(count as int, entries.len() as int)
}

/// The offset of a directory after listing it: the record length of its
/// last entry, or the old offset when it has none.
pub open spec fn spec_dirent_offset(offset: usize, entries: Seq<Ext4DirEntry>) -> usize {
    if entries.len() > 0 {
        entries[entries.len() - 1].entry_len as usize
    } else {
        offset
    }
}

/// Byte `r` of a page loaded from `blocks` of `block_size` bytes each:
/// block `k` fills the page from position `k * block_size` on, and the rest
/// is zero.
pub open spec fn spec_page_byte(blocks: Seq<Vec<u8>>, block_size: int, r: int) -> u8 {
    if 0 <= r < blocks.len() * block_size {
        blocks[r / block_size]@[r % block_size]
    } else {
        0
    }
}

/// The size of a file after `modify_size(diff)`: its size taken modulo
/// 2^32, plus `diff`, taken modulo 2^32.
pub open spec fn spec_shrunk_size(size: u64, diff: isize) -> int {
    (((size as u32) as isize + diff) as u32) as int
}

/// Logical block `first + k` as the 32-bit block number the file system is
/// asked for.
pub open spec fn spec_lblock(first: int, k: int) -> int {
    ((first + k) as u32) as int
}

/// How many file-system blocks of `block_size` bytes a file of `size` bytes
/// occupies.
pub open spec fn spec_block_count(size: int, block_size: int) -> int {
    (size + block_size - 1) / block_size
}

/// How many blocks of page `cache_id` lie inside the file.
pub open spec fn spec_neighbor_count(cache_id: int, block_size: int, size: int) -> int {
    let per_page = CACHE_SZ as int / block_size;
    let first = cache_id * per_page;
    let count = spec_block_count(size, block_size);
    if first >= count {
        0
    } else {
        spec_min(per_page, count - first)
    }
}

/// The smaller of two numbers.
pub open spec fn spec_min(a: int, b: int) -> int {
    if a <= b {
        a
    } else {
        b
    }
}

/// How many bytes a file of `size` bytes holds from position `start` on.
pub open spec fn spec_available(start: int, size: int) -> int {
    if start < size {
        size - start
    } else {
        0
    }
}

/// The total length of the first `i` buffers.
pub open spec fn spec_prefix_len(bufs: Seq<Vec<u8>>, i: int) -> int
    decreases i,
{
    if i <= 0 {
        0
    } else {
        spec_prefix_len(bufs, i - 1) + bufs[i - 1]@.len()
    }
}

/// The index of the first empty buffer from index `i` on, or the number of
/// buffers when there is none.
pub open spec fn spec_first_empty(bufs: Seq<Vec<u8>>, i: int) -> int
    decreases bufs.len() - i,
{
    if i >= bufs.len() {
        bufs.len() as int
    } else if bufs[i]@.len() == 0 {
        i
    } else {
        spec_first_empty(bufs, i + 1)
    }
}

/// How many bytes reading a file of `size` bytes from position `start` into
/// the buffers `bufs` one after the other gets: the buffers before the first
/// empty one are filled up to the end of the file.
pub open spec fn spec_user_read_len(bufs: Seq<Vec<u8>>, start: int, size: int) -> int {
    spec_min(spec_prefix_len(bufs, spec_first_empty(bufs, 0)), spec_available(start, size))
}

/// The total length of buffers grows with their number.
pub proof fn lemma_prefix_monotonic(bufs: Seq<Vec<u8>>, i: int, j: int)
    requires
        0 <= i <= j <= bufs.len(),
    ensures
        spec_prefix_len(bufs, i) <= spec_prefix_len(bufs, j),
    decreases j - i,
{
    if i < j {
        lemma_prefix_monotonic(bufs, i, j - 1);
    }
}

/// The first empty buffer from index `i` on lies between `i` and the end.
pub proof fn lemma_first_empty_bounds(bufs: Seq<Vec<u8>>, i: int)
    requires
        0 <= i <= bufs.len(),
    ensures
        i <= spec_first_empty(bufs, i) <= bufs.len(),
    decreases bufs.len() - i,
{
    if i < bufs.len() && bufs[i]@.len() != 0 {
        lemma_first_empty_bounds(bufs, i + 1);
    }
}

/// The bytes a write reported as `r` wrote: none when it failed.
pub open spec fn spec_ok_len(r: Result<usize, isize>) -> int {
    match r {
        Ok(v) => v as int,
        Err(_) => 0,
    }
}

/// The position a list of buffers being written reaches after its first
/// `j` buffers, from `start`, with `written` what the file system reported
/// for each.
pub open spec fn spec_user_offset(start: int, written: Seq<Result<usize, isize>>, j: int) -> int
    decreases j,
{
    if j <= 0 {
        start
    } else {
        spec_user_offset(start, written, j - 1) + spec_ok_len(written[j - 1])
    }
}

/// The index of the first buffer from index `j` on that the file system
/// reported writing no byte of, or the number of buffers when there is none.
pub open spec fn spec_user_stop(written: Seq<Result<usize, isize>>, j: int) -> int
    decreases written.len() - j,
{
    if j >= written.len() {
        written.len() as int
    } else if written[j] == Ok::<usize, isize>(0) {
        j
    } else {
        spec_user_stop(written, j + 1)
    }
}

/// How many buffers of a list being written go into the page cache: up to
/// and including the first the file system wrote no byte of.
pub open spec fn spec_user_steps(written: Seq<Result<usize, isize>>) -> int {
    let stop = spec_user_stop(written, 0);
    if stop < written.len() {
        stop + 1
    } else {
        written.len() as int
    }
}

/// Byte `i` of the file after the first `j` buffers of `bufs` went into the
/// page cache of `before` from position `start` on, each up to the size the
/// file had, where `disk[p]` gives the disk blocks of page `p`.
pub open spec fn spec_user_content(
    before: SharedInode,
    start: int,
    bufs: Seq<Vec<u8>>,
    written: Seq<Result<usize, isize>>,
    disk: Seq<Vec<Vec<u8>>>,
    bs: int,
    j: int,
    i: int,
) -> u8
    decreases j,
{
    if j <= 0 {
        before.content(disk, bs, i)
    } else {
        let o = spec_user_offset(start, written, j - 1);
        let m = spec_read_len(o, bufs[j - 1]@.len() as int, before.size());
        if o <= i < o + m {
            bufs[j - 1]@[i - o]
        } else {
            spec_user_content(before, start, bufs, written, disk, bs, j - 1, i)
        }
    }
}

/// The first buffer written no byte of, from index `j` on, lies between
/// `j` and the end.
proof fn lemma_user_stop_bounds(written: Seq<Result<usize, isize>>, j: int)
    requires
        0 <= j <= written.len(),
    ensures
        j <= spec_user_stop(written, j) <= written.len(),
    decreases written.len() - j,
{
    if j < written.len() && written[j] != Ok::<usize, isize>(0) {
        lemma_user_stop_bounds(written, j + 1);
    }
}

/// The positions a list of buffers being written reaches only grow.
proof fn lemma_user_offset_steps(start: int, written: Seq<Result<usize, isize>>, j: int, k: int)
    requires
        0 <= j <= k <= written.len(),
    ensures
        spec_user_offset(start, written, j) <= spec_user_offset(start, written, k),
    decreases k - j,
{
    if j < k {
        lemma_user_offset_steps(start, written, j, k - 1);
    }
}

/// The file system wrote every buffer of `bufs` whole, and none is empty.
pub open spec fn spec_all_written(bufs: Seq<Vec<u8>>, written: Seq<Result<usize, isize>>) -> bool {
    &&& written.len() == bufs.len()
    &&& forall|j: int|
        0 <= j < bufs.len() ==> (#[trigger] written[j]) is Ok && written[j]->Ok_0 == bufs[j]@.len()
            && bufs[j]@.len() > 0
}

/// When every buffer is written whole, buffer `j` starts at the total
/// length of the buffers before it.
proof fn lemma_user_offset_prefix(
    start: int,
    bufs: Seq<Vec<u8>>,
    written: Seq<Result<usize, isize>>,
    j: int,
)
    requires
        spec_all_written(bufs, written),
        0 <= j <= bufs.len(),
    ensures
        spec_user_offset(start, written, j) == start + spec_prefix_len(bufs, j),
    decreases j,
{
    if j > 0 {
        lemma_user_offset_prefix(start, bufs, written, j - 1);
        assert(written[j - 1] is Ok && written[j - 1]->Ok_0 == bufs[j - 1]@.len());
    }
}

/// When every buffer is written whole, no write stops the list.
proof fn lemma_user_no_stop(bufs: Seq<Vec<u8>>, written: Seq<Result<usize, isize>>, j: int)
    requires
        spec_all_written(bufs, written),
        0 <= j <= bufs.len(),
    ensures
        spec_user_stop(written, j) == bufs.len(),
    decreases bufs.len() - j,
{
    if j < bufs.len() {
        assert(written[j] is Ok && written[j]->Ok_0 > 0);
        lemma_user_no_stop(bufs, written, j + 1);
    }
}

/// When every buffer is written whole, a buffer written later does not
/// reach back before its own start.
proof fn lemma_user_content_settled(
    before: SharedInode,
    start: int,
    bufs: Seq<Vec<u8>>,
    written: Seq<Result<usize, isize>>,
    disk: Seq<Vec<Vec<u8>>>,
    bs: int,
    j: int,
    big_j: int,
    i: int,
)
    requires
        spec_all_written(bufs, written),
        0 <= j < big_j <= bufs.len(),
        i < start + spec_prefix_len(bufs, j + 1),
    ensures
        spec_user_content(before, start, bufs, written, disk, bs, big_j, i) == spec_user_content(
            before,
            start,
            bufs,
            written,
            disk,
            bs,
            j + 1,
            i,
        ),
    decreases big_j - j,
{
    if big_j > j + 1 {
        lemma_user_content_settled(before, start, bufs, written, disk, bs, j, big_j - 1, i);
        lemma_user_offset_prefix(start, bufs, written, big_j - 1);
        lemma_prefix_monotonic(bufs, j + 1, big_j - 1);
    }
}

/// A list of buffers that the file system wrote whole, none of them empty,
/// lies in the file one after another from the start of the write, as far
/// as the file reached when the write began; the number of bytes written is
/// their total length.
pub proof fn lemma_user_write_stores(
    before: SharedInode,
    start: int,
    bufs: Seq<Vec<u8>>,
    written: Seq<Result<usize, isize>>,
    disk: Seq<Vec<Vec<u8>>>,
    bs: int,
    j: int,
    k: int,
)
    requires
        spec_all_written(bufs, written),
        0 <= j < bufs.len(),
        0 <= k < bufs[j]@.len(),
        start + spec_prefix_len(bufs, j) + k < before.size(),
    ensures
        spec_user_steps(written) == bufs.len(),
        spec_user_offset(start, written, bufs.len() as int) - start == spec_prefix_len(
            bufs,
            bufs.len() as int,
        ),
        spec_user_content(
            before,
            start,
            bufs,
            written,
            disk,
            bs,
            bufs.len() as int,
            start + spec_prefix_len(bufs, j) + k,
        ) == bufs[j]@[k],
{
    lemma_user_no_stop(bufs, written, 0);
    lemma_user_offset_prefix(start, bufs, written, bufs.len() as int);
    lemma_user_offset_prefix(start, bufs, written, j);
    let i = start + spec_prefix_len(bufs, j) + k;
    if j + 1 < bufs.len() {
        lemma_user_content_settled(before, start, bufs, written, disk, bs, j, bufs.len() as int, i);
    }
}

/// How many bytes a read of `len` bytes from position `start` gets from a
/// file of `size` bytes: up to the end of the file, none past it.
pub open spec fn spec_read_len(start: int, len: int, size: int) -> int {
    if start + len <= size {
        len
    } else if start < size {
        size - start
    } else {
        0
    }
}

/// Loading pages from the disk changes no byte of the file: each byte is
/// the one the disk or the page cache gave before.
pub proof fn lemma_loading_keeps_content(
    before: &SharedInode,
    after: &SharedInode,
    lo: int,
    hi: int,
    disk: Seq<Vec<Vec<u8>>>,
    bs: int,
    i: int,
)
    requires
        0 <= lo,
        before.disk_fits(lo, hi, disk, bs),
        after.spec_loaded(before, lo, hi, disk, bs),
    ensures
        after.content(disk, bs, i) == before.content(disk, bs, i),
{
    if 0 <= i {
        let p = i / (CACHE_SZ as int);
        assert(after.file_cache_manager.cached(p) == (before.file_cache_manager.cached(p) || (lo < hi
            && lo / (CACHE_SZ as int) <= p && p * CACHE_SZ < hi)));
        assert(after.byte(i) == before.loaded_byte(lo, hi, disk, bs, i));
    }
}

/// What storing `data` at position `start` leaves: the data at its place,
/// and every other byte of the file as it was.
pub proof fn lemma_stored_content(
    before: &SharedInode,
    after: &SharedInode,
    start: int,
    data: Seq<u8>,
    disk: Seq<Vec<Vec<u8>>>,
    bs: int,
    i: int,
)
    requires
        0 <= start,
        before.disk_fits(start, start + data.len(), disk, bs),
        after.spec_stored(before, start, data, disk, bs),
    ensures
        after.content(disk, bs, i) == if start <= i < start + data.len() {
            data[i - start]
        } else {
            before.content(disk, bs, i)
        },
{
    if 0 <= i {
        let hi = start + data.len();
        let p = i / (CACHE_SZ as int);
        assert(after.file_cache_manager.cached(p) == (before.file_cache_manager.cached(p) || (start
            < hi && start / (CACHE_SZ as int) <= p && p * CACHE_SZ < hi)));
        assert(after.byte(i) == if start <= i < hi {
            data[i - start]
        } else {
            before.loaded_byte(start, hi, disk, bs, i)
        });
        if start <= i < hi {
            super::cache::lemma_byte_position(i);
            vstd::arithmetic::div_mod::lemma_div_is_ordered(start, i, CACHE_SZ as int);
            assert(p * CACHE_SZ <= i);
        }
    }
}

/// Reading back, at the position of a write, as many bytes as were written
/// gets exactly the bytes written, whatever the disk holds: the pages
/// written stay in the page cache.
pub proof fn lemma_read_after_write(
    before: &SharedInode,
    after: &SharedInode,
    start: int,
    data: Seq<u8>,
    disk: Seq<Vec<Vec<u8>>>,
    bs: int,
    later_disk: Seq<Vec<Vec<u8>>>,
)
    requires
        0 <= start,
        before.disk_fits(start, start + data.len(), disk, bs),
        after.spec_written(before, start, data, disk, bs),
    ensures
        spec_read_len(start, data.len() as int, after.size()) == data.len(),
        after.read_bytes(start, data.len() as int, later_disk, bs) == data,
{
    let r = after.read_bytes(start, data.len() as int, later_disk, bs);
    assert forall|k: int| 0 <= k < data.len() implies #[trigger] r[k] == data[k] by {
        let i = start + k;
        super::cache::lemma_byte_position(i);
        vstd::arithmetic::div_mod::lemma_div_is_ordered(start, i, CACHE_SZ as int);
        let p = i / (CACHE_SZ as int);
        assert(p * CACHE_SZ <= i);
        assert(after.file_cache_manager.cached(p));
        assert(after.byte(i) == data[i - start]);
    }
    assert(r =~= data);
}

/// A write through one file object is seen through every other file object
/// on the same inode, such as its clones and the objects opened from it:
/// they read the bytes written.
pub proof fn lemma_write_seen_by_shared(
    writer: &Ext4OSInode,
    reader: &Ext4OSInode,
    before: &OpenInodes,
    after: &OpenInodes,
    start: int,
    data: Seq<u8>,
    disk: Seq<Vec<Vec<u8>>>,
    later_disk: Seq<Vec<Vec<u8>>>,
)
    requires
        0 <= start,
        writer.valid(before),
        reader.shared == writer.shared,
        writer.slot(before).disk_fits(start, start + data.len(), disk, writer.ext4fs.block_size as int),
        writer.slot(after).spec_written(
            &writer.slot(before),
            start,
            data,
            disk,
            writer.ext4fs.block_size as int,
        ),
    ensures
        spec_read_len(start, data.len() as int, reader.slot(after).size()) == data.len(),
        reader.slot(after).read_bytes(
            start,
            data.len() as int,
            later_disk,
            writer.ext4fs.block_size as int,
        ) == data,
{
    lemma_read_after_write(
        &writer.slot(before),
        &writer.slot(after),
        start,
        data,
        disk,
        writer.ext4fs.block_size as int,
        later_disk,
    );
}

/// A write changes no byte of the file outside the bytes it writes.
pub proof fn lemma_write_keeps_other_bytes(
    before: &SharedInode,
    after: &SharedInode,
    start: int,
    data: Seq<u8>,
    disk: Seq<Vec<Vec<u8>>>,
    bs: int,
    i: int,
)
    requires
        0 <= start,
        before.disk_fits(start, start + data.len(), disk, bs),
        after.spec_written(before, start, data, disk, bs),
        !(start <= i < start + data.len()),
    ensures
        after.content(disk, bs, i) == before.content(disk, bs, i),
{
    lemma_stored_content(before, after, start, data, disk, bs, i);
}

/// A write that starts past the end of a file that reads zero from its end
/// on leaves the gap between the old end and the write reading zero, and
/// the file still reads zero from its new end on.
pub proof fn lemma_write_gap(
    before: &SharedInode,
    after: &SharedInode,
    start: int,
    data: Seq<u8>,
    disk: Seq<Vec<Vec<u8>>>,
    bs: int,
)
    requires
        0 <= start,
        before.disk_fits(start, start + data.len(), disk, bs),
        after.spec_written(before, start, data, disk, bs),
        before.clean_tail(disk, bs),
    ensures
        forall|i: int| before.size() <= i < start ==> #[trigger] after.content(disk, bs, i) == 0,
        after.clean_tail(disk, bs),
{
    assert forall|i: int| before.size() <= i < start implies #[trigger] after.content(disk, bs, i)
        == 0 by {
        lemma_stored_content(before, after, start, data, disk, bs, i);
    }
    assert forall|i: int| after.size() <= i implies #[trigger] after.content(disk, bs, i) == 0 by {
        lemma_stored_content(before, after, start, data, disk, bs, i);
    }
}

/// Two reads in a row, the second starting where the first ended, get
/// between them what one read of their combined length gets: as many
/// bytes, the same bytes in the same order, and the second gets any only
/// when the first got all it asked for. `middle` is the state the first
/// read leaves, with the pages it read loaded.
pub proof fn lemma_read_split(
    s: &SharedInode,
    middle: &SharedInode,
    start: int,
    len1: int,
    len2: int,
    disk: Seq<Vec<Vec<u8>>>,
    bs: int,
)
    requires
        0 <= start,
        0 <= len1,
        0 <= len2,
        s.disk_fits(start, start + spec_read_len(start, len1, s.size()), disk, bs),
        middle.spec_loaded(s, start, start + spec_read_len(start, len1, s.size()), disk, bs),
    ensures
        spec_read_len(start, len1, s.size()) + spec_read_len(
            start + spec_read_len(start, len1, s.size()),
            len2,
            middle.size(),
        ) == spec_read_len(start, len1 + len2, s.size()),
        spec_read_len(start, len1, s.size()) < len1 ==> spec_read_len(
            start + spec_read_len(start, len1, s.size()),
            len2,
            middle.size(),
        ) == 0,
        s.read_bytes(start, len1, disk, bs) + middle.read_bytes(
            start + spec_read_len(start, len1, s.size()),
            len2,
            disk,
            bs,
        ) == s.read_bytes(start, len1 + len2, disk, bs),
{
    let r1 = spec_read_len(start, len1, s.size());
    let a = s.read_bytes(start, len1, disk, bs);
    let b = middle.read_bytes(start + r1, len2, disk, bs);
    let c = s.read_bytes(start, len1 + len2, disk, bs);
    assert(a + b =~= c) by {
        assert forall|k: int| 0 <= k < c.len() implies #[trigger] (a + b)[k] == c[k] by {
            if k >= a.len() {
                assert((a + b)[k] == b[k - r1]);
                assert(b[k - r1] == middle.content(disk, bs, start + r1 + (k - r1)));
                lemma_loading_keeps_content(s, middle, start, start + r1, disk, bs, start + k);
            }
        }
    }
}

/// A listing right after another of the same directory lists nothing,
/// whatever either asks for: the offset the first listing leaves is the one
/// the second sets. A directory with no entries leaves the offset as it
/// was and so lists nothing, every time.
pub proof fn lemma_dirent_listing_settles(offset: usize, entries: Seq<Ext4DirEntry>)
    ensures
        spec_dirent_offset(spec_dirent_offset(offset, entries), entries) == spec_dirent_offset(
            offset,
            entries,
        ),
        entries.len() == 0 ==> spec_dirent_offset(offset, entries) == offset,
{
}

/// Seeking to a non-negative position from the start goes there; seeking
/// by zero from the current offset stays there; seeking by zero from the end
/// goes to the size of the file.
pub proof fn lemma_seek_targets(f: &Ext4OSInode, size: u64, pos: isize)
    requires
        pos >= 0,
        f.offset <= isize::MAX,
        size <= isize::MAX,
    ensures
        f.spec_seek_target(size, pos, SeekWhence { bits: SEEK_SET }) == Some(pos as int),
        f.spec_seek_target(size, 0, SeekWhence { bits: SEEK_CUR }) == Some(f.offset as int),
        f.spec_seek_target(size, 0, SeekWhence { bits: SEEK_END }) == Some(size as int),
{
}

/// A listing of at most `count` entries gives `count` of them when the
/// directory has more, and all of them otherwise.
pub proof fn lemma_listed_count(entries: Seq<Ext4DirEntry>, count: usize)
    ensures
        count <= entries.len() ==> spec_listed(entries, count) == count,
        entries.len() <= count ==> spec_listed(entries, count) == entries.len(),
{
}

/// Seeking, for every offset, negative ones included: from the start it
/// goes to the offset, from the current offset to their sum, from the end
/// to the size plus the offset; it fails exactly when that target is
/// negative, or when the origin is none of the three.
pub proof fn lemma_seek_any_offset(f: &Ext4OSInode, size: u64, offset: isize, whence: SeekWhence)
    requires
        f.offset <= isize::MAX,
        size <= isize::MAX,
    ensures
        whence.bits == SEEK_SET ==> f.spec_seek_target(size, offset, whence) == if offset >= 0 {
            Some(offset as int)
        } else {
            None
        },
        whence.bits == SEEK_CUR ==> f.spec_seek_target(size, offset, whence) == if f.offset
            + offset >= 0 {
            Some(f.offset + offset)
        } else {
            None
        },
        whence.bits == SEEK_END ==> f.spec_seek_target(size, offset, whence) == if size + offset
            >= 0 {
            Some(size + offset)
        } else {
            None
        },
        whence.bits != SEEK_SET && whence.bits != SEEK_CUR && whence.bits != SEEK_END
            ==> f.spec_seek_target(size, offset, whence) is None,
{
}

/// Every file object that `open` makes is readable: `O_RDONLY` has no bits,
/// so every set of flags contains it.
pub proof fn lemma_open_readable(flags: OpenFlags)
    ensures
        (flags.bits & O_RDONLY) == O_RDONLY,
{
    let b = flags.bits;
    assert(b & 0u32 == 0u32) by (bit_vector);
}

/// Once every page that `pages_to_load` lists for a range is loaded, the
/// range is cached: a page holding a byte of the range is either cached
/// already or listed.
pub proof fn lemma_loaded_range_cached(cache: &PageCacheManager, start: int, len: int)
    requires
        0 <= start,
        0 <= len,
        forall|p: int|
            start / (CACHE_SZ as int) <= p && p * CACHE_SZ < start + len ==> #[trigger] cache.cached(p),
    ensures
        cache.covers(start, start + len),
{
    assert forall|i: int| start <= i < start + len implies #[trigger] cache.cached_at(i) by {
        let p = i / (CACHE_SZ as int);
        vstd::arithmetic::div_mod::lemma_fundamental_div_mod(i, CACHE_SZ as int);
        vstd::arithmetic::div_mod::lemma_div_is_ordered(start, i, CACHE_SZ as int);
        assert(p * CACHE_SZ <= i);
        assert(cache.cached(p));
    }
}

/// For a block size that divides the page size, the pages that
/// `get_all_caches` lists, loaded through `get_neighboring_blk`, reach every
/// block of the file: each listed page holds at least one block of it, and
/// the blocks of the last page end with the file's last block.
pub proof fn lemma_pages_cover_blocks(size: int, block_size: int)
    requires
        0 <= size,
        0 < block_size <= CACHE_SZ,
        CACHE_SZ as int % block_size == 0,
    ensures
        ({
            let pages = (size + CACHE_SZ - 1) / (CACHE_SZ as int);
            let per_page = CACHE_SZ as int / block_size;
            let blocks = spec_block_count(size, block_size);
            &&& forall|p: int|
                0 <= p < pages ==> #[trigger] spec_neighbor_count(p, block_size, size) > 0
            &&& pages > 0 ==> (pages - 1) * per_page + spec_neighbor_count(
                pages - 1,
                block_size,
                size,
            ) == blocks
        }),
{
    let pages = (size + CACHE_SZ - 1) / (CACHE_SZ as int);
    let per_page = CACHE_SZ as int / block_size;
    let blocks = spec_block_count(size, block_size);
    vstd::arithmetic::div_mod::lemma_fundamental_div_mod(CACHE_SZ as int, block_size);
    vstd::arithmetic::div_mod::lemma_fundamental_div_mod(size + CACHE_SZ - 1, CACHE_SZ as int);
    vstd::arithmetic::div_mod::lemma_fundamental_div_mod(size + block_size - 1, block_size);
    let r1 = (size + CACHE_SZ - 1) % (CACHE_SZ as int);
    let r2 = (size + block_size - 1) % block_size;
    assert(per_page * block_size == CACHE_SZ);
    assert(per_page >= 1) by (nonlinear_arith)
        requires
            per_page * block_size == CACHE_SZ,
            0 < block_size <= CACHE_SZ,
    ;
    assert(pages * CACHE_SZ == size + CACHE_SZ - 1 - r1);
    assert(blocks * block_size == size + block_size - 1 - r2);
    assert forall|p: int| 0 <= p < pages implies #[trigger] spec_neighbor_count(p, block_size, size)
        > 0 by {
        assert(p * per_page * block_size == p * CACHE_SZ) by (nonlinear_arith)
            requires
                per_page * block_size == CACHE_SZ,
        ;
        assert(p * CACHE_SZ <= (pages - 1) * CACHE_SZ) by (nonlinear_arith)
            requires
                p <= pages - 1,
        ;
        assert(p * per_page < blocks) by (nonlinear_arith)
            requires
                p * per_page * block_size < blocks * block_size,
                block_size > 0,
        ;
    }
    if pages > 0 {
        assert((pages - 1) * per_page * block_size == (pages - 1) * CACHE_SZ) by (nonlinear_arith)
            requires
                per_page * block_size == CACHE_SZ,
        ;
        assert((pages - 1) * per_page < blocks) by (nonlinear_arith)
            requires
                (pages - 1) * per_page * block_size < blocks * block_size,
                block_size > 0,
        ;
        assert(pages * per_page * block_size == pages * CACHE_SZ) by (nonlinear_arith)
            requires
                per_page * block_size == CACHE_SZ,
        ;
        assert(blocks <= pages * per_page) by (nonlinear_arith)
            requires
                blocks * block_size <= pages * per_page * block_size + block_size - 1,
                block_size > 0,
                0 <= r2,
        ;
        assert(pages * per_page == (pages - 1) * per_page + per_page) by (nonlinear_arith);
        assert(spec_neighbor_count(pages - 1, block_size, size) == blocks - (pages - 1) * per_page);
    }
}

} // verus!
