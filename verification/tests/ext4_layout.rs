use npucore::fs::ext4::cache::PageCacheManager;
use npucore::fs::ext4::layout::{
    dir_entry_type, Ext4DirEntry, Ext4FileSystem, Ext4Inode, Ext4InodeRef, Ext4OSInode, ExtType,
    OpenInodes, UnlinkAction, DT_DIR, DT_REG, DT_UNKNOWN, INODE_S_IFDIR, INODE_S_IFREG,
};
use npucore::fs::{
    DiskInodeType, OpenFlags, SeekWhence, EINVAL, ENOTDIR, ENOTEMPTY, O_APPEND, O_RDONLY, O_RDWR,
    O_WRONLY, SEEK_CUR, SEEK_END, SEEK_SET,
};

fn inode(num: u32, size: u64, file_type: DiskInodeType, blocks: Vec<u32>) -> Ext4InodeRef {
    Ext4InodeRef {
        inode_num: num,
        inode: Ext4Inode { size, file_type, atime: 1, mtime: 2, ctime: 3, blocks },
    }
}

const FS: Ext4FileSystem = Ext4FileSystem { block_size: 1024 };

fn regular(inodes: &mut OpenInodes, size: u64) -> Ext4OSInode {
    Ext4OSInode::new(inodes, inode(12, size, DiskInodeType::File, (100..120).collect()), FS)
}

fn directory(inodes: &mut OpenInodes) -> Ext4OSInode {
    Ext4OSInode::new(inodes, inode(2, 4096, DiskInodeType::Directory, vec![7]), FS)
}

fn entry(ino: u32, len: u16, de_type: u8, name: &str) -> Ext4DirEntry {
    Ext4DirEntry { inode: ino, entry_len: len, de_type, name: name.to_string() }
}

/// The disk blocks of the first pages of a fresh file: four zeroed blocks
/// of 1024 bytes for each page.
fn zeros(pages: usize) -> Vec<Vec<Vec<u8>>> {
    vec![vec![vec![0u8; 1024]; 4]; pages]
}

fn read_at(f: &mut Ext4OSInode, inodes: &mut OpenInodes, pos: usize, len: usize) -> Vec<u8> {
    let mut buf = vec![0u8; len];
    let mut off = Some(pos);
    let n = f.read(inodes, &mut off, &mut buf, &zeros(3));
    buf.truncate(n);
    buf
}

#[test]
fn new_file_object() {
    let mut inodes = OpenInodes::new();
    let f = regular(&mut inodes, 0);
    assert!(f.readable() && f.writable());
    assert!(f.special_use && !f.append);
    assert_eq!(f.offset, 0);
    assert_eq!(f.shared, 0);
    assert!(f.r_ready() && f.w_ready());
    assert_eq!(f.get_size(&inodes), 0);
    assert_eq!(f.get_file_type(&inodes), DiskInodeType::File);
    let _ = ExtType::Ext4;
}

#[test]
fn pages_to_load_lists_uncached_pages() {
    let mut inodes = OpenInodes::new();
    let f = regular(&mut inodes, 10000);
    assert_eq!(f.pages_to_load(&inodes, 100, 9000), vec![0, 1, 2]);
    assert_eq!(f.pages_to_load(&inodes, 4096, 1), vec![1]);
    assert!(f.pages_to_load(&inodes, 4096, 0).is_empty());
    f.fill_cache(&mut inodes, 1, &vec![vec![5u8; 1024]; 4]);
    assert_eq!(f.pages_to_load(&inodes, 100, 9000), vec![0, 2]);
}

#[test]
fn filled_page_holds_the_blocks() {
    let mut inodes = OpenInodes::new();
    let mut f = regular(&mut inodes, 8192);
    // Two blocks of 1024 bytes fill the first half of page 1; the rest is zero.
    f.fill_cache(&mut inodes, 1, &vec![vec![1u8; 1024], vec![2u8; 1024]]);
    assert_eq!(read_at(&mut f, &mut inodes, 4096 + 1022, 4), vec![1, 1, 2, 2]);
    assert_eq!(read_at(&mut f, &mut inodes, 4096 + 2046, 4), vec![2, 2, 0, 0]);
    // A cached page is not loaded again.
    f.fill_cache(&mut inodes, 1, &vec![vec![9u8; 1024]; 4]);
    assert_eq!(read_at(&mut f, &mut inodes, 4096, 1), vec![1]);
}

#[test]
fn write_then_read_back() {
    let mut inodes = OpenInodes::new();
    let mut f = regular(&mut inodes, 0);
    let mut own: Option<usize> = None;
    assert_eq!(f.write(&mut inodes, &mut own, &b"hello".to_vec(), &zeros(3)), 5);
    assert_eq!(f.get_size(&inodes), 5);
    assert_eq!(f.offset, 5);
    let mut buf = vec![0u8; 10];
    let mut off = Some(0);
    assert_eq!(f.read(&mut inodes, &mut off, &mut buf, &zeros(3)), 5);
    assert_eq!(&buf[..5], b"hello");
    assert_eq!(&buf[5..], &[0u8; 5]);
    // A read at a given offset sets that offset to the number of bytes read.
    assert_eq!(off, Some(5));
    assert_eq!(f.offset, 5);
}

#[test]
fn write_keeps_inode_fields() {
    let mut inodes = OpenInodes::new();
    let mut f = regular(&mut inodes, 0);
    f.write(&mut inodes, &mut Some(0), &b"abc".to_vec(), &zeros(3));
    let i = &inodes.slots[f.shared].inode;
    assert_eq!((i.inode_num, i.inode.atime, i.inode.mtime, i.inode.ctime), (12, 1, 2, 3));
    assert_eq!(i.inode.blocks, (100..120).collect::<Vec<u32>>());
}

#[test]
fn write_across_a_page_boundary() {
    let mut inodes = OpenInodes::new();
    let mut f = regular(&mut inodes, 0);
    let data: Vec<u8> = (1..=12).collect();
    let mut off = Some(4090);
    assert_eq!(f.write(&mut inodes, &mut off, &data, &zeros(3)), 12);
    assert_eq!(off, Some(4102));
    assert_eq!(f.get_size(&inodes), 4102);
    assert_eq!(read_at(&mut f, &mut inodes, 4090, 12), data);
    assert_eq!(read_at(&mut f, &mut inodes, 0, 4), vec![0u8; 4]);
    let mut off = Some(4095);
    f.write(&mut inodes, &mut off, &vec![0xaa, 0xbb], &zeros(3));
    assert_eq!(read_at(&mut f, &mut inodes, 4094, 4), vec![5, 0xaa, 0xbb, 8]);
    assert_eq!(f.get_size(&inodes), 4102);
}

#[test]
fn clones_and_opened_objects_share_the_inode() {
    let mut inodes = OpenInodes::new();
    let mut f = regular(&mut inodes, 0);
    f.write(&mut inodes, &mut None, &b"abc".to_vec(), &zeros(3));
    let mut g = f.deep_clone();
    assert_eq!(g.offset, 3);
    assert_eq!(g.shared, f.shared);
    // A write through the clone is read back through the first object.
    g.write(&mut inodes, &mut None, &b"de".to_vec(), &zeros(3));
    assert_eq!(read_at(&mut f, &mut inodes, 0, 8), b"abcde".to_vec());
    assert_eq!(f.get_size(&inodes), 5);
    // And so is a write through an object opened from it.
    let mut h = f.open(OpenFlags { bits: O_RDWR }, false);
    assert_eq!(h.offset, 0);
    h.write(&mut inodes, &mut None, &b"X".to_vec(), &zeros(3));
    assert_eq!(read_at(&mut f, &mut inodes, 0, 2), b"Xb".to_vec());
    // The offsets stay each object's own.
    assert_eq!((f.offset, g.offset, h.offset), (3, 5, 1));
}

#[test]
fn read_with_own_offset_advances_it() {
    let mut inodes = OpenInodes::new();
    let mut f = regular(&mut inodes, 0);
    f.write(&mut inodes, &mut Some(0), &b"abcdef".to_vec(), &zeros(3));
    let mut own: Option<usize> = None;
    let mut buf = vec![0u8; 4];
    assert_eq!(f.read(&mut inodes, &mut own, &mut buf, &zeros(3)), 4);
    assert_eq!(buf, b"abcd".to_vec());
    assert_eq!(f.offset, 4);
    assert_eq!(f.read(&mut inodes, &mut own, &mut buf, &zeros(3)), 2);
    assert_eq!(&buf[..2], b"ef");
    assert_eq!(f.offset, 6);
    assert_eq!(f.read(&mut inodes, &mut own, &mut buf, &zeros(3)), 0);
    assert_eq!(own, None);
}

#[test]
fn reads_in_pieces_give_one_read() {
    let mut inodes = OpenInodes::new();
    let mut f = regular(&mut inodes, 0);
    f.write(&mut inodes, &mut Some(0), &b"0123456".to_vec(), &zeros(3));
    let mut g = f.deep_clone();
    f.offset = 1;
    g.offset = 1;
    let mut b1 = vec![0u8; 4];
    let mut b2 = vec![0u8; 5];
    let r1 = f.read(&mut inodes, &mut None, &mut b1, &zeros(3));
    let r2 = f.read(&mut inodes, &mut None, &mut b2, &zeros(3));
    let mut b = vec![0u8; 9];
    let r = g.read(&mut inodes, &mut None, &mut b, &zeros(3));
    assert_eq!(r1 + r2, r);
    let mut pieces = b1[..r1].to_vec();
    pieces.extend_from_slice(&b2[..r2]);
    assert_eq!(pieces, b[..r].to_vec());
}

#[test]
fn read_past_end_gets_nothing() {
    let mut inodes = OpenInodes::new();
    let mut f = regular(&mut inodes, 0);
    f.write(&mut inodes, &mut Some(0), &b"xy".to_vec(), &zeros(3));
    let mut buf = vec![9u8; 3];
    let mut off = Some(7);
    assert_eq!(f.read(&mut inodes, &mut off, &mut buf, &zeros(3)), 0);
    assert_eq!(off, Some(7));
    assert_eq!(buf, vec![9u8; 3]);
}

#[test]
fn read_at_block_cache_copies_up_to_the_end() {
    let mut inodes = OpenInodes::new();
    let mut f = regular(&mut inodes, 0);
    f.write(&mut inodes, &mut Some(0), &b"0123456789".to_vec(), &zeros(3));
    let snapshot = inodes.slots[f.shared].inode.duplicate();
    let mut buf = vec![0u8; 6];
    assert_eq!(f.read_at_block_cache(&mut inodes, 7, &mut buf, &snapshot, &zeros(3)), 3);
    assert_eq!(buf, b"789\0\0\0".to_vec());
}

#[test]
fn user_read_fills_buffers_in_turn() {
    let mut inodes = OpenInodes::new();
    let mut f = regular(&mut inodes, 0);
    f.write(&mut inodes, &mut Some(0), &b"abcde".to_vec(), &zeros(3));
    let mut bufs = vec![vec![0u8; 3], vec![0u8; 4]];
    assert_eq!(f.read_user(&mut inodes, None, &mut bufs, &zeros(3)), 5);
    assert_eq!(bufs[0], b"abc".to_vec());
    assert_eq!(bufs[1], b"de\0\0".to_vec());
    assert_eq!(f.offset, 5);
}

#[test]
fn user_read_stops_at_an_empty_buffer() {
    let mut inodes = OpenInodes::new();
    let mut f = regular(&mut inodes, 0);
    f.write(&mut inodes, &mut Some(0), &b"abcde".to_vec(), &zeros(3));
    let mut bufs = vec![vec![0u8; 2], vec![], vec![0u8; 2]];
    assert_eq!(f.read_user(&mut inodes, Some(1), &mut bufs, &zeros(3)), 2);
    assert_eq!(bufs[0], b"bc".to_vec());
    assert_eq!(bufs[2], vec![0u8; 2]);
    assert_eq!(f.offset, 0);
}

#[test]
fn user_write_steps() {
    let mut inodes = OpenInodes::new();
    let mut f = regular(&mut inodes, 0);
    f.write(&mut inodes, &mut Some(0), &vec![0u8; 8], &zeros(3));
    let mut w = f.write_user_begin(&inodes, None);
    assert_eq!(w.offset, 0);
    assert!(f.write_user_step(&mut inodes, &mut w, &b"abc".to_vec(), Ok(3), &zeros(3)));
    assert_eq!((w.offset, w.total), (3, 3));
    assert_eq!(f.offset, 3);
    assert!(f.write_user_step(&mut inodes, &mut w, &b"xy".to_vec(), Err(-5), &zeros(3)));
    assert_eq!((w.offset, w.total), (3, 3));
    assert!(f.write_user_step(&mut inodes, &mut w, &b"de".to_vec(), Ok(2), &zeros(3)));
    assert_eq!((w.offset, w.total), (5, 5));
    assert!(!f.write_user_step(&mut inodes, &mut w, &b"z".to_vec(), Ok(0), &zeros(3)));
    assert_eq!((w.offset, w.total), (5, 5));
    assert_eq!(read_at(&mut f, &mut inodes, 0, 8), b"abcdez\0\0".to_vec());
}

#[test]
fn user_write_with_given_offset_keeps_own_offset() {
    let mut inodes = OpenInodes::new();
    let mut f = regular(&mut inodes, 0);
    f.write(&mut inodes, &mut Some(0), &vec![0u8; 4], &zeros(3));
    f.offset = 1;
    let mut w = f.write_user_begin(&inodes, Some(2));
    assert!(f.write_user_step(&mut inodes, &mut w, &b"qq".to_vec(), Ok(2), &zeros(3)));
    assert_eq!(f.offset, 1);
    assert_eq!(w.offset, 4);
    assert_eq!(read_at(&mut f, &mut inodes, 0, 4), b"\0\0qq".to_vec());
}

#[test]
fn seek_origins() {
    let mut inodes = OpenInodes::new();
    let mut f = regular(&mut inodes, 10);
    assert_eq!(f.lseek(&inodes, 3, SeekWhence { bits: SEEK_SET }), Ok(3));
    assert_eq!(f.offset, 3);
    assert_eq!(f.lseek(&inodes, -1, SeekWhence { bits: SEEK_CUR }), Ok(2));
    assert_eq!(f.lseek(&inodes, 0, SeekWhence { bits: SEEK_CUR }), Ok(2));
    assert_eq!(f.lseek(&inodes, 5, SeekWhence { bits: SEEK_END }), Ok(15));
    assert_eq!(f.lseek(&inodes, 0, SeekWhence { bits: SEEK_END }), Ok(10));
    assert_eq!(f.lseek(&inodes, -11, SeekWhence { bits: SEEK_END }), Err(EINVAL));
    assert_eq!(f.lseek(&inodes, -1, SeekWhence { bits: SEEK_SET }), Err(EINVAL));
    assert_eq!(f.lseek(&inodes, 1, SeekWhence { bits: 3 }), Err(EINVAL));
    assert_eq!(f.offset, 10);
}

#[test]
fn stat_of_file_and_directory() {
    let mut inodes = OpenInodes::new();
    let f = regular(&mut inodes, 77);
    let s = f.get_stat(&inodes);
    assert_eq!(s.st_dev, 8 << 8);
    assert_eq!(s.st_ino, 12);
    assert_eq!(s.st_mode, 0o100777);
    assert_eq!(s.st_nlink, 1);
    assert_eq!(s.st_rdev, 0);
    assert_eq!(s.st_size, 77);
    assert_eq!((s.st_atime_sec, s.st_mtime_sec, s.st_ctime_sec), (1, 2, 3));
    let d = directory(&mut inodes);
    assert_eq!(d.get_stat(&inodes).st_mode, 0o040777);
}

#[test]
fn open_flags() {
    let mut inodes = OpenInodes::new();
    let f = regular(&mut inodes, 0);
    let r = f.open(OpenFlags { bits: O_RDONLY }, false);
    assert!(r.readable && !r.writable && !r.append && !r.special_use);
    let w = f.open(OpenFlags { bits: O_WRONLY }, true);
    // O_RDONLY has no bits, so every opened file is readable.
    assert!(w.readable && w.writable && w.special_use);
    let rw = f.open(OpenFlags { bits: O_RDWR | O_APPEND }, false);
    assert!(rw.readable && rw.writable && rw.append);
    assert_eq!(rw.offset, 0);
    assert_eq!(rw.shared, f.shared);
}

#[test]
fn directory_listing() {
    let mut inodes = OpenInodes::new();
    let mut d = directory(&mut inodes);
    let entries = vec![entry(2, 12, 2, "."), entry(30, 16, 1, "a.txt"), entry(31, 24, 7, "link")];
    let list = d.get_dirent(&inodes, 64, &entries);
    assert_eq!(d.offset, 24);
    assert_eq!(list.len(), 3);
    assert_eq!((list[0].d_ino, list[0].d_off, list[0].d_type), (2, 12, DT_DIR));
    assert_eq!((list[1].d_ino, list[1].d_type, list[1].d_name.as_str()), (30, DT_REG, "a.txt"));
    assert_eq!(list[2].d_type, DT_UNKNOWN);
    // A second listing of the same entries lists nothing.
    assert!(d.get_dirent(&inodes, 64, &entries).is_empty());
    assert_eq!(d.offset, 24);
}

#[test]
fn listing_is_limited_by_count() {
    let mut inodes = OpenInodes::new();
    let mut d = directory(&mut inodes);
    let entries = vec![entry(2, 12, 2, "."), entry(30, 16, 1, "a"), entry(31, 24, 1, "b")];
    let list = d.get_dirent(&inodes, 2, &entries);
    assert_eq!(list.len(), 2);
    assert_eq!(list[1].d_name, "a");
    assert_eq!(d.offset, 24);
    // Whatever the second listing asks for, it lists nothing.
    assert!(d.get_dirent(&inodes, 3, &entries).is_empty());
    assert_eq!(d.offset, 24);
    let mut e = directory(&mut inodes);
    assert!(e.get_dirent(&inodes, 0, &entries).is_empty());
    assert_eq!(e.offset, 24);
}

#[test]
fn listing_with_no_entries() {
    let mut inodes = OpenInodes::new();
    let mut d = directory(&mut inodes);
    assert!(d.get_dirent(&inodes, 8, &Vec::new()).is_empty());
    assert_eq!(d.offset, 0);
}

#[test]
fn entry_types() {
    assert_eq!(dir_entry_type(2), Some(DT_DIR));
    assert_eq!(dir_entry_type(1), Some(DT_REG));
    assert_eq!(dir_entry_type(0), Some(DT_UNKNOWN));
    assert_eq!(dir_entry_type(7), Some(DT_UNKNOWN));
    assert_eq!(dir_entry_type(8), None);
}

#[test]
fn subfiles() {
    let mut inodes = OpenInodes::new();
    let d = directory(&mut inodes);
    let entries = vec![entry(30, 16, 1, "a"), entry(31, 16, 2, "b")];
    let children = vec![
        inode(30, 5, DiskInodeType::File, vec![]),
        inode(31, 4096, DiskInodeType::Directory, vec![9]),
    ];
    let subs = d.open_subfile(&mut inodes, &entries, &children).unwrap();
    assert_eq!(subs.len(), 2);
    assert_eq!(subs[0].0, "a");
    assert_eq!(subs[1].1.shared, 2);
    assert_eq!(inodes.slots[subs[1].1.shared].inode.inode_num, 31);
    assert!(subs[1].1.readable && subs[1].1.writable && !subs[1].1.special_use);
    assert_eq!(subs[1].1.get_file_type(&inodes), DiskInodeType::Directory);
    let f = regular(&mut inodes, 0);
    assert!(matches!(f.open_subfile(&mut inodes, &entries, &children), Err(ENOTDIR)));
}

#[test]
fn create_requests() {
    let mut inodes = OpenInodes::new();
    let d = directory(&mut inodes);
    let dir = d.create(&inodes, "sub", DiskInodeType::Directory);
    assert!(dir.directory);
    assert_eq!(dir.mode, INODE_S_IFDIR);
    assert_eq!(dir.parent_inode_num, 2);
    assert_eq!(dir.name, "sub");
    let file = d.create(&inodes, "f.txt", DiskInodeType::File);
    assert!(!file.directory);
    assert_eq!(file.mode, INODE_S_IFREG | 0o600);
    assert_eq!(file.mode, 0x8180);
    let child = d.child(&mut inodes, inode(40, 0, DiskInodeType::File, vec![]));
    assert!(child.readable && child.writable && !child.special_use && !child.append);
    assert_eq!(child.offset, 0);
    assert_eq!(child.shared, 1);
}

#[test]
fn unlink_decisions() {
    let mut inodes = OpenInodes::new();
    let d = directory(&mut inodes);
    assert_eq!(d.unlink(&inodes, true), Err(ENOTEMPTY));
    assert_eq!(d.unlink(&inodes, false), Ok(UnlinkAction::RemoveDirectory));
    let f = regular(&mut inodes, 3);
    assert_eq!(f.unlink(&inodes, true), Ok(UnlinkAction::RemoveFile));
}

#[test]
fn truncate_and_times() {
    let mut inodes = OpenInodes::new();
    let f = regular(&mut inodes, 100);
    assert_eq!(f.truncate_size(&mut inodes, 3), Ok(()));
    assert_eq!(f.get_size(&inodes), 3);
    f.set_timestamp(&mut inodes, Some(10), None, Some((1usize << 32) + 5));
    let i = &inodes.slots[f.shared].inode.inode;
    assert_eq!((i.ctime, i.atime, i.mtime), (10, 1, 5));
}

#[test]
fn modify_size_drops_pages() {
    let mut inodes = OpenInodes::new();
    let mut f = regular(&mut inodes, 0);
    f.write(&mut inodes, &mut Some(0), &vec![7u8; 8200], &zeros(3));
    assert_eq!(f.modify_size(&mut inodes, -8000), Ok(()));
    assert_eq!(f.get_size(&inodes), 8200);
    assert_eq!(read_at(&mut f, &mut inodes, 0, 2), vec![7u8; 2]);
    // The pages past 200 bytes are no longer cached.
    assert_eq!(f.pages_to_load(&inodes, 0, 8200), vec![1, 2]);
}

#[test]
fn cache_pages() {
    let mut inodes = OpenInodes::new();
    let mut f = regular(&mut inodes, 5000);
    assert_eq!(f.get_single_cache(&mut inodes, 4096, &filled_disk()), Ok(1));
    // The page is loaded: only page 0 is still to load.
    assert_eq!(f.pages_to_load(&inodes, 0, 5000), vec![0]);
    assert_eq!(read_at(&mut f, &mut inodes, 4096, 2), vec![6, 6]);
    assert_eq!(f.get_all_caches(&mut inodes, &filled_disk()), Ok(vec![0, 1]));
    assert!(f.pages_to_load(&inodes, 0, 5000).is_empty());
    let g = regular(&mut inodes, 0);
    assert_eq!(g.get_all_caches(&mut inodes, &Vec::new()), Ok(vec![]));
    let h = regular(&mut inodes, 4096);
    assert_eq!(h.get_all_caches(&mut inodes, &zeros(1)), Ok(vec![0]));
    assert_eq!(h.get_single_cache(&mut inodes, 8192, &zeros(3)), Ok(2));
}

#[test]
fn neighboring_blocks() {
    let mut inodes = OpenInodes::new();
    let f = regular(&mut inodes, 5000);
    let snapshot = inodes.slots[f.shared].inode.duplicate();
    assert_eq!(f.get_neighboring_blk(0, &snapshot), vec![100, 101, 102, 103]);
    assert_eq!(f.get_neighboring_blk(1, &snapshot), vec![104]);
    assert_eq!(f.get_neighboring_blk(2, &snapshot), Vec::<usize>::new());
}

#[test]
fn all_pages_reach_every_block() {
    for size in [1u64, 1024, 4096, 4097, 9000, 20480] {
        let mut inodes = OpenInodes::new();
        let f = regular(&mut inodes, size);
        let snapshot = inodes.slots[f.shared].inode.duplicate();
        let mut listed = Vec::new();
        let disk = vec![vec![vec![0u8; 1024]; 4]; 5];
        for page in f.get_all_caches(&mut inodes, &disk).unwrap() {
            let blocks = f.get_neighboring_blk(page, &snapshot);
            assert!(!blocks.is_empty());
            listed.extend(blocks);
        }
        let count = ((size + 1023) / 1024) as usize;
        let expected: Vec<usize> = (100..100 + count).collect();
        assert_eq!(listed, expected);
    }
}

#[test]
fn page_cache_alone() {
    let mut c = PageCacheManager::new();
    assert!(!c.is_cached(1));
    c.load(1, vec![0u8; 4096]);
    assert!(c.is_cached(1));
    assert!(!c.is_cached(0));
    c.modify(1, 10, &vec![1, 2, 3], 1, 2);
    let mut dst = vec![9u8; 4];
    c.read(1, 9, 4, &mut dst, 0);
    assert_eq!(dst, vec![0, 2, 3, 0]);
    c.notify_new_size(0);
    assert!(!c.is_cached(1));
}

/// The disk blocks of a 5000-byte file: page 0 holds four blocks of 1, 2,
/// 3 and 4; page 1 one block of 6.
fn filled_disk() -> Vec<Vec<Vec<u8>>> {
    vec![
        vec![vec![1u8; 1024], vec![2u8; 1024], vec![3u8; 1024], vec![4u8; 1024]],
        vec![vec![6u8; 1024]],
    ]
}

#[test]
fn read_loads_missing_pages() {
    let mut inodes = OpenInodes::new();
    let mut f = regular(&mut inodes, 5000);
    let mut buf = vec![0u8; 4];
    let mut off = Some(4094);
    assert_eq!(f.read(&mut inodes, &mut off, &mut buf, &filled_disk()), 4);
    assert_eq!(buf, vec![4, 4, 6, 6]);
    assert!(f.pages_to_load(&inodes, 0, 5000).is_empty());
    // Loaded pages stay cached: a later read does not go to the disk again.
    let other = vec![vec![vec![9u8; 1024]; 4], vec![vec![9u8; 1024]]];
    let mut off = Some(4094);
    assert_eq!(f.read(&mut inodes, &mut off, &mut buf, &other), 4);
    assert_eq!(buf, vec![4, 4, 6, 6]);
    let mut tail = vec![7u8; 10];
    let mut off = Some(4995);
    assert_eq!(f.read(&mut inodes, &mut off, &mut tail, &other), 5);
    assert_eq!(tail, vec![6, 6, 6, 6, 6, 7, 7, 7, 7, 7]);
}

#[test]
fn write_loads_the_pages_it_writes() {
    let mut inodes = OpenInodes::new();
    let mut f = regular(&mut inodes, 5000);
    let mut off = Some(1023);
    assert_eq!(f.write(&mut inodes, &mut off, &vec![0xee, 0xff], &filled_disk()), 2);
    assert_eq!(f.get_size(&inodes), 5000);
    assert_eq!(read_at(&mut f, &mut inodes, 1021, 6), vec![1, 1, 0xee, 0xff, 2, 2]);
    // Page 1 was not written, so it is still loaded from the disk.
    let mut buf = vec![0u8; 2];
    let mut off = Some(4096);
    assert_eq!(f.read(&mut inodes, &mut off, &mut buf, &filled_disk()), 2);
    assert_eq!(buf, vec![6, 6]);
}

#[test]
fn user_read_and_block_cache_read_load_pages() {
    let mut inodes = OpenInodes::new();
    let mut f = regular(&mut inodes, 5000);
    let mut bufs = vec![vec![0u8; 2], vec![0u8; 3]];
    assert_eq!(f.read_user(&mut inodes, Some(2047), &mut bufs, &filled_disk()), 5);
    assert_eq!(bufs[0], vec![2, 3]);
    assert_eq!(bufs[1], vec![3, 3, 3]);
    let mut g = regular(&mut inodes, 5000);
    g.offset = 0;
    let snapshot = inodes.slots[g.shared].inode.duplicate();
    let mut buf = vec![0u8; 3];
    assert_eq!(g.read_at_block_cache(&mut inodes, 4095, &mut buf, &snapshot, &filled_disk()), 3);
    assert_eq!(buf, vec![4, 6, 6]);
}

#[test]
fn user_write_of_whole_buffers() {
    let mut inodes = OpenInodes::new();
    let mut f = regular(&mut inodes, 0);
    f.write(&mut inodes, &mut Some(0), &vec![0u8; 8], &zeros(3));
    f.offset = 0;
    let bufs = vec![b"abc".to_vec(), b"de".to_vec()];
    assert_eq!(f.write_user(&mut inodes, None, &bufs, &vec![Ok(3), Ok(2)], &zeros(3)), 5);
    assert_eq!(f.offset, 5);
    assert_eq!(read_at(&mut f, &mut inodes, 0, 8), b"abcde\0\0\0".to_vec());
}

#[test]
fn user_write_stops_after_a_zero_write() {
    let mut inodes = OpenInodes::new();
    let mut f = regular(&mut inodes, 0);
    f.write(&mut inodes, &mut Some(0), &vec![0u8; 8], &zeros(3));
    let bufs = vec![b"ab".to_vec(), b"cd".to_vec(), b"ef".to_vec()];
    let n = f.write_user(&mut inodes, Some(1), &bufs, &vec![Ok(2), Ok(0), Ok(2)], &zeros(3));
    assert_eq!(n, 2);
    // With a given offset, the file object's own stays where it was.
    assert_eq!(f.offset, 0);
    assert_eq!(read_at(&mut f, &mut inodes, 0, 8), b"\0abcd\0\0\0".to_vec());
}

#[test]
fn user_write_failure_moves_nothing() {
    let mut inodes = OpenInodes::new();
    let mut f = regular(&mut inodes, 0);
    f.write(&mut inodes, &mut Some(0), &vec![0u8; 4], &zeros(3));
    let bufs = vec![b"xy".to_vec(), b"zw".to_vec()];
    let n = f.write_user(&mut inodes, Some(0), &bufs, &vec![Err(-5), Ok(2)], &zeros(3));
    assert_eq!(n, 2);
    assert_eq!(read_at(&mut f, &mut inodes, 0, 4), b"zw\0\0".to_vec());
}

#[test]
fn write_past_the_end_leaves_zeros() {
    let mut inodes = OpenInodes::new();
    let mut f = regular(&mut inodes, 0);
    let mut off = Some(5);
    assert_eq!(f.write(&mut inodes, &mut off, &b"ab".to_vec(), &zeros(3)), 2);
    assert_eq!(f.get_size(&inodes), 7);
    assert_eq!(read_at(&mut f, &mut inodes, 0, 10), b"\0\0\0\0\0ab".to_vec());
}
