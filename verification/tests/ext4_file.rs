use npucore::fs::ext4_file::{decimal, entry_name, Ext4RawFile, Lwext4File, ENOT_DIRECTORY};
use npucore::fs::{DiskInodeType, OpenFlags, O_RDWR};

fn file(flags: u32, fsize: u64, fpos: u64, is_file: bool, path: &str) -> Lwext4File {
    Lwext4File {
        file: Ext4RawFile { inode: 12, flags, fsize, fpos },
        is_file,
        path: path.to_string(),
    }
}

#[test]
fn permissions_follow_lowest_flag_bit() {
    let r = file(0, 10, 0, true, "/a");
    assert!(r.readable());
    assert!(!r.writable());
    assert!(!r.w_ready());
    let w = file(3, 10, 0, true, "/a");
    assert!(!w.readable());
    assert!(w.writable());
    assert!(w.w_ready());
}

#[test]
fn read_ready_before_end() {
    assert!(file(0, 10, 9, true, "/a").r_ready());
    assert!(!file(0, 10, 10, true, "/a").r_ready());
    assert!(!file(0, 10, 11, true, "/a").r_ready());
}

#[test]
fn size_and_type() {
    let f = file(0, 4096, 0, true, "/a");
    assert_eq!(f.get_size(), 4096);
    assert_eq!(f.get_file_type(), DiskInodeType::File);
    assert_eq!(file(0, 0, 0, false, "/").get_file_type(), DiskInodeType::Directory);
}

#[test]
fn reads_and_writes_at_end_do_nothing() {
    let f = file(0, 10, 10, true, "/a");
    let mut buf = vec![7u8; 4];
    assert_eq!(f.read(None, &mut buf), 0);
    assert_eq!(buf, vec![7u8; 4]);
    assert_eq!(f.read(Some(12), &mut buf), 0);
    assert_eq!(f.write(None, &vec![1, 2]), 0);
    let mut empty: Vec<u8> = Vec::new();
    assert_eq!(f.read(Some(0), &mut empty), 0);
    assert_eq!(f.read_user(Some(10), &mut buf), 0);
    assert_eq!(f.write_user(None, &vec![1]), 0);
}

#[test]
fn decimal_names() {
    assert_eq!(decimal(0), "0");
    assert_eq!(decimal(7), "7");
    assert_eq!(decimal(1234), "1234");
    assert_eq!(entry_name(63), "entry63");
}

#[test]
fn listing_is_numbered_entries() {
    let d = file(0, 0, 0, false, "/");
    let list = d.get_dirent(3);
    assert_eq!(list.len(), 3);
    for (i, e) in list.iter().enumerate() {
        assert_eq!(e.d_ino, i);
        assert_eq!(e.d_off, 0);
        assert_eq!(e.d_type, b'd');
        assert_eq!(e.d_name, format!("entry{}", i));
    }
    assert!(d.get_dirent(0).is_empty());
}

#[test]
fn subfiles_of_directory_and_file() {
    let d = file(0, 0, 0, false, "/dir");
    let subs = d.open_subfile().unwrap();
    assert_eq!(subs.len(), 64);
    assert_eq!(subs[0].0, "entry0");
    assert_eq!(subs[63].0, "entry63");
    assert_eq!(subs[5].1.path, "/dir");
    assert!(!subs[5].1.is_file);
    assert!(matches!(file(0, 0, 0, true, "/f").open_subfile(), Err(ENOT_DIRECTORY)));
}

#[test]
fn child_paths() {
    let d = file(0, 0, 0, false, "/a");
    assert_eq!(d.create("b", DiskInodeType::File).unwrap(), ("/a/b".to_string(), true));
    let d = file(0, 0, 0, false, "/a/");
    assert_eq!(d.create("c", DiskInodeType::Directory).unwrap(), ("/a/c".to_string(), false));
    let d = file(0, 0, 0, false, "");
    assert_eq!(d.create("x", DiskInodeType::File).unwrap(), ("/x".to_string(), true));
    assert!(matches!(file(0, 0, 0, true, "/f").create("x", DiskInodeType::File), Err(ENOT_DIRECTORY)));
}

#[test]
fn clones_and_opens_copy_the_file() {
    let mut f = file(1, 5, 2, true, "/a");
    let g = f.deep_clone();
    assert_eq!(g.file, f.file);
    assert_eq!(g.path, f.path);
    let h = f.open(OpenFlags { bits: O_RDWR }, true);
    assert_eq!(h.file, f.file);
    f.info_dirtree_node(0x1_0000_0042);
    assert_eq!(f.file.inode, 0x42);
}

#[test]
fn readable_and_writable_exclude_each_other() {
    for flags in 0..8u32 {
        let f = file(flags, 0, 0, true, "/a");
        assert_ne!(f.readable(), f.writable());
        assert_eq!(f.w_ready(), f.writable());
    }
}
