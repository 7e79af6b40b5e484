//! File-system objects shared by the file implementations: inode types, open
//! flags, seek origins, `stat` records, directory entries and error numbers.

pub mod ext4;
pub mod ext4_file;

use vstd::prelude::*;

verus! {

/// Not a directory.
pub const ENOTDIR: isize = -20;

/// Invalid argument.
pub const EINVAL: isize = -22;

/// Directory not empty.
pub const ENOTEMPTY: isize = -39;

/// The kind of an inode on disk.
#[derive(Clone, Copy, Debug, PartialEq, Eq, Structural)]
pub enum DiskInodeType {
    File,
    Directory,
}

/// Open for reading only.
pub const O_RDONLY: u32 = 0o0;

/// Open for writing only.
pub const O_WRONLY: u32 = 0o1;

/// Open for reading and writing.
pub const O_RDWR: u32 = 0o2;

/// Append on each write.
pub const O_APPEND: u32 = 0o2000;

/// The flags given to `open`, as a set of bits.
#[derive(Clone, Copy, Debug, PartialEq, Eq, Structural)]
pub struct OpenFlags {
    pub bits: u32,
}

impl OpenFlags {
    /// Whether every bit of `other` is set in `self`. A flag with no bits,
    /// such as `O_RDONLY`, is contained in every set.
    pub fn contains(&self, other: u32) -> (r: bool)
        ensures
            r == (self.bits & other == other),
    {
        self.bits & other == other
    }
}

/// Seek from the start of the file.
pub const SEEK_SET: u32 = 0;

/// Seek from the current offset.
pub const SEEK_CUR: u32 = 1;

/// Seek from the end of the file.
pub const SEEK_END: u32 = 2;

/// The origin of an `lseek`, by its number.
#[derive(Clone, Copy, Debug, PartialEq, Eq, Structural)]
pub struct SeekWhence {
    pub bits: u32,
}

/// Directory file type bits of a `stat` mode.
pub const S_IFDIR: u32 = 0o040000;

/// Regular file type bits of a `stat` mode.
pub const S_IFREG: u32 = 0o100000;

/// Read, write and execute for the owner.
pub const S_IRWXU: u32 = 0o700;

/// Read, write and execute for the group.
pub const S_IRWXG: u32 = 0o070;

/// Read, write and execute for others.
pub const S_IRWXO: u32 = 0o007;

/// The device number made of a major and a minor number.
pub open spec fn spec_makedev(major: u64, minor: u64) -> u64 {
    ((major & 0xffff_f000u64) << 32u64) | ((major & 0xfffu64) << 8u64) | ((minor & 0xffff_ff00u64)
        << 12u64) | (minor & 0xffu64)
}

/// Packs a major and a minor device number the way `stat` reports them.
pub fn makedev(major: u64, minor: u64) -> (dev: u64)
    ensures
        dev == spec_makedev(major, minor),
{
    ((major & 0xffff_f000u64) << 32u64) | ((major & 0xfffu64) << 8u64) | ((minor & 0xffff_ff00u64)
        << 12u64) | (minor & 0xffu64)
}

/// The status record that `fstat` fills in.
#[derive(Clone, Copy, Debug, PartialEq, Eq, Structural)]
pub struct Stat {
    pub st_dev: u64,
    pub st_ino: u64,
    pub st_mode: u32,
    pub st_nlink: u32,
    pub st_rdev: u64,
    pub st_size: i64,
    pub st_atime_sec: i64,
    pub st_mtime_sec: i64,
    pub st_ctime_sec: i64,
}

impl Stat {
    pub fn new(
        st_dev: u64,
        st_ino: u64,
        st_mode: u32,
        st_nlink: u32,
        st_rdev: u64,
        st_size: i64,
        st_atime_sec: i64,
        st_mtime_sec: i64,
        st_ctime_sec: i64,
    ) -> (s: Stat)
        ensures
            s == (Stat {
                st_dev,
                st_ino,
                st_mode,
                st_nlink,
                st_rdev,
                st_size,
                st_atime_sec,
                st_mtime_sec,
                st_ctime_sec,
            }),
    {
        Stat {
            st_dev,
            st_ino,
            st_mode,
            st_nlink,
            st_rdev,
            st_size,
            st_atime_sec,
            st_mtime_sec,
            st_ctime_sec,
        }
    }
}

/// A directory entry as `getdents` hands it out.
#[derive(Debug)]
pub struct Dirent {
    pub d_ino: usize,
    pub d_off: isize,
    pub d_type: u8,
    pub d_name: String,
}

impl Dirent {
    pub fn new(d_ino: usize, d_off: isize, d_type: u8, name: &str) -> (d: Dirent)
        ensures
            d.d_ino == d_ino,
            d.d_off == d_off,
            d.d_type == d_type,
            d.d_name@ == name@,
    {
        Dirent { d_ino, d_off, d_type, d_name: String::from_str(name) }
    }
}

} // verus!
