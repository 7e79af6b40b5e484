//! The file object of the lwext4 binding: the C library's open-file record
//! (flags, size, position), whether it is a regular file, and its path.

use crate::fs::{Dirent, DiskInodeType, OpenFlags};
use vstd::prelude::*;

verus! {

/// Error returned when an operation that needs a directory meets a file.
pub const ENOT_DIRECTORY: isize = -1;

/// The number of entries a directory lists when opening its sub-files.
pub const SUBFILE_COUNT: usize = 64;

/// The open-file record of the C library.
#[derive(Clone, Copy, Debug, PartialEq, Eq, Structural)]
pub struct Ext4RawFile {
    pub inode: u32,
    pub flags: u32,
    pub fsize: u64,
    pub fpos: u64,
}

/// An open file of the lwext4 binding.
pub struct Lwext4File {
    pub file: Ext4RawFile,
    pub is_file: bool,
    pub path: String,
}

/// The decimal digit `d`.
pub open spec fn spec_digit(d: nat) -> char {
    if d == 0 {
        '0'
    } else if d == 1 {
        '1'
    } else if d == 2 {
        '2'
    } else if d == 3 {
        '3'
    } else if d == 4 {
        '4'
    } else if d == 5 {
        '5'
    } else if d == 6 {
        '6'
    } else if d == 7 {
        '7'
    } else if d == 8 {
        '8'
    } else {
        '9'
    }
}

/// The decimal notation of `n`, without leading zeros.
pub open spec fn spec_decimal(n: nat) -> Seq<char>
    decreases n,
{
    if n < 10 {
        seq![spec_digit(n)]
    } else {
        spec_decimal(n / 10).push(spec_digit(n % 10))
    }
}

/// The name of the `i`-th listed entry: `entry` followed by `i` in decimal.
pub open spec fn spec_entry_name(i: nat) -> Seq<char> {
    seq!['e', 'n', 't', 'r', 'y'] + spec_decimal(i)
}

/// The path of a child named `name` of the directory at `path`: the two
/// joined by a `/`, unless the path already ends with one.
pub open spec fn spec_child_path(path: Seq<char>, name: Seq<char>) -> Seq<char> {
    if path.len() > 0 && path.last() == '/' {
        path + name
    } else {
        path + seq!['/'] + name
    }
}

/// The number that the decimal digits `s` stand for, read in base 10, each
/// digit taken by its character code.
pub open spec fn spec_decimal_value(s: Seq<char>) -> int
    decreases s.len(),
{
    if s.len() == 0 {
        0
    } else {
        spec_decimal_value(s.drop_last()) * 10 + ((s.last() as u32) - ('0' as u32))
    }
}

/// The decimal notation of `n` reads back as `n`: it is made of the
/// characters `0` to `9`, starts with `0` only when it is the single digit
/// of zero, and its digits, read in base 10, are `n`. So different numbers
/// have different notations.
pub proof fn lemma_decimal_reads_back(n: nat)
    ensures
        spec_decimal(n).len() >= 1,
        forall|k: int|
            0 <= k < spec_decimal(n).len() ==> '0' <= #[trigger] spec_decimal(n)[k] <= '9',
        spec_decimal(n)[0] == '0' ==> n == 0,
        spec_decimal_value(spec_decimal(n)) == n,
    decreases n,
{
    if n >= 10 {
        lemma_decimal_reads_back(n / 10);
        lemma_digit_value(n % 10);
        let d = spec_decimal(n);
        assert(d.drop_last() =~= spec_decimal(n / 10));
        assert(d[0] == spec_decimal(n / 10)[0]);
        assert(spec_decimal_value(d) == (n / 10) * 10 + n % 10);
    } else {
        lemma_digit_value(n);
        let d = spec_decimal(n);
        assert(d.drop_last() =~= Seq::<char>::empty());
        assert(spec_decimal_value(d.drop_last()) == 0);
    }
}

/// The digit of `d` is a character from `0` to `9` whose code lies `d`
/// past that of `0`.
proof fn lemma_digit_value(d: nat)
    requires
        d < 10,
    ensures
        '0' <= spec_digit(d) <= '9',
        (spec_digit(d) as u32) - ('0' as u32) == d,
{
}

/// Different entries get different names.
pub proof fn lemma_entry_names_differ(i: nat, j: nat)
    requires
        i != j,
    ensures
        spec_entry_name(i) != spec_entry_name(j),
{
    lemma_decimal_reads_back(i);
    lemma_decimal_reads_back(j);
    if spec_entry_name(i) == spec_entry_name(j) {
        assert(spec_decimal(i) =~= spec_entry_name(i).subrange(5, spec_entry_name(i).len() as int));
        assert(spec_decimal(j) =~= spec_entry_name(j).subrange(5, spec_entry_name(j).len() as int));
    }
}

/// The path of a child starts with the directory's path and ends with the
/// child's name; a `/` stands right before the name, and is added exactly
/// when the directory's path does not already end with one.
pub proof fn lemma_child_path(path: Seq<char>, name: Seq<char>)
    ensures
        spec_child_path(path, name).subrange(0, path.len() as int) == path,
        spec_child_path(path, name).subrange(
            spec_child_path(path, name).len() - name.len(),
            spec_child_path(path, name).len() as int,
        ) == name,
        spec_child_path(path, name).len() == path.len() + name.len() + if path.len() > 0
            && path[path.len() - 1] == '/' {
            0int
        } else {
            1int
        },
        spec_child_path(path, name)[spec_child_path(path, name).len() - name.len() - 1] == '/',
{
    let r = spec_child_path(path, name);
    assert(r.subrange(0, path.len() as int) =~= path);
    assert(r.subrange(r.len() - name.len(), r.len() as int) =~= name);
}

fn digit_str(d: usize) -> (s: &'static str)
    requires
        d < 10,
    ensures
        s@ == seq![spec_digit(d as nat)],
{
    if d == 0 {
        proof {
            reveal_strlit("0");
        }
        "0"
    } else if d == 1 {
        proof {
            reveal_strlit("1");
        }
        "1"
    } else if d == 2 {
        proof {
            reveal_strlit("2");
        }
        "2"
    } else if d == 3 {
        proof {
            reveal_strlit("3");
        }
        "3"
    } else if d == 4 {
        proof {
            reveal_strlit("4");
        }
        "4"
    } else if d == 5 {
        proof {
            reveal_strlit("5");
        }
        "5"
    } else if d == 6 {
        proof {
            reveal_strlit("6");
        }
        "6"
    } else if d == 7 {
        proof {
            reveal_strlit("7");
        }
        "7"
    } else if d == 8 {
        proof {
            reveal_strlit("8");
        }
        "8"
    } else {
        proof {
            reveal_strlit("9");
        }
        "9"
    }
}

/// `n` in decimal notation.
pub fn decimal(n: usize) -> (s: String)
    ensures
        s@ == spec_decimal(n as nat),
    decreases n,
{
    if n < 10 {
        String::from_str(digit_str(n))
    } else {
        let mut s = decimal(n / 10);
        s.append(digit_str(n % 10));
        s
    }
}

/// The name of the `i`-th listed entry.
pub fn entry_name(i: usize) -> (s: String)
    ensures
        s@ == spec_entry_name(i as nat),
{
    proof {
        reveal_strlit("entry");
    }
    let mut s = String::from_str("entry");
    let digits = decimal(i);
    s.append(digits.as_str());
    s
}

impl Lwext4File {
    /// A second file object with the same record, type and path.
    pub fn deep_clone(&self) -> (f: Self)
        ensures
            f.file == self.file,
            f.is_file == self.is_file,
            f.path@ == self.path@,
    {
        Lwext4File { file: self.file, is_file: self.is_file, path: self.path.clone() }
    }

    /// Readable when the flags are even.
    pub fn readable(&self) -> (r: bool)
        ensures
            r == (self.file.flags % 2 == 0),
    {
        (self.file.flags % 2) == 0
    }

    /// Writable when the flags are odd.
    pub fn writable(&self) -> (r: bool)
        ensures
            r == (self.file.flags % 2 == 1),
    {
        (self.file.flags % 2) == 1
    }

    /// The position a read or write starts at: the given offset, or else the
    /// file's position.
    pub open spec fn start_of(&self, offset: Option<usize>) -> int {
        match offset {
            Some(o) => o as int,
            None => (self.file.fpos as usize) as int,
        }
    }

    /// Reads nothing and returns zero, leaving the buffer as it was. A read
    /// from before the end of the file into a non-empty buffer never
    /// returns (it calls itself with the same offset and buffer, without end),
    /// so the precondition leaves those inputs out.
    pub fn read(&self, offset: Option<usize>, buf: &mut Vec<u8>) -> (n: usize)
        requires
            self.start_of(offset) >= (self.file.fsize as usize) || old(buf)@.len() == 0,
        ensures
            n == 0,
            final(buf)@ == old(buf)@,
    {
        let local_offset: usize = match offset {
            Some(o) => o,
            None => self.file.fpos as usize,
        };
        let read_size: usize = 0;
        if local_offset < self.file.fsize as usize && buf.len() > 0 {
            // Not reached: the precondition rules out the inputs on which the
            // loop would never end.
            proof {
                assert(false);
            }
        }
        read_size
    }

    /// Writes nothing and returns zero. A write at a position before the end
    /// of the file of a non-empty buffer never returns (it calls itself with
    /// the same offset and buffer each time), so the precondition leaves
    /// those inputs out.
    pub fn write(&self, offset: Option<usize>, buf: &Vec<u8>) -> (n: usize)
        requires
            self.start_of(offset) >= (self.file.fsize as usize) || buf@.len() == 0,
        ensures
            n == 0,
    {
        let local_offset: usize = match offset {
            Some(o) => o,
            None => self.file.fpos as usize,
        };
        let write_size: usize = 0;
        if local_offset < self.file.fsize as usize && buf.len() > 0 {
            // Not reached: the precondition rules out the inputs on which the
            // loop would never end.
            proof {
                assert(false);
            }
        }
        write_size
    }

    /// Ready for reading while the position lies before the end of the file.
    pub fn r_ready(&self) -> (r: bool)
        ensures
            r == (self.file.fpos < self.file.fsize),
    {
        match self.file.fsize.checked_sub(self.file.fpos) {
            Some(remaining) => remaining > 0,
            None => false,
        }
    }

    /// Ready for writing when the lowest flag bit is set.
    pub fn w_ready(&self) -> (r: bool)
        ensures
            r == (self.file.flags % 2 == 1),
    {
        let flags = self.file.flags;
        let r = (!flags & 0x1) == 0;
        proof {
            assert(((!flags & 0x1) == 0) == (flags % 2 == 1)) by (bit_vector);
        }
        r
    }

    /// Reads nothing into the user buffer, as `read` does.
    pub fn read_user(&self, offset: Option<usize>, user_buf: &mut Vec<u8>) -> (n: usize)
        requires
            self.start_of(offset) >= (self.file.fsize as usize) || old(user_buf)@.len() == 0,
        ensures
            n == 0,
            final(user_buf)@ == old(user_buf)@,
    {
        self.read(offset, user_buf)
    }

    /// Writes nothing from the user buffer, as `write` does.
    pub fn write_user(&self, offset: Option<usize>, user_buf: &Vec<u8>) -> (n: usize)
        requires
            self.start_of(offset) >= (self.file.fsize as usize) || user_buf@.len() == 0,
        ensures
            n == 0,
    {
        self.write(offset, user_buf)
    }

    /// The size of the file.
    pub fn get_size(&self) -> (s: usize)
        ensures
            s == self.file.fsize as usize,
    {
        self.file.fsize as usize
    }

    /// A regular file, or else a directory.
    pub fn get_file_type(&self) -> (t: DiskInodeType)
        ensures
            t == if self.is_file {
                DiskInodeType::File
            } else {
                DiskInodeType::Directory
            },
    {
        if self.is_file {
            DiskInodeType::File
        } else {
            DiskInodeType::Directory
        }
    }

    /// Records the address of the file's directory-tree node in the inode
    /// field of the record, taken modulo 2^32.
    pub fn info_dirtree_node(&mut self, dirnode_addr: usize)
        ensures
            final(self).file.inode == dirnode_addr as u32,
            final(self).file.flags == old(self).file.flags,
            final(self).file.fsize == old(self).file.fsize,
            final(self).file.fpos == old(self).file.fpos,
            final(self).is_file == old(self).is_file,
            final(self).path == old(self).path,
    {
        self.file.inode = dirnode_addr as u32;
    }

    /// Opening the file again gives a copy of it, whatever the flags.
    pub fn open(&self, flags: OpenFlags, special_use: bool) -> (f: Self)
        ensures
            f.file == self.file,
            f.is_file == self.is_file,
            f.path@ == self.path@,
    {
        self.deep_clone()
    }

    /// The `count` entries `entry0`, `entry1`, ... of a directory listing,
    /// each of type `d`, with its index as inode number and offset zero.
    pub fn get_dirent(&self, count: usize) -> (r: Vec<Dirent>)
        ensures
            r@.len() == count,
            forall|k: int|
                0 <= k < count ==> {
                    &&& (#[trigger] r@[k]).d_ino == k
                    &&& r@[k].d_off == 0
                    &&& r@[k].d_type == 100u8
                    &&& r@[k].d_name@ == spec_entry_name(k as nat)
                },
    {
        let mut dirents: Vec<Dirent> = Vec::new();
        let mut i: usize = 0;
        while i < count
            invariant
                i <= count,
                dirents@.len() == i,
                forall|k: int|
                    0 <= k < i ==> {
                        &&& (#[trigger] dirents@[k]).d_ino == k
                        &&& dirents@[k].d_off == 0
                        &&& dirents@[k].d_type == 100u8
                        &&& dirents@[k].d_name@ == spec_entry_name(k as nat)
                    },
            decreases count - i,
        {
            let name = entry_name(i);
            let dirent = Dirent::new(i, 0, 100u8, name.as_str());
            dirents.push(dirent);
            i += 1;
        }
        dirents
    }

    /// For a directory, its sub-files: the names of the first 64 listed
    /// entries, each paired with a copy of this file object. A regular file
    /// has none and fails with `-1`.
    pub fn open_subfile(&self) -> (r: Result<Vec<(String, Lwext4File)>, isize>)
        ensures
            self.is_file ==> r == Err::<Vec<(String, Lwext4File)>, isize>(ENOT_DIRECTORY),
            !self.is_file ==> r is Ok,
            r is Ok ==> r->Ok_0@.len() == SUBFILE_COUNT,
            r is Ok ==> forall|k: int|
                0 <= k < SUBFILE_COUNT ==> {
                    let (name, file) = #[trigger] r->Ok_0@[k];
                    &&& name@ == spec_entry_name(k as nat)
                    &&& file.file == self.file
                    &&& file.is_file == self.is_file
                    &&& file.path@ == self.path@
                },
    {
        if self.get_file_type() != DiskInodeType::Directory {
            return Err(ENOT_DIRECTORY);
        }
        let dirents = self.get_dirent(SUBFILE_COUNT);
        let mut subfiles: Vec<(String, Lwext4File)> = Vec::new();
        let mut k: usize = 0;
        while k < dirents.len()
            invariant
                k <= dirents@.len(),
                dirents@.len() == SUBFILE_COUNT,
                forall|m: int|
                    0 <= m < SUBFILE_COUNT ==> (#[trigger] dirents@[m]).d_name@ == spec_entry_name(
                        m as nat,
                    ),
                subfiles@.len() == k,
                forall|m: int|
                    0 <= m < k ==> {
                        let (name, file) = #[trigger] subfiles@[m];
                        &&& name@ == spec_entry_name(m as nat)
                        &&& file.file == self.file
                        &&& file.is_file == self.is_file
                        &&& file.path@ == self.path@
                    },
            decreases dirents@.len() - k,
        {
            let file = self.open(OpenFlags { bits: crate::fs::O_RDONLY }, false);
            let name = dirents[k].d_name.clone();
            subfiles.push((name, file));
            k += 1;
        }
        Ok(subfiles)
    }

    /// What creating `name` of the given type in this directory opens: the
    /// child's path, and whether it is a regular file. A regular file cannot
    /// hold children and fails with `-1`.
    pub fn create(&self, name: &str, file_type: DiskInodeType) -> (r: Result<(String, bool), isize>)
        ensures
            self.is_file ==> r == Err::<(String, bool), isize>(ENOT_DIRECTORY),
            !self.is_file ==> r is Ok,
            r is Ok ==> r->Ok_0.0@ == spec_child_path(self.path@, name@),
            r is Ok ==> r->Ok_0.1 == (file_type == DiskInodeType::File),
    {
        if self.get_file_type() != DiskInodeType::Directory {
            return Err(ENOT_DIRECTORY);
        }
        let mut child_path = self.path.clone();
        let n = child_path.as_str().unicode_len();
        proof {
            reveal_strlit("/");
        }
        if n == 0 || child_path.as_str().get_char(n - 1) != '/' {
            child_path.append("/");
        }
        child_path.append(name);
        let is_file = file_type == DiskInodeType::File;
        Ok((child_path, is_file))
    }
}

/// A file of the binding is either readable or writable, never both.
pub proof fn lemma_readable_or_writable(f: &Lwext4File)
    ensures
        (f.file.flags % 2 == 0) != (f.file.flags % 2 == 1),
{
}

} // verus!
