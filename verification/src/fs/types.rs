//! Core types for the VFS layer: file statistics, open flags, error codes,
//! seek direction, and file type classification.
use vstd::prelude::*;

verus! {

/// File type, as the upper four bits of a file mode give it.
#[derive(Debug, Clone, Copy, PartialEq, Eq, Structural)]
pub enum FileType {
    Fifo,
    ChrDev,
    Dir,
    BlkDev,
    RegFile,
    Symlink,
    Socket,
}

impl FileType {
    /// The bits that stand for the type in a file mode.
    pub open spec fn bits(self) -> int {
        match self {
            FileType::Fifo => 0x1000,
            FileType::ChrDev => 0x2000,
            FileType::Dir => 0x4000,
            FileType::BlkDev => 0x6000,
            FileType::RegFile => 0x8000,
            FileType::Symlink => 0xa000,
            FileType::Socket => 0xc000,
        }
    }

    /// The type that a file mode gives; a regular file for unknown bits.
    pub open spec fn of_mode(mode: u16) -> FileType {
        if mode & 0xF000 == 0x1000 {
            FileType::Fifo
        } else if mode & 0xF000 == 0x2000 {
            FileType::ChrDev
        } else if mode & 0xF000 == 0x4000 {
            FileType::Dir
        } else if mode & 0xF000 == 0x6000 {
            FileType::BlkDev
        } else if mode & 0xF000 == 0x8000 {
            FileType::RegFile
        } else if mode & 0xF000 == 0xa000 {
            FileType::Symlink
        } else if mode & 0xF000 == 0xc000 {
            FileType::Socket
        } else {
            FileType::RegFile
        }
    }

    pub fn from_mode(mode: u16) -> (r: Self)
        ensures
            r == FileType::of_mode(mode),
    {
        match mode & 0xF000 {
            0x1000 => FileType::Fifo,
            0x2000 => FileType::ChrDev,
            0x4000 => FileType::Dir,
            0x6000 => FileType::BlkDev,
            0x8000 => FileType::RegFile,
            0xa000 => FileType::Symlink,
            0xc000 => FileType::Socket,
            _ => FileType::RegFile,
        }
    }

    pub fn is_dir(&self) -> (r: bool)
        ensures
            r == (*self == FileType::Dir),
    {
        *self == FileType::Dir
    }

    pub fn is_reg(&self) -> (r: bool)
        ensures
            r == (*self == FileType::RegFile),
    {
        *self == FileType::RegFile
    }

    pub fn is_symlink(&self) -> (r: bool)
        ensures
            r == (*self == FileType::Symlink),
    {
        *self == FileType::Symlink
    }

    pub fn is_chrdev(&self) -> (r: bool)
        ensures
            r == (*self == FileType::ChrDev),
    {
        *self == FileType::ChrDev
    }

    pub fn is_blkdev(&self) -> (r: bool)
        ensures
            r == (*self == FileType::BlkDev),
    {
        *self == FileType::BlkDev
    }
}

/// File metadata.
#[derive(Debug, Clone, Copy, PartialEq, Eq, Structural)]
pub struct Kstat {
    pub ino: u64,
    pub mode: u16,
    pub nlink: u32,
    pub uid: u32,
    pub gid: u32,
    pub size: u64,
    pub blksize: u32,
    pub blocks: u64,
    pub atime_sec: i64,
    pub atime_nsec: i64,
    pub mtime_sec: i64,
    pub mtime_nsec: i64,
    pub ctime_sec: i64,
    pub ctime_nsec: i64,
    pub rdev: u64,
    pub file_type: FileType,
}

/// The metadata of an empty regular file with one link.
pub open spec fn default_kstat() -> Kstat {
    Kstat {
        ino: 0,
        mode: 0,
        nlink: 1,
        uid: 0,
        gid: 0,
        size: 0,
        blksize: 4096,
        blocks: 0,
        atime_sec: 0,
        atime_nsec: 0,
        mtime_sec: 0,
        mtime_nsec: 0,
        ctime_sec: 0,
        ctime_nsec: 0,
        rdev: 0,
        file_type: FileType::RegFile,
    }
}

impl Default for Kstat {
    fn default() -> (r: Self)
        ensures
            r == default_kstat(),
    {
        Kstat {
            ino: 0,
            mode: 0,
            nlink: 1,
            uid: 0,
            gid: 0,
            size: 0,
            blksize: 4096,
            blocks: 0,
            atime_sec: 0,
            atime_nsec: 0,
            mtime_sec: 0,
            mtime_nsec: 0,
            ctime_sec: 0,
            ctime_nsec: 0,
            rdev: 0,
            file_type: FileType::RegFile,
        }
    }
}

/// How a file was opened.
#[derive(Debug, Clone, Copy, PartialEq, Eq, Structural)]
pub struct OpenFlags(pub u32);

impl OpenFlags {
    #[allow(non_snake_case)]
    #[verifier::allow_in_spec]
    pub fn O_RDONLY() -> Self
        returns
            (OpenFlags(0x0)),
    {
        OpenFlags(0x0)
    }

    #[allow(non_snake_case)]
    #[verifier::allow_in_spec]
    pub fn O_WRONLY() -> Self
        returns
            (OpenFlags(0x1)),
    {
        OpenFlags(0x1)
    }

    #[allow(non_snake_case)]
    #[verifier::allow_in_spec]
    pub fn O_RDWR() -> Self
        returns
            (OpenFlags(0x2)),
    {
        OpenFlags(0x2)
    }

    #[allow(non_snake_case)]
    #[verifier::allow_in_spec]
    pub fn O_CREAT() -> Self
        returns
            (OpenFlags(0x40)),
    {
        OpenFlags(0x40)
    }

    #[allow(non_snake_case)]
    #[verifier::allow_in_spec]
    pub fn O_EXCL() -> Self
        returns
            (OpenFlags(0x80)),
    {
        OpenFlags(0x80)
    }

    #[allow(non_snake_case)]
    #[verifier::allow_in_spec]
    pub fn O_TRUNC() -> Self
        returns
            (OpenFlags(0x200)),
    {
        OpenFlags(0x200)
    }

    #[allow(non_snake_case)]
    #[verifier::allow_in_spec]
    pub fn O_APPEND() -> Self
        returns
            (OpenFlags(0x400)),
    {
        OpenFlags(0x400)
    }

    #[allow(non_snake_case)]
    #[verifier::allow_in_spec]
    pub fn O_DIRECTORY() -> Self
        returns
            (OpenFlags(0x10000)),
    {
        OpenFlags(0x10000)
    }

    pub fn empty() -> (r: Self)
        ensures
            r.0 == 0,
    {
        OpenFlags(0)
    }

    /// The flags with exactly these bits.
    pub fn from_raw(bits: u32) -> (r: Self)
        ensures
            r.0 == bits,
    {
        OpenFlags(bits)
    }

    pub fn bits(&self) -> (r: u32)
        ensures
            r == self.0,
    {
        self.0
    }

    /// Every bit of `other` is set.
    pub open spec fn has(self, other: OpenFlags) -> bool {
        self.0 & other.0 == other.0
    }

    pub fn contains(&self, other: Self) -> (r: bool)
        ensures
            r == self.has(other),
    {
        self.0 & other.0 == other.0
    }

    /// Opened for writing, alone or with reading.
    pub fn is_writable(&self) -> (r: bool)
        ensures
            r == (self.0 & 3 != 0),
    {
        self.0 & 3 != 0
    }

    /// Opened for reading and writing, or without any flag.
    pub fn is_readable(&self) -> (r: bool)
        ensures
            r == (self.0 & 2 != 0 || self.0 == 0),
    {
        self.0 & 2 != 0 || self.0 == 0
    }
}

impl core::ops::BitOr for OpenFlags {
    type Output = OpenFlags;

    fn bitor(self, rhs: Self) -> (r: Self) {
        OpenFlags(self.0 | rhs.0)
    }
}

impl vstd::std_specs::ops::BitOrSpecImpl for OpenFlags {
    open spec fn obeys_bitor_spec() -> bool {
        true
    }

    open spec fn bitor_req(self, rhs: Self) -> bool {
        true
    }

    open spec fn bitor_spec(self, rhs: Self) -> Self {
        OpenFlags(self.0 | rhs.0)
    }
}

/// Seek direction.
#[derive(Debug, Clone, Copy, PartialEq, Eq, Structural)]
pub enum SeekWhence {
    /// From the start of the file.
    Start,
    /// From the current position.
    Cur,
    /// From the end of the file.
    End,
}

/// POSIX error codes.
#[derive(Debug, Clone, Copy, PartialEq, Eq, Structural)]
pub enum Errno {
    EPERM,
    ENOENT,
    EIO,
    EBADF,
    ENOMEM,
    EACCES,
    EFAULT,
    EEXIST,
    ENODEV,
    ENOTDIR,
    EISDIR,
    EINVAL,
    ENOSPC,
    EROFS,
    ENOSYS,
    ENOTEMPTY,
}

impl Errno {
    /// Error number.
    pub open spec fn num(self) -> int {
        match self {
            Errno::EPERM => 1,
            Errno::ENOENT => 2,
            Errno::EIO => 5,
            Errno::EBADF => 9,
            Errno::ENOMEM => 12,
            Errno::EACCES => 13,
            Errno::EFAULT => 14,
            Errno::EEXIST => 17,
            Errno::ENODEV => 19,
            Errno::ENOTDIR => 20,
            Errno::EISDIR => 21,
            Errno::EINVAL => 22,
            Errno::ENOSPC => 28,
            Errno::EROFS => 30,
            Errno::ENOSYS => 38,
            Errno::ENOTEMPTY => 39,
        }
    }

    /// Error number.
    pub fn code(self) -> (r: i64)
        ensures
            r == self.num(),
            1 <= r <= 39,
    {
        match self {
            Errno::EPERM => 1,
            Errno::ENOENT => 2,
            Errno::EIO => 5,
            Errno::EBADF => 9,
            Errno::ENOMEM => 12,
            Errno::EACCES => 13,
            Errno::EFAULT => 14,
            Errno::EEXIST => 17,
            Errno::ENODEV => 19,
            Errno::ENOTDIR => 20,
            Errno::EISDIR => 21,
            Errno::EINVAL => 22,
            Errno::ENOSPC => 28,
            Errno::EROFS => 30,
            Errno::ENOSYS => 38,
            Errno::ENOTEMPTY => 39,
        }
    }

    /// What the error means, in words.
    pub open spec fn text(self) -> Seq<char> {
        match self {
            Errno::EPERM => "Operation not permitted"@,
            Errno::ENOENT => "No such file or directory"@,
            Errno::EIO => "I/O error"@,
            Errno::EBADF => "Bad file descriptor"@,
            Errno::ENOMEM => "Cannot allocate memory"@,
            Errno::EACCES => "Permission denied"@,
            Errno::EFAULT => "Bad address"@,
            Errno::EEXIST => "File exists"@,
            Errno::ENODEV => "No such device"@,
            Errno::ENOTDIR => "Not a directory"@,
            Errno::EISDIR => "Is a directory"@,
            Errno::EINVAL => "Invalid argument"@,
            Errno::ENOSPC => "No space left on device"@,
            Errno::EROFS => "Read-only file system"@,
            Errno::ENOSYS => "Function not implemented"@,
            Errno::ENOTEMPTY => "Directory not empty"@,
        }
    }

    /// What the error means, in words.
    pub fn message(self) -> (r: &'static str)
        ensures
            r@ == self.text(),
    {
        match self {
            Errno::EPERM => "Operation not permitted",
            Errno::ENOENT => "No such file or directory",
            Errno::EIO => "I/O error",
            Errno::EBADF => "Bad file descriptor",
            Errno::ENOMEM => "Cannot allocate memory",
            Errno::EACCES => "Permission denied",
            Errno::EFAULT => "Bad address",
            Errno::EEXIST => "File exists",
            Errno::ENODEV => "No such device",
            Errno::ENOTDIR => "Not a directory",
            Errno::EISDIR => "Is a directory",
            Errno::EINVAL => "Invalid argument",
            Errno::ENOSPC => "No space left on device",
            Errno::EROFS => "Read-only file system",
            Errno::ENOSYS => "Function not implemented",
            Errno::ENOTEMPTY => "Directory not empty",
        }
    }
}

pub type SyscallRet = Result<usize, Errno>;

/// Wall-clock timestamp.
#[derive(Debug, Clone, Copy, PartialEq, Eq, Structural)]
pub struct TimeSpec {
    pub sec: i64,
    pub nsec: i64,
}

/// The epoch.
pub open spec fn epoch() -> TimeSpec {
    TimeSpec { sec: 0, nsec: 0 }
}

impl TimeSpec {
    /// Return the current wall-clock time, which is the epoch as long as there
    /// is no clock driver.
    pub fn new_wall_time() -> (r: Self)
        ensures
            r == epoch(),
    {
        TimeSpec { sec: 0, nsec: 0 }
    }
}

/// User and group of the calling process: always root.
pub fn current_task_uid_gid() -> (r: (u32, u32))
    ensures
        r == (0u32, 0u32),
{
    (0, 0)
}

} // verus!
