use std::cell::RefCell;
use std::rc::Rc;

use quackos::fs::dentry::{Dentry, DentryFlags};
use quackos::fs::dev::urandom::UrandomInode;
use quackos::fs::file::{FdTable, File};
use quackos::fs::inode::InodeOp;
use quackos::fs::path::split_path;
use quackos::fs::protocol::{
    decode, encode, encode_count_op, encode_file_op, encode_lseek, encode_open, encode_write,
    finish, finish_open, finish_read, pack_words, unpack_words, FsReply, FsRequest, OP_CLOSE,
    OP_FSTAT, OP_READ,
};
use quackos::fs::server::FsServer;
use quackos::fs::types::{Errno, FileType, Kstat, OpenFlags, SeekWhence, SyscallRet};
use quackos::proc::program::read_program;

/// A file or directory in memory.
#[derive(Clone)]
enum Mem {
    File(Rc<RefCell<Vec<u8>>>),
    Dir(Rc<RefCell<Vec<(String, Mem)>>>),
}

fn file(data: &[u8]) -> Mem {
    Mem::File(Rc::new(RefCell::new(data.to_vec())))
}

fn dir(entries: Vec<(&str, Mem)>) -> Mem {
    Mem::Dir(Rc::new(RefCell::new(
        entries.into_iter().map(|(n, m)| (n.to_string(), m)).collect(),
    )))
}

impl Mem {
    fn add(&self, dentry: &mut Dentry<Mem>, m: Mem, ty: DentryFlags) {
        if let Mem::Dir(d) = self {
            d.borrow_mut().push((dentry.get_last_name(), m.clone()));
            dentry.inode = Some(m);
            dentry.flags.update_type_from_negative(ty);
        }
    }
}

impl InodeOp for Mem {
    fn read(&self, offset: usize, buf: &mut [u8]) -> usize {
        match self {
            Mem::File(d) => {
                let d = d.borrow();
                let from = offset.min(d.len());
                let n = buf.len().min(d.len() - from);
                buf[..n].copy_from_slice(&d[from..from + n]);
                n
            }
            Mem::Dir(_) => 0,
        }
    }

    fn write(&self, offset: usize, buf: &[u8]) -> usize {
        match self {
            Mem::File(d) => {
                let mut d = d.borrow_mut();
                if d.len() < offset + buf.len() {
                    d.resize(offset + buf.len(), 0);
                }
                d[offset..offset + buf.len()].copy_from_slice(buf);
                buf.len()
            }
            Mem::Dir(_) => 0,
        }
    }

    fn lookup(&self, name: &str, parent: usize, parent_path: &str) -> Dentry<Mem> {
        let path = format!("{}/{}", parent_path, name);
        if let Mem::Dir(d) = self {
            for (n, m) in d.borrow().iter() {
                if n == name {
                    let flags = match m {
                        Mem::File(_) => DentryFlags::REGULAR(),
                        Mem::Dir(_) => DentryFlags::DIRECTORY(),
                    };
                    return Dentry::new(path, Some(parent), flags, Some(m.clone()));
                }
            }
        }
        Dentry::negative(path, Some(parent))
    }

    fn create(&self, dentry: &mut Dentry<Mem>, _mode: u16) {
        self.add(dentry, file(&[]), DentryFlags::REGULAR());
    }

    fn mkdir(&self, dentry: &mut Dentry<Mem>, _mode: u16) {
        self.add(dentry, dir(vec![]), DentryFlags::DIRECTORY());
    }

    fn symlink(&self, _dentry: &mut Dentry<Mem>, _target: &str) {}

    fn mknod(&self, _dentry: &mut Dentry<Mem>, _mode: u16, _rdev: u64) {}

    fn unlink(&self, _dentry: &Dentry<Mem>) -> SyscallRet {
        Err(Errno::EPERM)
    }

    fn truncate(&self, _size: usize) -> SyscallRet {
        Ok(0)
    }

    fn fsync(&self) -> SyscallRet {
        Ok(0)
    }

    fn get_stat(&self) -> Kstat {
        let mut st = Kstat::default();
        st.size = self.get_size() as u64;
        st
    }

    fn get_size(&self) -> usize {
        match self {
            Mem::File(d) => d.borrow().len(),
            Mem::Dir(_) => 0,
        }
    }

    fn getdents(&self, offset: usize, buf: &mut [u8]) -> (usize, usize) {
        if offset == 0 && buf.len() >= 2 {
            buf[0] = 7;
            buf[1] = 8;
            (2, 1)
        } else {
            (0, offset)
        }
    }
}

fn server() -> FsServer<Mem> {
    let bin = dir(vec![("hello", file(b"hello, world"))]);
    FsServer::new(dir(vec![("bin", bin), ("motd", file(b"welcome"))]))
}

const RD: OpenFlags = OpenFlags(0);

#[test]
fn files_are_opened_read_and_closed() {
    let mut s = server();
    let fd = s.open(1, "/bin/hello", RD, 0).unwrap();
    assert_eq!(fd, 0);
    assert_eq!(s.read(1, fd, 5).unwrap(), b"hello");
    assert_eq!(s.read(1, fd, 100).unwrap(), b", world");
    assert_eq!(s.read(1, fd, 100).unwrap(), b"");
    assert_eq!(s.fstat(1, fd).unwrap().size, 12);
    assert_eq!(s.close(1, fd), Ok(()));
    assert_eq!(s.close(1, fd), Err(Errno::EBADF));
    assert_eq!(s.read(1, fd, 1), Err(Errno::EBADF));
}

#[test]
fn processes_have_their_own_descriptors() {
    let mut s = server();
    assert_eq!(s.open(1, "motd", RD, 0), Ok(0));
    assert_eq!(s.open(1, "motd", RD, 0), Ok(1));
    assert_eq!(s.open(2, "motd", RD, 0), Ok(0));
    assert_eq!(s.read(1, 0, 3).unwrap(), b"wel");
    assert_eq!(s.read(2, 0, 3).unwrap(), b"wel");
    assert_eq!(s.fstat(3, 0).unwrap_err(), Errno::EBADF);
}

#[test]
fn descriptors_run_out() {
    let mut s = server();
    for i in 0..256 {
        assert_eq!(s.open(1, "/motd", RD, 0), Ok(i));
    }
    assert_eq!(s.open(1, "/motd", RD, 0), Err(Errno::ENOMEM));
    s.close(1, 7).unwrap();
    assert_eq!(s.open(1, "/", RD, 0), Ok(7));
}

#[test]
fn missing_files_are_refused() {
    let mut s = server();
    assert_eq!(s.open(1, "/nothing", RD, 0), Err(Errno::ENOENT));
    assert_eq!(s.open(1, "/nothing/below", RD, 0), Err(Errno::ENOENT));
    assert_eq!(s.stat(1, "/nothing").unwrap_err(), Errno::ENOENT);
    assert_eq!(s.stat(1, "//bin//hello/").unwrap().size, 12);
    let fd = s.open(1, "/nothing", OpenFlags::O_CREAT(), 0).unwrap();
    assert_eq!(s.fstat(1, fd).unwrap_err(), Errno::EBADF);
    assert_eq!(s.read(1, fd, 4).unwrap(), b"");
    assert_eq!(s.write(1, fd, b"x"), Ok(0));
}

#[test]
fn files_and_directories_are_made() {
    let mut s = server();
    assert_eq!(s.mkdir(1, "/tmp", 0o755), Ok(()));
    assert_eq!(s.create(1, "/tmp/a", 0o644), Ok(()));
    assert_eq!(s.create(1, "/tmp/a", 0o644), Err(Errno::EEXIST));
    assert_eq!(s.mkdir(1, "/", 0o755), Err(Errno::EEXIST));
    assert_eq!(s.create(1, "/no/b", 0o644), Err(Errno::ENOENT));
    let fd = s.open(1, "/tmp/a", OpenFlags::O_RDWR(), 0).unwrap();
    assert_eq!(s.write(1, fd, b"data"), Ok(4));
    assert_eq!(s.lseek(1, fd, 0, SeekWhence::Start), Ok(0));
    assert_eq!(s.read(1, fd, 9).unwrap(), b"data");
}

#[test]
fn open_negative_entry_is_filled_by_create() {
    let mut s = server();
    let fd = s.open(1, "/new", OpenFlags::O_CREAT(), 0).unwrap();
    assert_eq!(s.create(1, "/new", 0o644), Ok(()));
    assert_eq!(s.write(1, fd, b"abc"), Ok(3));
    assert_eq!(s.stat(1, "/new").unwrap().size, 3);
}

#[test]
fn seeking_moves_and_wraps() {
    let mut s = server();
    let fd = s.open(1, "/motd", RD, 0).unwrap();
    assert_eq!(s.lseek(1, fd, 3, SeekWhence::Start), Ok(3));
    assert_eq!(s.lseek(1, fd, -1, SeekWhence::Cur), Ok(2));
    assert_eq!(s.lseek(1, fd, -2, SeekWhence::End), Ok(5));
    assert_eq!(s.read(1, fd, 9).unwrap(), b"me");
    assert_eq!(s.lseek(1, fd, -1, SeekWhence::Start), Ok(usize::MAX));
    assert_eq!(s.lseek(1, 99, 0, SeekWhence::Start), Err(Errno::EBADF));
}

#[test]
fn only_directories_are_listed() {
    let mut s = server();
    let d = s.open(1, "/bin", RD, 0).unwrap();
    let f = s.open(1, "/motd", RD, 0).unwrap();
    assert_eq!(s.getdents(1, d, 10).unwrap(), vec![7, 8]);
    assert_eq!(s.getdents(1, d, 10).unwrap(), Vec::<u8>::new());
    assert_eq!(s.getdents(1, f, 10), Err(Errno::ENOTDIR));
    assert_eq!(s.getdents(1, 77, 10), Err(Errno::EBADF));
    let mut buf = [0u8; 3];
    assert_eq!(s.read_to(1, f, &mut buf), Ok(3));
    assert_eq!(&buf, b"wel");
}

#[test]
fn requests_are_dispatched() {
    let mut s = server();
    assert_eq!(s.dispatch(&[]), vec![0u8; 8]);
    let r = s.dispatch(&encode_open(b"/bin/hello", 64));
    let fid = finish_open(0, &r).unwrap();
    assert_eq!(fid, 0);
    let r = s.dispatch(&encode_file_op(OP_FSTAT, fid, 64));
    assert_eq!(finish(0, &r), Ok(12));
    let r = s.dispatch(&encode_count_op(OP_READ, fid, 5, 64));
    let mut buf = [0u8; 5];
    assert_eq!(finish_read(0, &r, &mut buf), Ok(5));
    assert_eq!(&buf, b"hello");
    let r = s.dispatch(&encode_lseek(fid, -5, 2));
    assert_eq!(finish(0, &r), Ok(7));
    let r = s.dispatch(&encode_write(fid, b"W"));
    assert_eq!(finish(0, &r), Ok(1));
    let r = s.dispatch(&encode_lseek(fid, 0, 0));
    assert_eq!(finish(0, &r), Ok(0));
    let r = s.dispatch(&encode_count_op(OP_READ, fid, 1000, 64));
    let mut buf = [0u8; 48];
    assert_eq!(finish_read(0, &r, &mut buf), Ok(12));
    assert_eq!(&buf[..12], b"hello, World");
    let r = s.dispatch(&encode_file_op(OP_CLOSE, fid, 64));
    assert_eq!(finish(0, &r), Ok(0));
    let r = s.dispatch(&encode_file_op(OP_CLOSE, fid, 64));
    assert_eq!(finish(0, &r), Err(9));
    let r = s.dispatch(&encode_open(b"/none", 64));
    assert_eq!(finish_open(0, &r), Err(2));
    assert_eq!(finish(0, &s.dispatch(&[99])), Err(38));
    assert_eq!(finish(-3, &[0u8; 16]), Err(3));
    assert_eq!(finish_open(-4, &[0u8; 16]), Err(4));
    // Bytes that are not text open the root.
    let r = s.dispatch(&[1, 0, 0xFF, 0xFE, 0]);
    assert_eq!(finish_open(0, &r), Ok(0));
    let r = s.dispatch(&encode_count_op(OP_READ, u64::MAX, 5, 64));
    assert_eq!(finish(0, &r), Err(9));
}

#[test]
fn short_requests_have_zero_arguments() {
    assert!(matches!(decode(&[2]), FsRequest::Read { fd: 0, count: 0 }));
    assert!(matches!(decode(&[3, 1]), FsRequest::Close { fd: 0 }));
    assert!(matches!(
        decode(&[5, 1, 0, 0, 0, 0, 0, 0, 0]),
        FsRequest::Lseek { fd: 1, offset: 0, whence: SeekWhence::Start }
    ));
    let mut long = vec![6u8];
    long.extend_from_slice(&4u64.to_le_bytes());
    long.extend_from_slice(&2u64.to_le_bytes());
    long.extend_from_slice(b"abc");
    match decode(&long) {
        FsRequest::Write { fd, data } => {
            assert_eq!(fd, 4);
            assert_eq!(data, b"ab");
        }
        _ => panic!("not a write"),
    }
    assert_eq!(encode(&FsReply::Failed(Errno::EBADF))[..8], (-9i64).to_le_bytes());
    assert_eq!(encode(&FsReply::Done), vec![0u8; 64]);
}

#[test]
fn words_carry_bytes() {
    let data: Vec<u8> = (1..=70).collect();
    let (words, len) = pack_words(&data);
    assert_eq!(len, 64);
    assert_eq!(words[0], 0x0807_0605_0403_0201);
    assert_eq!(unpack_words(&words, len), data[..64]);
    let (words, len) = pack_words(&[1, 2, 3]);
    assert_eq!((words[0], len), (0x03_0201, 3));
    assert_eq!(unpack_words(&words, len), vec![1, 2, 3]);
    assert_eq!(unpack_words(&words, 200).len(), 64);
}

#[test]
fn paths_are_split_at_slashes() {
    assert_eq!(split_path("//usr/bin//sh/"), vec!["usr", "bin", "sh"]);
    assert!(split_path("///").is_empty());
    assert!(split_path("").is_empty());
    assert_eq!(split_path("\u{e9}t\u{e9}/x"), vec!["\u{e9}t\u{e9}", "x"]);
}

#[test]
fn urandom_gives_fixed_bytes() {
    let u = UrandomInode;
    let mut buf = [0u8; 3];
    assert_eq!(u.read(5, &mut buf), 3);
    assert_eq!(buf, [0xAA; 3]);
    assert_eq!(u.write(0, &[1]), 0);
    assert_eq!(u.get_stat().rdev, 0x0109);
    assert_eq!(u.get_stat().file_type, FileType::ChrDev);
    let d = u.lookup("x", 0, "/");
    assert!(d.is_negative());
    assert_eq!(u.unlink(&d), Err(Errno::EPERM));
    assert_eq!(u.getdents(0, &mut buf), (0, 0));
}

#[test]
fn descriptor_table_takes_the_lowest() {
    let mut t = FdTable::new();
    let f = File::new(3, RD);
    assert_eq!(t.alloc_fd(f), Some(0));
    assert_eq!(t.alloc_fd(f), Some(1));
    assert!(t.close(0));
    assert!(!t.close(0));
    assert!(!t.close(256));
    assert_eq!(t.alloc_fd(f), Some(0));
    assert_eq!(t.get_file(1), Some(f));
    assert_eq!(t.get_file(2), None);
}

#[test]
fn dentry_names_and_flags() {
    let mut d: Dentry<UrandomInode> = Dentry::negative("/usr/bin/bash".to_string(), None);
    assert_eq!(d.get_last_name(), "bash");
    d.children.insert("x".to_string(), 4);
    d.children.insert("x".to_string(), 5);
    assert_eq!(d.get_child("x"), Some(5));
    assert_eq!(d.get_child("y"), None);
    d.flags.insert(DentryFlags::MOUNT_POINT());
    d.flags.update_type_from_negative(DentryFlags::REGULAR());
    assert_eq!(d.flags, DentryFlags(0x22));
    let plain: Dentry<UrandomInode> = Dentry::negative("name".to_string(), None);
    assert_eq!(plain.get_last_name(), "name");
}

#[test]
fn programs_are_read_whole() {
    let mut s = server();
    assert_eq!(read_program(&mut s, 4, "/bin/hello").unwrap(), b"hello, world");
    assert_eq!(s.fstat(4, 0).unwrap_err(), Errno::EBADF);
    assert_eq!(read_program(&mut s, 4, "/bin/none"), Err("Failed to open ELF file"));
}
