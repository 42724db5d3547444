//! Starting a process: its program file is read, its pages are planned, and it is
//! entered into the tables.
use vstd::prelude::*;
use crate::fs::inode::InodeOp;
use crate::fs::path;
use crate::fs::server;
use crate::fs::server::{FsServer, ServerModel};
use crate::fs::tables;
use crate::fs::types::{Errno, Kstat, OpenFlags};
use crate::mm::server::MmServer;
use crate::proc::elf_loader;
use crate::proc::elf_loader::{worded, LoadPlan, Regions};
use crate::proc::proc_table::ProcessTable;
use crate::proc::types::ProcessId;

verus! {

/// How many bytes are asked for of a file whose size is `size`.
pub open spec fn asked_for(size: u64) -> int {
    if size <= usize::MAX {
        size as int
    } else {
        usize::MAX as int
    }
}

/// Reading an open file of known size may come to `r`; the file is closed after
/// it was read.
pub open spec fn read_done<I: InodeOp>(
    s: ServerModel<I>,
    s2: ServerModel<I>,
    pid: u32,
    fd: usize,
    size: u64,
    r: Result<Seq<u8>, Seq<char>>,
) -> bool {
    exists|s1: ServerModel<I>, d: Result<Seq<u8>, Errno>| #[trigger]
        server::read_new_outcome(s, s1, pid, fd as int, asked_for(size), d) && match d {
            Err(_) => s2 == s1 && r == Err::<Seq<u8>, Seq<char>>("Failed to read ELF"@),
            Ok(b) => s2 == server::close_outcome(s1, pid, fd as int).0 && r == Ok::<
                Seq<u8>,
                Seq<char>,
            >(b),
        }
}

/// Reading an open file may come to `r`.
pub open spec fn stat_done<I: InodeOp>(
    s: ServerModel<I>,
    s2: ServerModel<I>,
    pid: u32,
    fd: usize,
    r: Result<Seq<u8>, Seq<char>>,
) -> bool {
    exists|st: Result<Kstat, Errno>| #[trigger]
        server::fstat_outcome(s, pid, fd as int, st) && match st {
            Err(_) => s2 == s && r == Err::<Seq<u8>, Seq<char>>("Failed to stat ELF file"@),
            Ok(k) => read_done(s, s2, pid, fd, k.size, r),
        }
}

/// Reading a file by its path may come to `r`.
pub open spec fn program_read<I: InodeOp>(
    s: ServerModel<I>,
    s2: ServerModel<I>,
    pid: u32,
    p: Seq<char>,
    r: Result<Seq<u8>, Seq<char>>,
) -> bool {
    exists|s1: ServerModel<I>, fd: Result<usize, Errno>| #[trigger]
        server::opened(s, s1, p, pid, OpenFlags::O_RDONLY(), fd) && match fd {
            Err(_) => s2 == s1 && r == Err::<Seq<u8>, Seq<char>>("Failed to open ELF file"@),
            Ok(n) => stat_done(s1, s2, pid, n, r),
        }
}

/// The bytes or the text of a result.
pub open spec fn model_of(r: Result<Vec<u8>, &'static str>) -> Result<Seq<u8>, Seq<char>> {
    match r {
        Ok(v) => Ok(v@),
        Err(e) => Err(e@),
    }
}

fn read_open_file<I: InodeOp>(fs: &mut FsServer<I>, pid: u32, fd: usize, size: u64) -> (r: Result<
    Vec<u8>,
    &'static str,
>)
    requires
        old(fs).wf(),
        old(fs)@.tidy(),
    ensures
        final(fs).wf(),
        final(fs)@.tidy(),
        read_done(old(fs)@, final(fs)@, pid, fd, size, model_of(r)),
{
    let n: usize = if size <= usize::MAX as u64 {
        size as usize
    } else {
        usize::MAX
    };
    let ghost s = fs@;
    match fs.read(pid, fd, n) {
        Err(e) => {
            assert(server::read_new_outcome(s, fs@, pid, fd as int, asked_for(size), Err(e)));
            Err("Failed to read ELF")
        },
        Ok(data) => {
            let ghost s1 = fs@;
            assert(server::read_new_outcome(s, s1, pid, fd as int, asked_for(size), Ok(data@)));
            let _closed = fs.close(pid, fd);
            Ok(data)
        },
    }
}

/// Read a program file for a process: open it, ask for its size, read so many
/// bytes and close it.
pub fn read_program<I: InodeOp>(fs: &mut FsServer<I>, pid: u32, path: &str) -> (r: Result<
    Vec<u8>,
    &'static str,
>)
    requires
        old(fs).wf(),
        old(fs)@.tidy(),
        old(fs)@.cache.next + path::components(path@).len() <= usize::MAX,
    ensures
        final(fs).wf(),
        final(fs)@.tidy(),
        program_read(old(fs)@, final(fs)@, pid, path@, model_of(r)),
{
    let ghost s = fs@;
    let opened = fs.open(pid, path, OpenFlags::O_RDONLY(), 0);
    let ghost s1 = fs@;
    assert(server::opened(s, s1, path@, pid, OpenFlags::O_RDONLY(), opened));
    let fd: usize = match opened {
        Ok(fd) => fd,
        Err(_) => {
            return Err("Failed to open ELF file");
        },
    };
    let stat = fs.fstat(pid, fd);
    assert(server::fstat_outcome(s1, pid, fd as int, stat));
    match stat {
        Err(_) => {
            let r: Result<Vec<u8>, &'static str> = Err("Failed to stat ELF file");
            assert(stat_done(s1, fs@, pid, fd, model_of(r)));
            r
        },
        Ok(k) => {
            let r = read_open_file(fs, pid, fd, k.size);
            assert(stat_done(s1, fs@, pid, fd, model_of(r)));
            r
        },
    }
}

/// A file that was read is not left open.
pub proof fn law_file_is_closed_after_reading<I: InodeOp>(
    s: ServerModel<I>,
    s2: ServerModel<I>,
    pid: u32,
    fd: usize,
    size: u64,
    b: Seq<u8>,
)
    requires
        tables::sized(s.tables),
        read_done(s, s2, pid, fd, size, Ok(b)),
    ensures
        tables::file_of(s2.tables, pid, fd as int) is None,
{
    reveal(server::read_new_outcome);
    let (s1, d) = choose|s1: ServerModel<I>, d: Result<Seq<u8>, Errno>| #[trigger]
        server::read_new_outcome(s, s1, pid, fd as int, asked_for(size), d) && match d {
            Err(_) => s2 == s1 && Ok::<Seq<u8>, Seq<char>>(b) == Err::<Seq<u8>, Seq<char>>(
                "Failed to read ELF"@,
            ),
            Ok(b2) => s2 == server::close_outcome(s1, pid, fd as int).0 && Ok::<
                Seq<u8>,
                Seq<char>,
            >(b) == Ok::<Seq<u8>, Seq<char>>(b2),
        };
    crate::fs::server_laws::law_closed_is_closed(s1, pid, fd as int);
}

/// A program that is to be started: its regions, and what has to be mapped.
pub struct ProcessPlan {
    pub regions: Regions,
    pub load: LoadPlan,
}

/// Plan a process from its program file.
pub fn plan_process(file: &[u8]) -> (r: Result<ProcessPlan, &'static str>)
    requires
        elf_loader::loadable(file@),
    ensures
        match r {
            Ok(p) => {
                &&& elf_loader::elf_header(file@) is Some
                &&& p.regions == elf_loader::regions_of(elf_loader::program_headers_of(file@))
                &&& elf_loader::plans(file@, p.load)
            },
            Err(e) => elf_loader::elf_header(file@) is None && e@ == "Invalid ELF format"@,
        },
{
    let regions = match elf_loader::program_regions(file) {
        Ok(regions) => regions,
        Err(e) => return Err(e),
    };
    match elf_loader::load_elf_bytes(file) {
        Ok(load) => Ok(ProcessPlan { regions, load }),
        Err(e) => Err(e),
    }
}

/// Enter a process whose pages are mapped: its regions with the memory manager,
/// where there is one, and its record in the process table.
pub fn enter_process(
    mm: Option<&mut MmServer>,
    table: &mut ProcessTable,
    parent: ProcessId,
    path: &[u8],
    regions: &Regions,
) -> (r: Result<ProcessId, &'static str>)
    requires
        mm is Some ==> (mm->0).wf(),
        old(table).wf(),
    ensures
        final(table).wf(),
        mm is Some ==> final(mm->0).wf(),
        mm is Some ==> final(mm->0)@ == elf_loader::regions_entered((mm->0)@, *regions).0,
        match (mm, elf_loader::regions_entered((mm->0)@, *regions).1) {
            (Some(_), Err(e)) => worded(r) == Err::<ProcessId, Seq<char>>(e) && final(table)@
                == old(table)@,
            _ => (final(table)@, worded(r)) == elf_loader::program_entered(
                old(table)@,
                parent,
                path@,
            ),
        },
{
    match mm {
        Some(m) => match elf_loader::register_regions(m, regions) {
            Ok(()) => {},
            Err(e) => return Err(e),
        },
        None => {},
    }
    elf_loader::register_program(table, parent, path)
}

} // verus!
