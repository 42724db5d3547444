//! ELF executable loader: what to map where.
//!
//! `load_elf_bytes` reads the headers of a program file and plans the pages of
//! its address space: the pages of every loadable segment, anonymous pages for
//! the gaps between segments, and pages at the program break.  The caller
//! allocates the pages, fills them with `fill_segment_page` and maps them.
use vstd::prelude::*;
use crate::bytes;
use crate::kernel::{AddressSpaceId, MapFlags, ThreadId};
use crate::mm::server::{MmServer, MmServerModel};
use crate::proc::proc_table::{ProcessInfo, ProcessTable, TableModel};
use crate::proc::types::{ProcessId, ProcessPriority};
use crate::search;
use crate::task::types::TaskId;

verus! {

/// Page size (bytes).
const PAGE_SIZE: usize = 4096;

/// Default top of the user stack (grows down from here).
pub const USER_STACK_TOP: u64 = 0x7FFF_FFF1_0000;

/// Default number of 4 KiB pages for the initial user stack.
pub const USER_STACK_PAGES: usize = 32;

/// Default bottom of the user stack.
pub const USER_STACK_BOTTOM: u64 = 0x7FFF_FFEF_0000;

/// Fixed user-space address where the boot information is written.
pub const BOOTINFO_VA: usize = 0x208110;

/// Kernel stack size in bytes.
pub const KERNEL_STACK_SIZE: usize = 0x8000;

/// Most segments that are loaded.
const MAX_SEGMENTS: usize = 8;

// ---------------------------------------------------------------------------
// File headers
// ---------------------------------------------------------------------------

/// What the loader reads of the file header.
#[derive(Debug, Clone, Copy, PartialEq, Eq, Structural)]
pub struct ElfHeader {
    pub is_64: bool,
    pub entry: u64,
    pub ph_offset: u64,
    pub ph_entry_size: u16,
    pub ph_count: u16,
}

/// What a program header describes.
#[derive(Debug, Clone, Copy, PartialEq, Eq, Structural)]
pub enum SegmentKind {
    /// A segment to load.
    Load,
    /// The image of thread-local storage.
    Tls,
    Other,
}

/// What the loader reads of a program header.
#[derive(Debug, Clone, Copy, PartialEq, Eq, Structural)]
pub struct ProgramHeader {
    pub kind: SegmentKind,
    /// Access bits: 1 execute, 2 write, 4 read.
    pub flags: u32,
    pub offset: u64,
    pub vaddr: u64,
    pub file_size: u64,
    pub mem_size: u64,
}

/// The file starts with the magic number and a known class, and is long enough
/// for the header of its class.
pub open spec fn has_elf_header(b: Seq<u8>) -> bool {
    &&& b.len() >= 16
    &&& b[0] == 0x7f && b[1] == 0x45 && b[2] == 0x4c && b[3] == 0x46
    &&& (b[4] == 1 && b.len() >= 52) || (b[4] == 2 && b.len() >= 64)
}

/// The header of an ELF file.
pub open spec fn elf_header(b: Seq<u8>) -> Option<ElfHeader> {
    if !has_elf_header(b) {
        None
    } else if b[4] == 2 {
        Some(
            ElfHeader {
                is_64: true,
                entry: bytes::le64(b, 24) as u64,
                ph_offset: bytes::le64(b, 32) as u64,
                ph_entry_size: bytes::le16(b, 54) as u16,
                ph_count: bytes::le16(b, 56) as u16,
            },
        )
    } else {
        Some(
            ElfHeader {
                is_64: false,
                entry: bytes::le32(b, 24) as u64,
                ph_offset: bytes::le32(b, 28) as u64,
                ph_entry_size: bytes::le16(b, 42) as u16,
                ph_count: bytes::le16(b, 44) as u16,
            },
        )
    }
}

impl ElfHeader {
    /// The file has a program header of this index.
    pub open spec fn has_ph(self, i: int) -> bool {
        0 <= i < self.ph_count && self.ph_offset > 0 && self.ph_entry_size > 0
    }

    /// Where program header `i` starts.
    pub open spec fn ph_start(self, i: int) -> int {
        self.ph_offset + i * self.ph_entry_size
    }

    /// Program header `i` is large enough, suitably aligned and inside a file
    /// of `len` bytes.
    pub open spec fn ph_fits(self, len: int, i: int) -> bool {
        &&& self.ph_entry_size >= (if self.is_64 {
            56int
        } else {
            32
        })
        &&& self.ph_start(i) % (if self.is_64 {
            8int
        } else {
            4
        }) == 0
        &&& self.ph_start(i) + self.ph_entry_size <= len
    }

    /// Number of program headers.
    pub open spec fn ph_len(self) -> int {
        if self.ph_offset > 0 && self.ph_entry_size > 0 {
            self.ph_count as int
        } else {
            0
        }
    }
}

pub open spec fn kind_of(t: int) -> SegmentKind {
    if t == 1 {
        SegmentKind::Load
    } else if t == 7 {
        SegmentKind::Tls
    } else {
        SegmentKind::Other
    }
}

/// The program header that starts at `at`.
pub open spec fn ph_at(b: Seq<u8>, is_64: bool, at: int) -> ProgramHeader {
    if is_64 {
        ProgramHeader {
            kind: kind_of(bytes::le32(b, at)),
            flags: bytes::le32(b, at + 4) as u32,
            offset: bytes::le64(b, at + 8) as u64,
            vaddr: bytes::le64(b, at + 16) as u64,
            file_size: bytes::le64(b, at + 32) as u64,
            mem_size: bytes::le64(b, at + 40) as u64,
        }
    } else {
        ProgramHeader {
            kind: kind_of(bytes::le32(b, at)),
            flags: bytes::le32(b, at + 24) as u32,
            offset: bytes::le32(b, at + 4) as u64,
            vaddr: bytes::le32(b, at + 8) as u64,
            file_size: bytes::le32(b, at + 16) as u64,
            mem_size: bytes::le32(b, at + 20) as u64,
        }
    }
}

/// Every program header can be read.
pub open spec fn headers_fit(b: Seq<u8>) -> bool {
    elf_header(b) matches Some(h) ==> forall|i: int|
        0 <= i < h.ph_len() ==> #[trigger] h.ph_fits(b.len() as int, i)
}

/// The program headers of a file.
pub open spec fn program_headers_of(b: Seq<u8>) -> Seq<ProgramHeader> {
    match elf_header(b) {
        None => seq![],
        Some(h) => Seq::new(h.ph_len() as nat, |i: int| ph_at(b, h.is_64, h.ph_start(i))),
    }
}

/// `xmas_elf::ElfFile::new` and the getters of its header: nothing for a file
/// that is too short, has the wrong magic number or an unknown class; otherwise
/// the fields at the places that the class prescribes.
///
/// The fields are read in the byte order of the machine; the contract gives
/// the order of the little-endian machines that this library is for.  The call
/// asserts that the bytes start at an address that is a multiple of 8, so it is
/// given a copy of the bytes at such an address.
#[verifier::external_body]
fn parse_header(file: &[u8]) -> (r: Option<ElfHeader>)
    ensures
        r == elf_header(file@),
{
    let mut room: Vec<u8> = Vec::with_capacity(file.len() + 8);
    let at = room.as_ptr().align_offset(8);
    room.resize(at, 0);
    room.extend_from_slice(file);
    let elf = xmas_elf::ElfFile::new(&room[at..]).ok()?;
    let h = elf.header.pt2;
    Some(ElfHeader {
        is_64: matches!(h, xmas_elf::header::HeaderPt2::Header64(_)),
        entry: h.entry_point(),
        ph_offset: h.ph_offset(),
        ph_entry_size: h.ph_entry_size(),
        ph_count: h.ph_count(),
    })
}

/// `xmas_elf::ElfFile::program_header` and the getters of its result: the
/// fields of program header `index` at the places that the class prescribes.
///
/// Byte order and the copy at an aligned address are as for `parse_header`.
#[verifier::external_body]
fn parse_program_header(file: &[u8], index: u16) -> (r: Option<ProgramHeader>)
    requires
        elf_header(file@) is Some,
        elf_header(file@)->0.has_ph(index as int) ==> elf_header(file@)->0.ph_fits(
            file@.len() as int,
            index as int,
        ),
    ensures
        r == (if elf_header(file@)->0.has_ph(index as int) {
            Some(
                ph_at(
                    file@,
                    elf_header(file@)->0.is_64,
                    elf_header(file@)->0.ph_start(index as int),
                ),
            )
        } else {
            None
        }),
{
    let mut room: Vec<u8> = Vec::with_capacity(file.len() + 8);
    let at = room.as_ptr().align_offset(8);
    room.resize(at, 0);
    room.extend_from_slice(file);
    let elf = xmas_elf::ElfFile::new(&room[at..]).ok()?;
    let ph = elf.program_header(index).ok()?;
    let kind = match ph.get_type() {
        Ok(xmas_elf::program::Type::Load) => SegmentKind::Load,
        Ok(xmas_elf::program::Type::Tls) => SegmentKind::Tls,
        _ => SegmentKind::Other,
    };
    Some(ProgramHeader {
        kind, flags: ph.flags().0, offset: ph.offset(), vaddr: ph.virtual_addr(),
        file_size: ph.file_size(), mem_size: ph.mem_size(),
    })
}

/// The header of a file, from its first bytes.
pub fn read_header(file: &[u8]) -> (r: Option<ElfHeader>)
    ensures
        r == elf_header(file@),
{
    let n: usize = if file.len() < 64 {
        file.len()
    } else {
        64
    };
    let head = vstd::slice::slice_subrange(file, 0, n);
    proof {
        lemma_header_of_head(file@, n as int);
    }
    parse_header(head)
}

/// The header of a file stands in its first 64 bytes.
proof fn lemma_header_of_head(b: Seq<u8>, n: int)
    requires
        0 <= n <= b.len(),
        n >= 64 || n == b.len(),
    ensures
        elf_header(b.subrange(0, n)) == elf_header(b),
{
    let a = b.subrange(0, n);
    if b.len() < 64 {
        assert(a =~= b);
    } else {
        assert(forall|i: int| 0 <= i < 64 ==> a[i] == b[i]);
    }
}

proof fn lemma_ph_of_head(b: Seq<u8>, n: int, is_64: bool, at: int)
    requires
        0 <= at,
        at + (if is_64 {
            56int
        } else {
            32
        }) <= n <= b.len(),
    ensures
        ph_at(b.subrange(0, n), is_64, at) == ph_at(b, is_64, at),
{
    let a = b.subrange(0, n);
    assert(forall|i: int| 0 <= i < n ==> a[i] == b[i]);
}

/// Program header `index`, from the bytes up to its end.
fn read_program_header(file: &[u8], header: &ElfHeader, index: u16) -> (r: Option<ProgramHeader>)
    requires
        elf_header(file@) == Some(*header),
        header.has_ph(index as int) ==> header.ph_fits(file@.len() as int, index as int),
    ensures
        r == (if header.has_ph(index as int) {
            Some(ph_at(file@, header.is_64, header.ph_start(index as int)))
        } else {
            None
        }),
{
    if index >= header.ph_count || header.ph_offset == 0 || header.ph_entry_size == 0 {
        return None;
    }
    assert(header.has_ph(index as int));
    assert(0 <= index * header.ph_entry_size <= 0xFFFF * 0xFFFF) by (nonlinear_arith)
        requires
            0 <= index <= 0xFFFF,
            0 <= header.ph_entry_size <= 0xFFFF,
    ;
    let len: usize = file.len();
    let rel: u64 = index as u64 * header.ph_entry_size as u64;
    assert(header.ph_start(index as int) == header.ph_offset + rel);
    let end: usize = (header.ph_offset + rel + header.ph_entry_size as u64) as usize;
    let n: usize = if end >= 64 {
        end
    } else if len < 64 {
        len
    } else {
        64
    };
    let head = vstd::slice::slice_subrange(file, 0, n);
    proof {
        lemma_header_of_head(file@, n as int);
        assert(header.ph_fits(n as int, index as int));
        lemma_ph_of_head(file@, n as int, header.is_64, header.ph_start(index as int));
    }
    parse_program_header(head, index)
}

/// The program headers of a file that has a header.
pub fn program_headers(file: &[u8]) -> (r: Vec<ProgramHeader>)
    requires
        elf_header(file@) is Some,
        headers_fit(file@),
    ensures
        r@ == program_headers_of(file@),
{
    let ghost h = elf_header(file@)->0;
    let mut out: Vec<ProgramHeader> = Vec::new();
    let header = match read_header(file) {
        Some(header) => header,
        None => {
            return out;
        },
    };
    let count: u16 = header.ph_count;
    let mut i: u16 = 0;
    while i < count
        invariant_except_break
            out@.len() == i,
        invariant
            elf_header(file@) == Some(h),
            header == h,
            headers_fit(file@),
            count == h.ph_count,
            i <= count,
            i <= h.ph_len() || i == 0,
            out@ == program_headers_of(file@).take(out@.len() as int),
            out@.len() <= h.ph_len(),
        ensures
            out@.len() == h.ph_len(),
        decreases count - i,
    {
        match read_program_header(file, &header, i) {
            Some(ph) => {
                out.push(ph);
                assert(out@ =~= program_headers_of(file@).take(out@.len() as int));
            },
            None => {
                break;
            },
        }
        i += 1;
    }
    assert(out@ =~= program_headers_of(file@));
    out
}

// ---------------------------------------------------------------------------
// Segments
// ---------------------------------------------------------------------------

/// Start of the page that holds `v`.
pub open spec fn align_down(v: int) -> int {
    v - v % 4096
}

/// First page boundary at or above `v`.
pub open spec fn align_up(v: int) -> int {
    (v + 4095) / 4096 * 4096
}

fn page_align_down(v: usize) -> (r: usize)
    ensures
        r == align_down(v as int),
{
    v - v % PAGE_SIZE
}

fn page_align_up(v: usize) -> (r: usize)
    requires
        v + 4095 <= usize::MAX,
    ensures
        r == align_up(v as int),
{
    (v + (PAGE_SIZE - 1)) / PAGE_SIZE * PAGE_SIZE
}

/// A loadable segment.
#[derive(Debug, Clone, Copy, PartialEq, Eq, Structural)]
pub struct Segment {
    /// First page.
    pub start_page: usize,
    /// End of the last page.
    pub end_page: usize,
    /// Bytes that come from the file.
    pub file_size: usize,
    /// Where they start in the file.
    pub offset: usize,
    /// Where they go.
    pub vaddr: usize,
    /// Access to the pages.
    pub flags: MapFlags,
}

/// Access to a segment's pages: user mode, always writable (programs relocate
/// themselves at startup), readable and executable as the header says.
pub open spec fn segment_flags(flags: u32) -> int {
    10 + (if flags & 4 == 4 {
        1int
    } else {
        0
    }) + (if flags & 1 == 1 {
        4int
    } else {
        0
    })
}

fn elf_flags_to_mapf(flags: u32) -> (r: MapFlags)
    ensures
        r.0 == segment_flags(flags),
{
    let mut mf: u32 = MapFlags::USER + MapFlags::WRITE;
    if flags & 4 == 4 {
        mf = mf + MapFlags::READ;
    }
    if flags & 1 == 1 {
        mf = mf + MapFlags::EXEC;
    }
    MapFlags(mf)
}

/// End of a segment in memory.
pub open spec fn mem_end(ph: ProgramHeader) -> int {
    (ph.vaddr as usize) + (ph.mem_size as usize)
}

/// The segment that a program header describes.
pub open spec fn segment_of(ph: ProgramHeader) -> Segment {
    Segment {
        start_page: align_down((ph.vaddr as usize) as int) as usize,
        end_page: align_up(mem_end(ph)) as usize,
        file_size: ph.file_size as usize,
        offset: ph.offset as usize,
        vaddr: ph.vaddr as usize,
        flags: MapFlags(segment_flags(ph.flags) as u32),
    }
}

/// The loadable segments in the order of their headers.
pub open spec fn loads(phs: Seq<ProgramHeader>) -> Seq<Segment>
    decreases phs.len(),
{
    if phs.len() == 0 {
        seq![]
    } else if phs.last().kind == SegmentKind::Load {
        loads(phs.drop_last()).push(segment_of(phs.last()))
    } else {
        loads(phs.drop_last())
    }
}

/// The segments that are loaded: the first eight.
pub open spec fn loaded_segments(phs: Seq<ProgramHeader>) -> Seq<Segment> {
    if loads(phs).len() <= 8 {
        loads(phs)
    } else {
        loads(phs).take(8)
    }
}

/// The highest end of a loadable segment.
pub open spec fn data_end(phs: Seq<ProgramHeader>) -> int
    decreases phs.len(),
{
    if phs.len() == 0 {
        0
    } else {
        let rest = data_end(phs.drop_last());
        if phs.last().kind == SegmentKind::Load && mem_end(phs.last()) > rest {
            mem_end(phs.last())
        } else {
            rest
        }
    }
}

/// Size of the thread-local storage image; the last header counts.
pub open spec fn tls_size(phs: Seq<ProgramHeader>) -> int
    decreases phs.len(),
{
    if phs.len() == 0 {
        0
    } else if phs.last().kind == SegmentKind::Tls {
        (phs.last().mem_size as usize) as int
    } else {
        tls_size(phs.drop_last())
    }
}

/// Pages mapped at the program break: room for the main thread's control block
/// and thread-local storage, or four pages.
pub open spec fn brk_pages(phs: Seq<ProgramHeader>) -> int {
    if tls_size(phs) > 0 {
        (0x200 + tls_size(phs) + 4095) / 4096
    } else {
        4
    }
}

/// "Is loadable", as a predicate on program headers.
pub open spec fn is_load() -> spec_fn(ProgramHeader) -> bool {
    |ph: ProgramHeader| ph.kind == SegmentKind::Load
}

/// Address of the first loadable segment; 0 without one.
pub open spec fn first_load(phs: Seq<ProgramHeader>) -> int {
    match search::first_index(phs, is_load(), 0) {
        Some(i) => (phs[i].vaddr as usize) as int,
        None => 0,
    }
}

/// The addresses and offsets of a loadable segment do not overflow.
pub open spec fn in_range(ph: ProgramHeader) -> bool {
    ph.kind == SegmentKind::Load ==> {
        &&& mem_end(ph) + 4095 <= usize::MAX
        &&& (ph.vaddr as usize) + (ph.file_size as usize) <= usize::MAX
        &&& (ph.offset as usize) + (ph.file_size as usize) <= usize::MAX
    }
}

/// The file can be loaded: its headers can be read and no address overflows.
pub open spec fn loadable(b: Seq<u8>) -> bool {
    elf_header(b) is Some ==> {
        let phs = program_headers_of(b);
        &&& headers_fit(b)
        &&& forall|i: int| 0 <= i < phs.len() ==> in_range(#[trigger] phs[i])
        &&& 0x200 + tls_size(phs) + 4095 <= usize::MAX
        &&& align_up(data_end(phs)) + brk_pages(phs) * 4096 <= usize::MAX
        &&& first_load(phs) + (elf_header(b)->0.ph_offset as usize) <= usize::MAX
    }
}

/// What the headers add up to.
struct Summary {
    segments: Vec<Segment>,
    data_end: usize,
    tls_size: usize,
}

proof fn lemma_loads_step(phs: Seq<ProgramHeader>, i: int)
    requires
        0 <= i < phs.len(),
    ensures
        loads(phs.take(i + 1)) == (if phs[i].kind == SegmentKind::Load {
            loads(phs.take(i)).push(segment_of(phs[i]))
        } else {
            loads(phs.take(i))
        }),
        data_end(phs.take(i + 1)) == (if phs[i].kind == SegmentKind::Load && mem_end(phs[i])
            > data_end(phs.take(i)) {
            mem_end(phs[i])
        } else {
            data_end(phs.take(i))
        }),
        tls_size(phs.take(i + 1)) == (if phs[i].kind == SegmentKind::Tls {
            (phs[i].mem_size as usize) as int
        } else {
            tls_size(phs.take(i))
        }),
{
    assert(phs.take(i + 1).drop_last() =~= phs.take(i));
}

fn summarize(phs: &Vec<ProgramHeader>) -> (r: Summary)
    requires
        forall|i: int| 0 <= i < phs@.len() ==> in_range(#[trigger] phs@[i]),
    ensures
        r.segments@ == loaded_segments(phs@),
        r.data_end == data_end(phs@),
        r.data_end + 4095 <= usize::MAX,
        r.tls_size == tls_size(phs@),
{
    let mut segments: Vec<Segment> = Vec::new();
    let mut end: usize = 0;
    let mut tls: usize = 0;
    let mut i: usize = 0;
    while i < phs.len()
        invariant
            i <= phs@.len(),
            forall|k: int| 0 <= k < phs@.len() ==> in_range(#[trigger] phs@[k]),
            segments@ == loaded_segments(phs@.take(i as int)),
            end == data_end(phs@.take(i as int)),
            end + 4095 <= usize::MAX,
            tls == tls_size(phs@.take(i as int)),
        decreases phs@.len() - i,
    {
        let ph = phs[i];
        proof {
            lemma_loads_step(phs@, i as int);
            assert(in_range(phs@[i as int]));
        }
        if ph.kind == SegmentKind::Tls {
            tls = ph.mem_size as usize;
        } else if ph.kind == SegmentKind::Load {
            let vaddr: usize = ph.vaddr as usize;
            let seg_end: usize = vaddr + ph.mem_size as usize;
            if seg_end > end {
                end = seg_end;
            }
            if segments.len() < MAX_SEGMENTS {
                segments.push(
                    Segment {
                        start_page: page_align_down(vaddr),
                        end_page: page_align_up(seg_end),
                        file_size: ph.file_size as usize,
                        offset: ph.offset as usize,
                        vaddr,
                        flags: elf_flags_to_mapf(ph.flags),
                    },
                );
            }
            assert(segments@ =~= loaded_segments(phs@.take(i + 1)));
        }
        i += 1;
    }
    assert(phs@.take(phs@.len() as int) =~= phs@);
    Summary { segments, data_end: end, tls_size: tls }
}

/// True when every program header of the file can be read.
pub fn headers_readable(file: &[u8]) -> (r: bool)
    ensures
        r == headers_fit(file@),
{
    let header = match read_header(file) {
        Some(h) => h,
        None => return true,
    };
    let ghost h = header;
    if header.ph_offset == 0 || header.ph_entry_size == 0 {
        return true;
    }
    let min_size: u16 = if header.is_64 {
        56
    } else {
        32
    };
    let align: u64 = if header.is_64 {
        8
    } else {
        4
    };
    if header.ph_count > 0 && header.ph_entry_size < min_size {
        assert(!h.ph_fits(file@.len() as int, 0));
        return false;
    }
    let len: usize = file.len();
    let mut i: u16 = 0;
    while i < header.ph_count
        invariant
            h == header,
            elf_header(file@) == Some(h),
            len == file@.len(),
            i <= h.ph_count,
            h.ph_offset > 0 && h.ph_entry_size > 0,
            h.ph_count > 0 ==> h.ph_entry_size >= min_size,
            min_size == (if h.is_64 {
                56u16
            } else {
                32u16
            }),
            align == (if h.is_64 {
                8u64
            } else {
                4u64
            }),
            forall|k: int| 0 <= k < i ==> #[trigger] h.ph_fits(len as int, k),
        decreases h.ph_count - i,
    {
        assert(i * h.ph_entry_size <= 0xFFFF * 0xFFFF) by (nonlinear_arith)
            requires
                0 <= i <= 0xFFFF,
                0 <= h.ph_entry_size <= 0xFFFF,
        ;
        let rel: u64 = i as u64 * header.ph_entry_size as u64;
        let start: u128 = header.ph_offset as u128 + rel as u128;
        if start % (align as u128) != 0 || start + header.ph_entry_size as u128 > len as u128 {
            proof {
                let at = i as int;
                assert(0 <= at < h.ph_len());
                assert(!h.ph_fits(file@.len() as int, at));
                assert(elf_header(file@)->0.ph_fits(file@.len() as int, at) == false);
            }
            return false;
        }
        assert(h.ph_fits(len as int, i as int));
        i += 1;
    }
    true
}

/// True when the file can be loaded without an address overflow.
pub fn is_loadable(file: &[u8]) -> (r: bool)
    ensures
        r == loadable(file@),
{
    let header = match read_header(file) {
        Some(h) => h,
        None => return true,
    };
    if !headers_readable(file) {
        return false;
    }
    let phs = program_headers(file);
    assert(phs@ == program_headers_of(file@));
    // No address may overflow.
    let mut k: usize = 0;
    while k < phs.len()
        invariant
            k <= phs@.len(),
            phs@ == program_headers_of(file@),
            elf_header(file@) is Some,
            forall|j: int| 0 <= j < k ==> in_range(#[trigger] phs@[j]),
        decreases phs@.len() - k,
    {
        let ph = phs[k];
        if ph.kind == SegmentKind::Load {
            let vaddr: usize = ph.vaddr as usize;
            let mem: usize = ph.mem_size as usize;
            let data: usize = ph.file_size as usize;
            let offset: usize = ph.offset as usize;
            if vaddr > usize::MAX - mem || vaddr + mem > usize::MAX - 4095 || vaddr > usize::MAX - data
                || offset > usize::MAX - data {
                assert(!in_range(phs@[k as int]));
                return false;
            }
        }
        k += 1;
    }
    let sum = summarize(&phs);
    if sum.tls_size > usize::MAX - 0x200 - 4095 {
        return false;
    }
    let pages: usize = if sum.tls_size > 0 {
        (0x200 + sum.tls_size + 4095) / PAGE_SIZE
    } else {
        4
    };
    let brk: usize = page_align_up(sum.data_end);
    if pages > (usize::MAX - brk) / PAGE_SIZE {
        return false;
    }
    let first: usize = first_load_vaddr(&phs);
    first <= usize::MAX - header.ph_offset as usize
}

/// Address of the first loadable segment; 0 without one.
fn first_load_vaddr(phs: &Vec<ProgramHeader>) -> (r: usize)
    ensures
        r == first_load(phs@),
{
    let mut i: usize = 0;
    while i < phs.len()
        invariant
            i <= phs@.len(),
            search::first_index(phs@, is_load(), 0) == search::first_index(
                phs@,
                is_load(),
                i as int,
            ),
        decreases phs@.len() - i,
    {
        if phs[i].kind == SegmentKind::Load {
            return phs[i].vaddr as usize;
        }
        i += 1;
    }
    0
}

// ---------------------------------------------------------------------------
// The plan
// ---------------------------------------------------------------------------

/// Segments in ascending order of their first page.
pub open spec fn in_order(segs: Seq<Segment>) -> bool {
    forall|i: int, j: int|
        0 <= i <= j < segs.len() ==> (#[trigger] segs[i]).start_page <= (
        #[trigger] segs[j]).start_page
}

proof fn lemma_swap_multiset(s: Seq<Segment>, i: int, j: int)
    requires
        0 <= i < j < s.len(),
    ensures
        s.update(i, s[j]).update(j, s[i]).to_multiset() == s.to_multiset(),
{
    broadcast use vstd::seq_lib::group_to_multiset_ensures;
    broadcast use vstd::multiset::group_multiset_axioms;

    let a = s.remove(j);
    let b = a.remove(i);
    let c = b.insert(i, s[j]);
    let d = c.insert(j, s[i]);
    assert(d =~= s.update(i, s[j]).update(j, s[i]));
    assert(a[i] == s[i]);
    vstd::seq_lib::to_multiset_remove(s, j);
    vstd::seq_lib::to_multiset_remove(a, i);
    vstd::seq_lib::to_multiset_insert(b, i, s[j]);
    vstd::seq_lib::to_multiset_insert(c, j, s[i]);
    assert(s.to_multiset().count(s[j]) > 0);
    assert(a.to_multiset().count(s[i]) > 0);
    assert(d.to_multiset() =~= s.to_multiset());
}

/// Position `i` exchanged with each position from `j` on that holds a segment
/// which starts on a lower page.
pub open spec fn settled(segs: Seq<Segment>, i: int, j: int) -> Seq<Segment>
    decreases segs.len() - j,
{
    if !(0 <= i < j < segs.len()) {
        segs
    } else if segs[i].start_page > segs[j].start_page {
        settled(segs.update(i, segs[j]).update(j, segs[i]), i, j + 1)
    } else {
        settled(segs, i, j + 1)
    }
}

/// The positions from `i` on settled one after the other: the segments by their
/// first page; those that start on the same page in the order that the
/// exchanges leave them in.
pub open spec fn arranged(segs: Seq<Segment>, i: int) -> Seq<Segment>
    decreases segs.len() - i,
{
    if i >= segs.len() {
        segs
    } else {
        let next = settled(segs, i, i + 1);
        if next.len() == segs.len() {
            arranged(next, i + 1)
        } else {
            next
        }
    }
}

proof fn lemma_settled_len(segs: Seq<Segment>, i: int, j: int)
    ensures
        settled(segs, i, j).len() == segs.len(),
    decreases segs.len() - j,
{
    if 0 <= i < j < segs.len() {
        if segs[i].start_page > segs[j].start_page {
            lemma_settled_len(segs.update(i, segs[j]).update(j, segs[i]), i, j + 1);
        } else {
            lemma_settled_len(segs, i, j + 1);
        }
    }
}

/// Sorts the segments by their first page.  Segments that are in order already
/// keep their places.
fn sort_segments(segs: &mut Vec<Segment>)
    ensures
        final(segs)@ == arranged(old(segs)@, 0),
        in_order(final(segs)@),
        final(segs)@.len() == old(segs)@.len(),
        final(segs)@.to_multiset() == old(segs)@.to_multiset(),
        in_order(old(segs)@) ==> final(segs)@ == old(segs)@,
{
    let n: usize = segs.len();
    let mut i: usize = 0;
    while i < n
        invariant
            n == segs@.len(),
            n == old(segs)@.len(),
            i <= n,
            segs@.to_multiset() == old(segs)@.to_multiset(),
            in_order(old(segs)@) ==> segs@ == old(segs)@,
            arranged(segs@, i as int) == arranged(old(segs)@, 0),
            forall|a: int, b: int|
                0 <= a < i && a <= b < n ==> (#[trigger] segs@[a]).start_page <= (
                #[trigger] segs@[b]).start_page,
        decreases n - i,
    {
        let mut j: usize = i + 1;
        let ghost whole = settled(segs@, i as int, i + 1);
        proof {
            lemma_settled_len(segs@, i as int, i + 1);
        }
        while j < n
            invariant
                settled(segs@, i as int, j as int) == whole,
                n == segs@.len(),
                n == old(segs)@.len(),
                i < j <= n,
                segs@.to_multiset() == old(segs)@.to_multiset(),
                in_order(old(segs)@) ==> segs@ == old(segs)@,
                forall|a: int, b: int|
                    0 <= a < i && a <= b < n ==> (#[trigger] segs@[a]).start_page <= (
                    #[trigger] segs@[b]).start_page,
                forall|b: int| i < b < j ==> segs@[i as int].start_page <= (#[trigger] segs@[b]).start_page,
            decreases n - j,
        {
            if segs[i].start_page > segs[j].start_page {
                let ghost before = segs@;
                proof {
                    lemma_swap_multiset(before, i as int, j as int);
                    if in_order(old(segs)@) {
                        assert(before[i as int].start_page <= before[j as int].start_page);
                    }
                }
                let low = segs[j];
                let high = segs[i];
                segs.set(i, low);
                segs.set(j, high);
            }
            j += 1;
        }
        i += 1;
    }
}

/// Where the contents of a planned page come from.
#[derive(Debug, Clone, Copy, PartialEq, Eq, Structural)]
pub enum PageSource {
    /// A gap between two segments: zeros.
    Gap,
    /// The segment of this index.
    Segment(usize),
    /// The program break: zeros.
    Break,
}

/// One page to map.
#[derive(Debug, Clone, Copy, PartialEq, Eq, Structural)]
pub struct PagePlan {
    pub vaddr: usize,
    pub flags: MapFlags,
    pub source: PageSource,
}

impl PageSource {
    /// Error message when no physical page is left for the page.
    pub fn oom_message(self) -> (r: &'static str)
        ensures
            r@ == (match self {
                PageSource::Gap => "OOM filling segment gap"@,
                PageSource::Segment(_) => "OOM loading ELF segment"@,
                PageSource::Break => "OOM mapping brk area"@,
            }),
    {
        match self {
            PageSource::Gap => "OOM filling segment gap",
            PageSource::Segment(_) => "OOM loading ELF segment",
            PageSource::Break => "OOM mapping brk area",
        }
    }
}

/// Access to anonymous pages: read, write, user mode.
pub open spec fn anon_flags() -> MapFlags {
    MapFlags(11)
}

/// The pages from `start` up to `end`.
pub open spec fn page_run(start: int, end: int, flags: MapFlags, source: PageSource) -> Seq<
    PagePlan,
> {
    Seq::new(
        ((end - start) / 4096) as nat,
        |i: int| PagePlan { vaddr: (start + i * 4096) as usize, flags, source },
    )
}

/// The pages between segment `i` and the one before it.
pub open spec fn gap_pages(segs: Seq<Segment>, i: int) -> Seq<PagePlan> {
    if i > 0 && segs[i - 1].end_page > 0 && segs[i].start_page > segs[i - 1].end_page {
        page_run(
            segs[i - 1].end_page as int,
            segs[i].start_page as int,
            anon_flags(),
            PageSource::Gap,
        )
    } else {
        seq![]
    }
}

/// The pages of the first `n` segments and of the gaps between them.
pub open spec fn segment_pages(segs: Seq<Segment>, n: int) -> Seq<PagePlan>
    decreases n,
{
    if n <= 0 {
        seq![]
    } else {
        segment_pages(segs, n - 1) + gap_pages(segs, n - 1) + page_run(
            segs[n - 1].start_page as int,
            segs[n - 1].end_page as int,
            segs[n - 1].flags,
            PageSource::Segment((n - 1) as usize),
        )
    }
}

/// End of the last segment; 0 without one.
pub open spec fn last_end(segs: Seq<Segment>) -> int {
    if segs.len() == 0 {
        0
    } else {
        segs.last().end_page as int
    }
}

/// The pages at the program break.
pub open spec fn break_pages(segs: Seq<Segment>, brk: int, count: int) -> Seq<PagePlan> {
    if brk >= last_end(segs) {
        page_run(brk, brk + count * 4096, anon_flags(), PageSource::Break)
    } else {
        seq![]
    }
}

/// Result of loading an ELF binary into an address space.
#[derive(Debug, Clone, Copy, PartialEq, Eq, Structural)]
pub struct LoadedElf {
    /// Entry-point virtual address.
    pub entry: usize,
    /// First byte past the highest-mapped data address (candidate for `brk`).
    pub brk: usize,
    /// Virtual address of the program headers in memory.
    pub phdr_addr: usize,
    /// Size of each program header entry.
    pub phent_size: u16,
    /// Number of program header entries.
    pub phnum: u16,
}

/// What has to be mapped for a program, and what the program is told.
pub struct LoadPlan {
    /// The segments in ascending order.
    pub segments: Vec<Segment>,
    /// The pages in the order in which they are mapped.
    pub pages: Vec<PagePlan>,
    pub loaded: LoadedElf,
}

/// What a program with these headers is told.
pub open spec fn told(h: ElfHeader, phs: Seq<ProgramHeader>) -> LoadedElf {
    LoadedElf {
        entry: h.entry as usize,
        brk: align_up(data_end(phs)) as usize,
        phdr_addr: (first_load(phs) + (h.ph_offset as usize)) as usize,
        phent_size: h.ph_entry_size,
        phnum: h.ph_count,
    }
}

/// What loading the file tells the program.
pub open spec fn loaded_info(b: Seq<u8>) -> LoadedElf {
    told(elf_header(b)->0, program_headers_of(b))
}

/// `plan` is a plan for the file: its segments are those of the file in order
/// of address, as the exchanges of `arranged` leave them where several start on
/// one page, and its pages cover the segments, the gaps and the break.
pub open spec fn plans(b: Seq<u8>, plan: LoadPlan) -> bool {
    let phs = program_headers_of(b);
    let segs = plan.segments@;
    &&& in_order(segs)
    &&& segs.len() == loaded_segments(phs).len()
    &&& segs.to_multiset() == loaded_segments(phs).to_multiset()
    &&& in_order(loaded_segments(phs)) ==> segs == loaded_segments(phs)
    &&& segs == arranged(loaded_segments(phs), 0)
    &&& plan.pages@ == segment_pages(segs, segs.len() as int) + break_pages(
        segs,
        align_up(data_end(phs)),
        brk_pages(phs),
    )
    &&& plan.loaded == loaded_info(b)
}

fn push_pages(
    out: &mut Vec<PagePlan>,
    start: usize,
    end: usize,
    flags: MapFlags,
    source: PageSource,
)
    requires
        start % 4096 == 0,
        end % 4096 == 0,
        start <= end,
    ensures
        final(out)@ == old(out)@ + page_run(start as int, end as int, flags, source),
{
    let ghost run = page_run(start as int, end as int, flags, source);
    let mut va: usize = start;
    let ghost mut k: int = 0;
    assert(out@ =~= old(out)@ + run.take(0));
    while va < end
        invariant
            0 <= k <= run.len(),
            run.len() * 4096 == end - start,
            va == start + k * 4096,
            va <= end,
            run == page_run(start as int, end as int, flags, source),
            out@ == old(out)@ + run.take(k),
        decreases end - va,
    {
        out.push(PagePlan { vaddr: va, flags, source });
        proof {
            assert(out@ =~= old(out)@ + run.take(k + 1));
            k = k + 1;
        }
        va = if end - va > PAGE_SIZE {
            va + PAGE_SIZE
        } else {
            end
        };
    }
    assert(run.take(k) =~= run);
}

/// Every segment lies on page boundaries and ends after it starts.
pub open spec fn paged(segs: Seq<Segment>) -> bool {
    forall|i: int|
        0 <= i < segs.len() ==> (#[trigger] segs[i]).start_page % 4096 == 0 && segs[i].end_page % 4096
            == 0 && segs[i].start_page <= segs[i].end_page
}

proof fn lemma_loads_paged(phs: Seq<ProgramHeader>)
    requires
        forall|i: int| 0 <= i < phs.len() ==> in_range(#[trigger] phs[i]),
    ensures
        paged(loads(phs)),
    decreases phs.len(),
{
    if phs.len() > 0 {
        assert forall|i: int| 0 <= i < phs.drop_last().len() implies in_range(
            #[trigger] phs.drop_last()[i],
        ) by {
            assert(phs.drop_last()[i] == phs[i]);
        }
        lemma_loads_paged(phs.drop_last());
        assert(in_range(phs[phs.len() - 1]));
    }
}

proof fn lemma_paged_permutation(a: Seq<Segment>, b: Seq<Segment>)
    requires
        paged(a),
        a.to_multiset() == b.to_multiset(),
    ensures
        paged(b),
{
    broadcast use vstd::seq_lib::group_to_multiset_ensures;

    assert forall|i: int| 0 <= i < b.len() implies (#[trigger] b[i]).start_page % 4096 == 0
        && b[i].end_page % 4096 == 0 && b[i].start_page <= b[i].end_page by {
        assert(b.contains(b[i]));
        assert(b.to_multiset().count(b[i]) > 0);
        assert(a.contains(b[i]));
    }
}

/// The pages of the segments, of the gaps between them and of the break.
fn plan_pages(segments: &Vec<Segment>, brk: usize, count: usize) -> (pages: Vec<PagePlan>)
    requires
        paged(segments@),
        brk % 4096 == 0,
        brk + count * 4096 <= usize::MAX,
    ensures
        pages@ == segment_pages(segments@, segments@.len() as int) + break_pages(
            segments@,
            brk as int,
            count as int,
        ),
{
    let anon = MapFlags(MapFlags::READ + MapFlags::WRITE + MapFlags::USER);
    let mut pages: Vec<PagePlan> = Vec::new();
    let mut end: usize = 0;
    let mut i: usize = 0;
    assert(pages@ =~= segment_pages(segments@, 0));
    while i < segments.len()
        invariant
            i <= segments@.len(),
            paged(segments@),
            anon == anon_flags(),
            pages@ == segment_pages(segments@, i as int),
            end == (if i == 0 {
                0
            } else {
                segments@[i - 1].end_page
            }),
            end % 4096 == 0,
        decreases segments@.len() - i,
    {
        let seg = segments[i];
        assert(seg == segments@[i as int]);
        // Fill the gap between the previous segment and this one.
        if end > 0 && seg.start_page > end {
            push_pages(&mut pages, end, seg.start_page, anon, PageSource::Gap);
        }
        assert(pages@ =~= segment_pages(segments@, i as int) + gap_pages(segments@, i as int));
        push_pages(&mut pages, seg.start_page, seg.end_page, seg.flags, PageSource::Segment(i));
        end = seg.end_page;
        i += 1;
    }
    if brk >= end {
        push_pages(&mut pages, brk, brk + count * PAGE_SIZE, anon, PageSource::Break);
    }
    assert(pages@ =~= segment_pages(segments@, segments@.len() as int) + break_pages(
        segments@,
        brk as int,
        count as int,
    ));
    pages
}

/// Plan the pages of a program file.
///
/// Every page of a loadable segment is mapped with user-mode access derived
/// from the program header.  Any gaps between consecutive segments are filled
/// with anonymous zero pages, so that the whole range is covered, and pages at
/// the program break leave room for the main thread's storage.
pub fn load_elf_bytes(elf_bytes: &[u8]) -> (r: Result<LoadPlan, &'static str>)
    requires
        loadable(elf_bytes@),
    ensures
        elf_header(elf_bytes@) is None ==> r is Err && r->Err_0@ == "Invalid ELF magic"@,
        elf_header(elf_bytes@) is Some ==> r is Ok && plans(elf_bytes@, r->Ok_0),
{
    let header = match read_header(elf_bytes) {
        Some(h) => h,
        None => return Err("Invalid ELF magic"),
    };
    let entry: usize = header.entry as usize;
    // Phase 1: collect the segments.
    let phs = program_headers(elf_bytes);
    let sum = summarize(&phs);
    // Phase 2: sort them by their first page.
    let mut segments = sum.segments;
    proof {
        lemma_loads_paged(phs@);
        assert(paged(segments@));
    }
    let ghost unsorted = segments@;
    sort_segments(&mut segments);
    proof {
        lemma_paged_permutation(unsorted, segments@);
    }
    // Phase 3: plan the segments, the gaps and the pages at the break.
    let brk: usize = page_align_up(sum.data_end);
    let count: usize = if sum.tls_size > 0 {
        (0x200 + sum.tls_size + (PAGE_SIZE - 1)) / PAGE_SIZE
    } else {
        4
    };
    let pages = plan_pages(&segments, brk, count);
    let phdr_addr: usize = first_load_vaddr(&phs) + header.ph_offset as usize;
    Ok(
        LoadPlan {
            segments,
            pages,
            loaded: LoadedElf {
                entry,
                brk,
                phdr_addr,
                phent_size: header.ph_entry_size,
                phnum: header.ph_count,
            },
        },
    )
}

// ---------------------------------------------------------------------------
// Page contents
// ---------------------------------------------------------------------------

/// The larger of two numbers.
pub open spec fn larger(a: int, b: int) -> int {
    if a > b {
        a
    } else {
        b
    }
}

/// The smaller of two numbers.
pub open spec fn smaller(a: int, b: int) -> int {
    if a < b {
        a
    } else {
        b
    }
}

/// `page`, which stands at `page_va`, with the file data of a segment copied
/// in.  Data that the file is too short for is left out.
pub open spec fn with_data(
    page: Seq<u8>,
    page_va: int,
    seg_va: int,
    file_size: int,
    offset: int,
    file: Seq<u8>,
) -> Seq<u8> {
    let from = larger(page_va, seg_va);
    let to = smaller(page_va + 4096, seg_va + file_size);
    let file_from = offset + (from - seg_va);
    if from < to && file_from + (to - from) <= file.len() {
        bytes::splice(page, from - page_va, file.subrange(file_from, file_from + (to - from)))
    } else {
        page
    }
}

/// `page`, which stands at `page_va`, cleared from `data_end` up to `seg_end`.
pub open spec fn with_zeros(page: Seq<u8>, page_va: int, data_end: int, seg_end: int) -> Seq<u8> {
    let from = larger(page_va, data_end);
    let to = smaller(page_va + 4096, seg_end);
    if from < to {
        bytes::splice(page, from - page_va, bytes::zeros(to - from))
    } else {
        page
    }
}

/// Copy file data of a segment into a page.
///
/// * `page_va`: address of the page
/// * `seg_va`: address of the segment
/// * `seg_filesz`: file size of the segment
/// * `seg_offset`: file offset of the segment
pub fn copy_segment_data(
    page: &mut [u8],
    page_va: usize,
    seg_va: usize,
    seg_filesz: usize,
    seg_offset: usize,
    elf_bytes: &[u8],
)
    requires
        old(page)@.len() == 4096,
        page_va + 4096 <= usize::MAX,
        seg_va + seg_filesz <= usize::MAX,
        seg_offset + seg_filesz <= usize::MAX,
    ensures
        final(page)@ == with_data(
            old(page)@,
            page_va as int,
            seg_va as int,
            seg_filesz as int,
            seg_offset as int,
            elf_bytes@,
        ),
{
    let page_end: usize = page_va + PAGE_SIZE;
    let seg_data_end: usize = seg_va + seg_filesz;
    let copy_start: usize = if page_va > seg_va {
        page_va
    } else {
        seg_va
    };
    let copy_end: usize = if page_end < seg_data_end {
        page_end
    } else {
        seg_data_end
    };
    if copy_start >= copy_end {
        return;
    }
    let copy_len: usize = copy_end - copy_start;
    let file_off: usize = seg_offset + (copy_start - seg_va);
    if file_off + copy_len <= elf_bytes.len() {
        let part = vstd::slice::slice_subrange(elf_bytes, file_off, file_off + copy_len);
        bytes::copy_into(page, copy_start - page_va, part);
    }
}

/// Zero the part of a page that lies between `data_end` and `seg_end`.
pub fn zero_bss(page: &mut [u8], page_va: usize, data_end: usize, seg_end: usize)
    requires
        old(page)@.len() == 4096,
        page_va + 4096 <= usize::MAX,
    ensures
        final(page)@ == with_zeros(
            old(page)@,
            page_va as int,
            data_end as int,
            seg_end as int,
        ),
{
    let page_end: usize = page_va + PAGE_SIZE;
    let bss_start: usize = if page_va > data_end {
        page_va
    } else {
        data_end
    };
    let bss_finish: usize = if page_end < seg_end {
        page_end
    } else {
        seg_end
    };
    if bss_start < bss_finish {
        bytes::clear_range(page, bss_start - page_va, bss_finish - bss_start);
    }
}

/// Fill a fresh page of a segment: data from the file, then zeros up to the end
/// of the segment's last page.
pub fn fill_segment_page(page: &mut [u8], page_va: usize, seg: &Segment, elf_bytes: &[u8])
    requires
        old(page)@.len() == 4096,
        page_va + 4096 <= usize::MAX,
        seg.vaddr + seg.file_size <= usize::MAX,
        seg.offset + seg.file_size <= usize::MAX,
    ensures
        final(page)@ == filled(old(page)@, page_va as int, *seg, elf_bytes@),
{
    copy_segment_data(page, page_va, seg.vaddr, seg.file_size, seg.offset, elf_bytes);
    zero_bss(page, page_va, seg.vaddr + seg.file_size, seg.end_page);
}

/// A page of segment `seg` once it is filled.
pub open spec fn filled(page: Seq<u8>, page_va: int, seg: Segment, file: Seq<u8>) -> Seq<u8> {
    with_zeros(
        with_data(
            page,
            page_va,
            seg.vaddr as int,
            seg.file_size as int,
            seg.offset as int,
            file,
        ),
        page_va,
        seg.vaddr + seg.file_size,
        seg.end_page as int,
    )
}

/// Every address of a segment reads what the program file says: a byte of the
/// file where it has one, and zero above.
pub proof fn law_filled_page_reads_the_file(
    page: Seq<u8>,
    page_va: int,
    seg: Segment,
    file: Seq<u8>,
    va: int,
)
    requires
        page.len() == 4096,
        0 <= page_va,
        page_va <= va < page_va + 4096,
        seg.offset + seg.file_size <= file.len(),
    ensures
        seg.vaddr <= va < seg.vaddr + seg.file_size ==> filled(page, page_va, seg, file)[va
            - page_va] == file[seg.offset + (va - seg.vaddr)],
        seg.vaddr + seg.file_size <= va < seg.end_page ==> filled(page, page_va, seg, file)[va
            - page_va] == 0,
{
}

/// One of the pages holds address `x`.
pub open spec fn covers(pages: Seq<PagePlan>, x: int) -> bool {
    exists|k: int| 0 <= k < pages.len() && #[trigger] pages[k].vaddr <= x < pages[k].vaddr + 4096
}

proof fn lemma_covers_concat(a: Seq<PagePlan>, b: Seq<PagePlan>, x: int)
    requires
        covers(a, x) || covers(b, x),
    ensures
        covers(a + b, x),
{
    let c = a + b;
    if covers(a, x) {
        let k = choose|k: int|
            0 <= k < a.len() && #[trigger] a[k].vaddr <= x < a[k].vaddr + 4096;
        assert(c[k] == a[k]);
    } else {
        let k = choose|k: int|
            0 <= k < b.len() && #[trigger] b[k].vaddr <= x < b[k].vaddr + 4096;
        assert(c[a.len() + k] == b[k]);
    }
}

proof fn lemma_run_covers(start: int, end: int, flags: MapFlags, source: PageSource, x: int)
    requires
        0 <= start <= x < end <= usize::MAX,
        start % 4096 == 0,
        end % 4096 == 0,
    ensures
        covers(page_run(start, end, flags, source), x),
{
    let run = page_run(start, end, flags, source);
    let k = (x - start) / 4096;
    assert(run[k].vaddr == start + k * 4096);
}

/// The planned pages of the segments and gaps leave no hole between the first
/// segment and the end of the last.
pub proof fn law_pages_leave_no_hole(segs: Seq<Segment>, n: int, x: int)
    requires
        paged(segs),
        in_order(segs),
        0 < n <= segs.len(),
        forall|i: int| 0 <= i < segs.len() ==> (#[trigger] segs[i]).end_page > 0,
        segs[0].start_page <= x < segs[n - 1].end_page,
    ensures
        covers(segment_pages(segs, n), x),
    decreases n,
{
    let before = segment_pages(segs, n - 1);
    let gap = gap_pages(segs, n - 1);
    let s = segs[n - 1];
    let run = page_run(
        s.start_page as int,
        s.end_page as int,
        s.flags,
        PageSource::Segment((n - 1) as usize),
    );
    if n > 1 && x < segs[n - 2].end_page {
        law_pages_leave_no_hole(segs, n - 1, x);
        lemma_covers_concat(before, gap, x);
        lemma_covers_concat(before + gap, run, x);
    } else if x < s.start_page {
        let p = segs[n - 2];
        lemma_run_covers(
            p.end_page as int,
            s.start_page as int,
            anon_flags(),
            PageSource::Gap,
            x,
        );
        lemma_covers_concat(before, gap, x);
        lemma_covers_concat(before + gap, run, x);
    } else {
        lemma_run_covers(
            s.start_page as int,
            s.end_page as int,
            s.flags,
            PageSource::Segment((n - 1) as usize),
            x,
        );
        lemma_covers_concat(before + gap, run, x);
    }
}

// ---------------------------------------------------------------------------
// Stacks and threads
// ---------------------------------------------------------------------------

/// The pages of a user stack of `pages` pages from `stack_bottom` on.
pub fn map_user_stack_at(stack_bottom: usize, pages: usize) -> (r: Vec<PagePlan>)
    requires
        stack_bottom + pages * 4096 <= usize::MAX,
    ensures
        r@ == stack_pages(stack_bottom as int, pages as int),
{
    let anon = MapFlags(MapFlags::READ + MapFlags::WRITE + MapFlags::USER);
    let mut out: Vec<PagePlan> = Vec::new();
    let mut i: usize = 0;
    while i < pages
        invariant
            i <= pages,
            stack_bottom + pages * 4096 <= usize::MAX,
            anon == anon_flags(),
            out@ == stack_pages(stack_bottom as int, i as int),
        decreases pages - i,
    {
        out.push(
            PagePlan { vaddr: stack_bottom + i * PAGE_SIZE, flags: anon, source: PageSource::Gap },
        );
        assert(out@ =~= stack_pages(stack_bottom as int, i + 1));
        i += 1;
    }
    out
}

/// `n` anonymous pages from `bottom` on.
pub open spec fn stack_pages(bottom: int, n: int) -> Seq<PagePlan> {
    Seq::new(
        n as nat,
        |i: int|
            PagePlan {
                vaddr: (bottom + i * 4096) as usize,
                flags: anon_flags(),
                source: PageSource::Gap,
            },
    )
}

/// Where the initial frames of a new user thread go.
#[derive(Debug, Clone, Copy, PartialEq, Eq, Structural)]
pub struct ThreadFrames {
    /// Context that the scheduler switches to, at the top of the kernel stack.
    pub ctx_addr: usize,
    /// Trap frame, below the context.
    pub tf_addr: usize,
    /// Initial user stack pointer.
    pub user_sp: usize,
}

/// Lay out the kernel stack at `ks_base` for a user thread whose stack ends at
/// `stack_top`.
pub fn thread_frames(ks_base: usize, stack_top: usize) -> (r: ThreadFrames)
    requires
        ks_base + KERNEL_STACK_SIZE <= usize::MAX,
        stack_top >= 16,
    ensures
        r.ctx_addr == ks_base + 0x8000 - 128,
        r.tf_addr == ks_base + 0x8000 - 128 - 288,
        r.user_sp == stack_top - 16,
{
    let ks_top: usize = ks_base + KERNEL_STACK_SIZE;
    let ctx_addr: usize = ks_top - 128;
    ThreadFrames { ctx_addr, tf_addr: ctx_addr - 288, user_sp: stack_top - 16 }
}

/// The words of the initial context, each with its offset: where to resume, the
/// thread's control block, its trap frame and its page tables.
pub fn initial_context(
    trampoline: usize,
    tcb_addr: usize,
    tf_addr: usize,
    ttbr1: usize,
    ttbr0: usize,
) -> (r: [(usize, usize); 5])
    ensures
        r@ == seq![
            (0x00usize, trampoline),
            (0x08usize, tcb_addr),
            (0x10usize, tf_addr),
            (0x70usize, ttbr1),
            (0x78usize, ttbr0),
        ],
{
    let r: [(usize, usize); 5] = [
        (0x00, trampoline),
        (0x08, tcb_addr),
        (0x10, tf_addr),
        (0x70, ttbr1),
        (0x78, ttbr0),
    ];
    assert(r@ =~= seq![
        (0x00usize, trampoline),
        (0x08usize, tcb_addr),
        (0x10usize, tf_addr),
        (0x70usize, ttbr1),
        (0x78usize, ttbr0),
    ]);
    r
}

// ---------------------------------------------------------------------------
// Process registration
// ---------------------------------------------------------------------------

/// The memory regions of a program.
#[derive(Debug, Clone, Copy, PartialEq, Eq, Structural)]
pub struct Regions {
    pub code_start: usize,
    pub code_end: usize,
    pub data_start: usize,
    pub data_end: usize,
    pub heap_start: usize,
}

/// The header describes a loadable segment that is executable, or one that is
/// not, as `executable` says.
pub open spec fn counts_as(ph: ProgramHeader, executable: bool) -> bool {
    ph.kind == SegmentKind::Load && (ph.flags & 1 == 1) == executable
}

/// Lowest address of the segments of one sort; the largest number without one.
pub open spec fn lowest(phs: Seq<ProgramHeader>, executable: bool) -> int
    decreases phs.len(),
{
    if phs.len() == 0 {
        usize::MAX as int
    } else {
        let rest = lowest(phs.drop_last(), executable);
        if counts_as(phs.last(), executable) {
            smaller(rest, (phs.last().vaddr as usize) as int)
        } else {
            rest
        }
    }
}

/// Highest end of the segments of one sort; 0 without one.
pub open spec fn highest(phs: Seq<ProgramHeader>, executable: bool) -> int
    decreases phs.len(),
{
    if phs.len() == 0 {
        0
    } else {
        let rest = highest(phs.drop_last(), executable);
        if counts_as(phs.last(), executable) {
            larger(rest, mem_end(phs.last()))
        } else {
            rest
        }
    }
}

/// The regions of a program: page-aligned bounds of its executable segments and
/// of the others, and a heap above the data.
pub open spec fn regions_of(phs: Seq<ProgramHeader>) -> Regions {
    let code_end = align_up(highest(phs, true));
    let data_end = align_up(highest(phs, false));
    Regions {
        code_start: if lowest(phs, true) == usize::MAX {
            0
        } else {
            align_down(lowest(phs, true)) as usize
        },
        code_end: code_end as usize,
        data_start: if lowest(phs, false) == usize::MAX {
            code_end as usize
        } else {
            align_down(lowest(phs, false)) as usize
        },
        data_end: data_end as usize,
        heap_start: data_end as usize,
    }
}

proof fn lemma_bounds_step(phs: Seq<ProgramHeader>, i: int, executable: bool)
    requires
        0 <= i < phs.len(),
    ensures
        lowest(phs.take(i + 1), executable) == (if counts_as(phs[i], executable) {
            smaller(lowest(phs.take(i), executable), (phs[i].vaddr as usize) as int)
        } else {
            lowest(phs.take(i), executable)
        }),
        highest(phs.take(i + 1), executable) == (if counts_as(phs[i], executable) {
            larger(highest(phs.take(i), executable), mem_end(phs[i]))
        } else {
            highest(phs.take(i), executable)
        }),
{
    assert(phs.take(i + 1).drop_last() =~= phs.take(i));
}

/// Compute the memory regions of a program file.
#[verifier::rlimit(40)]
pub fn program_regions(elf_bytes: &[u8]) -> (r: Result<Regions, &'static str>)
    requires
        loadable(elf_bytes@),
    ensures
        elf_header(elf_bytes@) is None ==> r is Err && r->Err_0@ == "Invalid ELF format"@,
        elf_header(elf_bytes@) is Some ==> r == Ok::<Regions, &'static str>(
            regions_of(program_headers_of(elf_bytes@)),
        ),
{
    if read_header(elf_bytes).is_none() {
        return Err("Invalid ELF format");
    }
    let phs = program_headers(elf_bytes);
    let mut code_start: usize = usize::MAX;
    let mut code_end: usize = 0;
    let mut data_start: usize = usize::MAX;
    let mut data_end: usize = 0;
    let mut i: usize = 0;
    while i < phs.len()
        invariant
            i <= phs@.len(),
            forall|k: int| 0 <= k < phs@.len() ==> in_range(#[trigger] phs@[k]),
            code_start == lowest(phs@.take(i as int), true),
            code_end == highest(phs@.take(i as int), true),
            data_start == lowest(phs@.take(i as int), false),
            data_end == highest(phs@.take(i as int), false),
            code_end + 4095 <= usize::MAX,
            data_end + 4095 <= usize::MAX,
        decreases phs@.len() - i,
    {
        let ph = phs[i];
        proof {
            lemma_bounds_step(phs@, i as int, true);
            lemma_bounds_step(phs@, i as int, false);
            assert(in_range(phs@[i as int]));
        }
        if ph.kind == SegmentKind::Load {
            let vaddr: usize = ph.vaddr as usize;
            let seg_end: usize = vaddr + ph.mem_size as usize;
            if ph.flags & 1 == 1 {
                if vaddr < code_start {
                    code_start = vaddr;
                }
                if seg_end > code_end {
                    code_end = seg_end;
                }
            } else {
                if vaddr < data_start {
                    data_start = vaddr;
                }
                if seg_end > data_end {
                    data_end = seg_end;
                }
            }
        }
        i += 1;
    }
    assert(phs@.take(phs@.len() as int) =~= phs@);
    let code_end_page: usize = page_align_up(code_end);
    let data_end_page: usize = page_align_up(data_end);
    Ok(
        Regions {
            code_start: if code_start == usize::MAX {
                0
            } else {
                page_align_down(code_start)
            },
            code_end: code_end_page,
            data_start: if data_start == usize::MAX {
                code_end_page
            } else {
                page_align_down(data_start)
            },
            data_end: data_end_page,
            heap_start: data_end_page,
        },
    )
}

/// What the memory manager knows once it was told about a new program: process
/// 0 is registered and has the program's regions and stack.
pub open spec fn regions_entered(m: MmServerModel, regions: Regions) -> (
    MmServerModel,
    Result<(), Seq<char>>,
) {
    let slots = crate::mm::server::registered(
        m.slots,
        crate::mm::server::fresh_process(0, AddressSpaceId(0)),
    );
    let at = crate::mm::server::slot_of(slots, 0);
    let steps = crate::mm::server::initial_regions(
        regions.code_start,
        regions.code_end,
        regions.data_start,
        regions.data_end,
        USER_STACK_BOTTOM as usize,
        USER_STACK_TOP as usize,
        regions.heap_start,
    );
    if search::first_index(m.slots, crate::mm::server::vacant(), 0) is None {
        (m, Err("Failed to register with MM"@))
    } else {
        let (es, outcome) = crate::mm::vma::place_all(slots[at->0]->0.regions, steps);
        (
            MmServerModel { slots: crate::mm::server::with_regions(slots, at->0, es), ..m },
            match outcome {
                Ok(()) => Ok(()),
                Err(_) => Err("Failed to init VMAs"@),
            },
        )
    }
}

/// A result with its message as text.
pub open spec fn worded<T>(r: Result<T, &'static str>) -> Result<T, Seq<char>> {
    match r {
        Ok(v) => Ok(v),
        Err(e) => Err(e@),
    }
}

/// Tell the memory manager about a new program, whose process number is still
/// open: process 0 is registered and gets the program's regions and stack.
pub fn register_regions(mm: &mut MmServer, regions: &Regions) -> (r: Result<(), &'static str>)
    requires
        old(mm).wf(),
    ensures
        final(mm).wf(),
        (final(mm)@, worded(r)) == regions_entered(old(mm)@, *regions),
{
    let ghost slots0 = mm@.slots;
    let pid: u32 = 0;
    match mm.register_process(pid, AddressSpaceId(0)) {
        Ok(()) => {},
        Err(_) => return Err("Failed to register with MM"),
    }
    proof {
        lemma_registered_is_found(
            slots0,
            crate::mm::server::fresh_process(0, AddressSpaceId(0)),
        );
    }
    match mm.init_process_vma(
        pid,
        regions.code_start,
        regions.code_end,
        regions.data_start,
        regions.data_end,
        USER_STACK_BOTTOM as usize,
        USER_STACK_TOP as usize,
        regions.heap_start,
    ) {
        Ok(()) => Ok(()),
        Err(_) => Err("Failed to init VMAs"),
    }
}

proof fn lemma_registered_is_found(
    slots: Seq<Option<crate::mm::server::ProcessModel>>,
    p: crate::mm::server::ProcessModel,
)
    requires
        search::first_index(slots, crate::mm::server::vacant(), 0) is Some,
    ensures
        crate::mm::server::slot_of(crate::mm::server::registered(slots, p), p.pid) is Some,
{
    search::lemma_first_index(slots, crate::mm::server::vacant(), 0);
    let i = search::first_index(slots, crate::mm::server::vacant(), 0)->0;
    let new = crate::mm::server::registered(slots, p);
    assert(crate::mm::server::holds(p.pid)(new[i]));
    search::lemma_first_index(new, crate::mm::server::holds(p.pid), 0);
}

/// The process table with the record of a new program, named by its path.
pub open spec fn program_entered(t: TableModel, parent: ProcessId, path: Seq<u8>) -> (
    TableModel,
    Result<ProcessId, Seq<char>>,
) {
    if t.free_slot() is None {
        (t, Err("Process table full"@))
    } else {
        (
            t.inserted(
                crate::proc::proc_table::created(
                    ProcessId::NULL(),
                    path,
                    ProcessPriority::DEFAULT(),
                    AddressSpaceId(0),
                    parent,
                ),
            ),
            Ok(t.next_pid()),
        )
    }
}

/// Add the record of a new program, named by its path, to the process table.
pub fn register_program(table: &mut ProcessTable, parent: ProcessId, path: &[u8]) -> (r: Result<
    ProcessId,
    &'static str,
>)
    requires
        old(table).wf(),
    ensures
        final(table).wf(),
        (final(table)@, worded(r)) == program_entered(old(table)@, parent, path@),
{
    let info = ProcessInfo::new(
        ProcessId::NULL(),
        path,
        ProcessPriority::DEFAULT(),
        AddressSpaceId(0),
        parent,
    );
    match table.insert(info) {
        Ok(pid) => Ok(pid),
        Err(_) => Err("Process table full"),
    }
}

/// Attach the initial thread to a process.
pub fn attach_thread(table: &mut ProcessTable, pid: ProcessId, thread: ThreadId) -> (r: Result<
    (),
    &'static str,
>)
    requires
        old(table).wf(),
    ensures
        final(table).wf(),
        match old(table)@.lookup(pid) {
            None => r is Err && r->Err_0@ == "Process vanished after insert"@ && final(table)@
                == old(table)@,
            Some(info) => if info.threads.len() < crate::proc::proc_table::MAX_THREADS_PER_PROCESS {
                r is Ok && final(table)@ == old(table)@.with_info(
                    pid,
                    (crate::proc::proc_table::InfoModel {
                        threads: info.threads.push(TaskId(thread)),
                        ..info
                    }),
                )
            } else {
                r is Err && r->Err_0@ == "Thread list full"@ && final(table)@ == old(table)@.with_info(pid, info)
            },
        },
{
    match table.get_mut(pid) {
        Some(info) => match info.add_thread(TaskId(thread)) {
            Ok(()) => Ok(()),
            Err(()) => Err("Thread list full"),
        },
        None => Err("Process vanished after insert"),
    }
}

} // verus!
