//! Common types for the user-space memory manager.
use vstd::prelude::*;
use crate::kernel::{AddressSpaceId, MapFlags, ProcessId};

verus! {

/// Semantic category of a virtual-memory region.
#[derive(Debug, Clone, Copy, PartialEq, Eq, Structural)]
pub enum VmRegionType {
    /// Executable code (`.text`).
    Code,
    /// Initialised / uninitialised data (`.data`, `.bss`).
    Data,
    /// Dynamic heap (`brk` / `sbrk`).
    Heap,
    /// Main thread stack (grows downward).
    Stack,
    /// `mmap`-backed region (anonymous or file).
    Mmap,
    /// Guard page: accessing it always triggers a segmentation fault.
    Guard,
}

/// Page-level access permissions for a VMA.
#[derive(Debug, Clone, Copy, PartialEq, Eq, Structural)]
pub struct VmPerms {
    pub read: bool,
    pub write: bool,
    pub execute: bool,
}

impl VmPerms {
    /// Read only.
    #[allow(non_snake_case)]
    #[verifier::allow_in_spec]
    pub fn R() -> Self
        returns
            (VmPerms { read: true, write: false, execute: false }),
    {
        VmPerms { read: true, write: false, execute: false }
    }

    /// Read and write.
    #[allow(non_snake_case)]
    #[verifier::allow_in_spec]
    pub fn RW() -> Self
        returns
            (VmPerms { read: true, write: true, execute: false }),
    {
        VmPerms { read: true, write: true, execute: false }
    }

    /// Read and execute.
    #[allow(non_snake_case)]
    #[verifier::allow_in_spec]
    pub fn RX() -> Self
        returns
            (VmPerms { read: true, write: false, execute: true }),
    {
        VmPerms { read: true, write: false, execute: true }
    }

    /// Every access.
    #[allow(non_snake_case)]
    #[verifier::allow_in_spec]
    pub fn RWX() -> Self
        returns
            (VmPerms { read: true, write: true, execute: true }),
    {
        VmPerms { read: true, write: true, execute: true }
    }

    /// No access, used for guard pages.
    #[allow(non_snake_case)]
    #[verifier::allow_in_spec]
    pub fn NONE() -> Self
        returns
            (VmPerms { read: false, write: false, execute: false }),
    {
        VmPerms { read: false, write: false, execute: false }
    }

    /// The mask that `as_bits` returns: one bit per permission plus USER.
    pub open spec fn bits(self) -> int {
        (if self.read { 1int } else { 0 }) + (if self.write { 2int } else { 0 }) + (if self.execute {
            4int
        } else {
            0
        }) + 8
    }

    /// Convert to kernel-side `MapFlags`, always adding the USER bit so the
    /// mapping is accessible from user mode.
    pub fn to_map_flags(&self) -> (r: MapFlags)
        ensures
            r.0 == self.bits(),
            r.has(MapFlags::READ) == self.read,
            r.has(MapFlags::WRITE) == self.write,
            r.has(MapFlags::EXEC) == self.execute,
            r.has(MapFlags::USER),
    {
        let mut f = MapFlags::empty();
        if self.read {
            f.0 = f.0 | MapFlags::READ;
        }
        if self.write {
            f.0 = f.0 | MapFlags::WRITE;
        }
        if self.execute {
            f.0 = f.0 | MapFlags::EXEC;
        }
        f.0 = f.0 | MapFlags::USER;
        proof {
            let (r, w, x) = (self.read, self.write, self.execute);
            let b: u32 = f.0;
            let i0: u32 = if r { 0u32 | 1u32 } else { 0u32 };
            let i1: u32 = if w { i0 | 2u32 } else { i0 };
            let i2: u32 = if x { i1 | 4u32 } else { i1 };
            assert(b == i2 | 8u32);
            assert((b & 1u32 == 1u32) == r && (b & 2u32 == 2u32) == w && (b & 4u32 == 4u32) == x && (b
                & 8u32 == 8u32) && b == (if r { 1u32 } else { 0u32 }) + (if w { 2u32 } else { 0u32 })
                + (if x { 4u32 } else { 0u32 }) + 8) by (bit_vector)
                requires
                    i0 == (if r { 0u32 | 1u32 } else { 0u32 }),
                    i1 == (if w { i0 | 2u32 } else { i0 }),
                    i2 == (if x { i1 | 4u32 } else { i1 }),
                    b == i2 | 8u32,
            ;
        }
        f
    }

    /// Return the raw bitmask suitable for IPC request payloads.
    pub fn as_bits(&self) -> (r: usize)
        ensures
            r == self.bits(),
    {
        self.to_map_flags().0 as usize
    }
}

/// A single contiguous virtual-memory region.
///
/// `[start_vaddr, end_vaddr)`: the region is half-open.
#[derive(Debug, Clone, Copy, PartialEq, Eq, Structural)]
pub struct VmaEntry {
    /// Start virtual address (page-aligned).
    pub start_vaddr: usize,
    /// End virtual address (page-aligned, exclusive).
    pub end_vaddr: usize,
    /// Access permissions.
    pub perms: VmPerms,
    /// Region category.
    pub region_type: VmRegionType,
    /// Offset into a backing file for file-backed mmaps; 0 for anonymous.
    pub backing_offset: usize,
    /// Whether this VMA tracks Copy-on-Write semantics.
    pub cow: bool,
}

impl VmaEntry {
    /// `vaddr` falls within the region.
    pub open spec fn covers(self, vaddr: int) -> bool {
        self.start_vaddr <= vaddr < self.end_vaddr
    }

    /// Every access in `needs` is granted.
    pub open spec fn grants(self, needs: VmPerms) -> bool {
        &&& needs.read ==> self.perms.read
        &&& needs.write ==> self.perms.write
        &&& needs.execute ==> self.perms.execute
    }

    /// Size of the region in bytes.
    pub fn len(&self) -> (r: usize)
        requires
            self.start_vaddr <= self.end_vaddr,
        ensures
            r == self.end_vaddr - self.start_vaddr,
    {
        self.end_vaddr - self.start_vaddr
    }

    /// True when the region is empty.
    pub fn is_empty(&self) -> (r: bool)
        ensures
            r == (self.start_vaddr >= self.end_vaddr),
    {
        self.start_vaddr >= self.end_vaddr
    }

    /// True when `vaddr` falls within this region.
    pub fn contains(&self, vaddr: usize) -> (r: bool)
        ensures
            r == self.covers(vaddr as int),
    {
        vaddr >= self.start_vaddr && vaddr < self.end_vaddr
    }

    /// True when this region is a guard page.
    pub fn is_guard(&self) -> (r: bool)
        ensures
            r == (self.region_type == VmRegionType::Guard),
    {
        self.region_type == VmRegionType::Guard
    }

    /// True when `perms` satisfies the requested access for this region.
    pub fn permits(&self, needs: VmPerms) -> (r: bool)
        ensures
            r == self.grants(needs),
    {
        (!needs.read || self.perms.read) && (!needs.write || self.perms.write) && (!needs.execute
            || self.perms.execute)
    }

    /// Readable description for debug output.
    pub fn desc(&self) -> (r: &'static str)
        ensures
            self.region_type == VmRegionType::Code ==> r@ == "code"@,
            self.region_type == VmRegionType::Data ==> r@ == "data"@,
            self.region_type == VmRegionType::Heap ==> r@ == "heap"@,
            self.region_type == VmRegionType::Stack ==> r@ == "stack"@,
            self.region_type == VmRegionType::Mmap ==> r@ == "mmap"@,
            self.region_type == VmRegionType::Guard ==> r@ == "guard"@,
    {
        match self.region_type {
            VmRegionType::Code => "code",
            VmRegionType::Data => "data",
            VmRegionType::Heap => "heap",
            VmRegionType::Stack => "stack",
            VmRegionType::Mmap => "mmap",
            VmRegionType::Guard => "guard",
        }
    }
}

/// Errors returned by the user-space memory manager.
#[derive(Debug, Clone, Copy, PartialEq, Eq, Structural)]
pub enum MmError {
    /// No VMA covers the faulting address.
    NoVma,
    /// The accessing VMA exists but lacks the required permissions.
    PermissionDenied,
    /// Physical memory exhausted, or a table is full.
    OutOfMemory,
    /// The address is already mapped (double-map attempt).
    AlreadyMapped,
    /// The address is not mapped (unmap of unmapped address).
    NotMapped,
    /// Invalid argument (null pointer, bad alignment, ...).
    InvalidArgument,
    /// VMA ranges overlap, insertion refused.
    VmaOverlap,
}

/// Convenience alias.
pub type MmResult<T> = Result<T, MmError>;

/// What the memory manager does when no physical page is left.
#[derive(Debug, Clone, Copy, PartialEq, Eq, Structural)]
pub enum OomPolicy {
    /// Immediately send a kill signal to the faulting process.
    Kill,
    /// Attempt page reclamation; reserved for future swap support.
    Reclaim,
    /// Try reclamation first; kill the process if it fails.
    ReclaimThenKill,
}

impl Default for OomPolicy {
    fn default() -> (r: Self)
        ensures
            r == OomPolicy::ReclaimThenKill,
    {
        OomPolicy::ReclaimThenKill
    }
}

/// A request the mm server sends to the kernel.
#[derive(Debug, Clone, Copy, PartialEq, Eq, Structural)]
pub enum MmRequest {
    /// Map a single page.
    MapSingle { addr_space_id: AddressSpaceId, vaddr: usize, paddr: usize, flags: usize },
    /// Unmap a single page.
    UnmapSingle { addr_space_id: AddressSpaceId, vaddr: usize },
    /// Transfer a physical frame from one address space to another.
    Grant { src_asid: AddressSpaceId, dst_asid: AddressSpaceId, vaddr: usize, flags: usize },
    /// Kill a process (out of memory / segmentation fault).
    KillProcess { pid: ProcessId },
}

/// Maximum number of pages mapped in a single prefault batch: the faulting
/// page and the pages that follow it.
pub const PREFAULT_BATCH: usize = 5;

/// A single entry in a batch-map request.
#[derive(Debug, Clone, Copy, PartialEq, Eq, Structural)]
pub struct BatchMapping {
    pub vaddr: usize,
    pub paddr: usize,
    pub flags: usize,
}

impl Default for BatchMapping {
    fn default() -> (r: Self)
        ensures
            r == (BatchMapping { vaddr: 0, paddr: 0, flags: 0 }),
    {
        BatchMapping { vaddr: 0, paddr: 0, flags: 0 }
    }
}

/// Fixed-size batch of mapping requests; the first `count` entries are valid.
#[derive(Debug, Clone, Copy)]
pub struct BatchMappingArray {
    pub entries: [BatchMapping; PREFAULT_BATCH],
    pub count: u8,
}

impl View for BatchMappingArray {
    type V = Seq<BatchMapping>;

    /// The valid entries, oldest first.
    open spec fn view(&self) -> Seq<BatchMapping> {
        self.entries@.take(self.count as int)
    }
}

impl BatchMappingArray {
    /// The count stays within the array.
    pub open spec fn wf(self) -> bool {
        self.count <= PREFAULT_BATCH
    }

    pub fn new() -> (r: Self)
        ensures
            r.wf(),
            r@ == Seq::<BatchMapping>::empty(),
    {
        BatchMappingArray {
            entries: [BatchMapping { vaddr: 0, paddr: 0, flags: 0 };PREFAULT_BATCH],
            count: 0,
        }
    }

    /// Append one mapping; a full batch stays as it is.
    pub fn push(&mut self, vaddr: usize, paddr: usize, flags: usize)
        requires
            old(self).wf(),
        ensures
            final(self).wf(),
            final(self)@ == (if old(self)@.len() < PREFAULT_BATCH {
                old(self)@.push((BatchMapping { vaddr, paddr, flags }))
            } else {
                old(self)@
            }),
    {
        if (self.count as usize) < PREFAULT_BATCH {
            self.entries[self.count as usize] = BatchMapping { vaddr, paddr, flags };
            self.count = self.count + 1;
            assert(self@ =~= old(self)@.push(BatchMapping { vaddr, paddr, flags }));
        }
    }

    pub fn is_empty(&self) -> (r: bool)
        requires
            self.wf(),
        ensures
            r == (self@.len() == 0),
    {
        self.count == 0
    }

    /// The valid entries, in the order in which they were pushed.
    pub fn iter(&self) -> (r: Vec<BatchMapping>)
        requires
            self.wf(),
        ensures
            r@ == self@,
    {
        let mut out: Vec<BatchMapping> = Vec::new();
        let mut i: usize = 0;
        while i < self.count as usize
            invariant
                self.wf(),
                i <= self.count,
                out@ == self.entries@.take(i as int),
            decreases self.count - i,
        {
            out.push(self.entries[i]);
            assert(self.entries@.take(i as int).push(self.entries@[i as int]) =~= self.entries@.take(
                i + 1,
            ));
            i += 1;
        }
        out
    }
}

/// Opcode stored in the first word of a short message to tell the kernel which
/// request is being sent.
#[derive(Debug, Clone, Copy, PartialEq, Eq, Structural)]
pub enum MmRequestOp {
    MapSingle,
    UnmapSingle,
    Grant,
    KillProcess,
}

impl MmRequestOp {
    /// Wire number of the opcode.
    pub fn code(self) -> (r: u8)
        ensures
            r == (match self {
                MmRequestOp::MapSingle => 1u8,
                MmRequestOp::UnmapSingle => 2u8,
                MmRequestOp::Grant => 3u8,
                MmRequestOp::KillProcess => 4u8,
            }),
    {
        match self {
            MmRequestOp::MapSingle => 1,
            MmRequestOp::UnmapSingle => 2,
            MmRequestOp::Grant => 3,
            MmRequestOp::KillProcess => 4,
        }
    }
}

} // verus!
