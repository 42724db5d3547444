//! Plain vocabulary shared with the kernel: identifiers, mapping flags and the
//! messages that cross the user/kernel boundary.
use vstd::prelude::*;

verus! {

/// Kernel-side process number, as carried in IPC messages.
pub type ProcessId = u32;

/// Identifies one address space of the kernel's memory mechanism.
#[derive(Clone, Copy, Debug, PartialEq, Eq, Structural)]
pub struct AddressSpaceId(pub usize);

/// Identifies one IPC channel.
#[derive(Clone, Copy, Debug, PartialEq, Eq, Structural)]
pub struct ChannelId(pub u32);

/// Access bits of a page mapping.
#[derive(Clone, Copy, Debug, PartialEq, Eq, Structural)]
pub struct MapFlags(pub u32);

impl MapFlags {
    pub const READ: u32 = 1;
    pub const WRITE: u32 = 2;
    pub const EXEC: u32 = 4;
    pub const USER: u32 = 8;

    /// No access at all.
    pub fn empty() -> (r: Self)
        ensures
            r.0 == 0,
    {
        MapFlags(0)
    }

    /// True when every bit of `bits` is set.
    pub open spec fn has(self, bits: u32) -> bool {
        self.0 & bits == bits
    }
}

/// The kind of access that faulted.
#[derive(Clone, Copy, Debug, PartialEq, Eq, Structural)]
pub enum PageFaultCause {
    Load,
    Store,
    Exec,
}

/// Page-fault report delivered by the kernel.
#[derive(Clone, Copy, Debug, PartialEq, Eq, Structural)]
pub struct IpcPageFault {
    pub addr_space_id: AddressSpaceId,
    pub fault_vaddr: usize,
    pub cause: PageFaultCause,
}

/// Kernel thread handle: generation in the upper half, slot index in the lower.
#[derive(Clone, Copy, Debug, PartialEq, Eq, Structural)]
pub struct ThreadId(pub u32);

impl ThreadId {
    /// The null / invalid thread ID.  Never allocated.
    #[allow(non_snake_case)]
    #[verifier::allow_in_spec]
    pub fn NULL() -> Self
        returns
            (ThreadId(0)),
    {
        ThreadId(0)
    }

    /// Construct a thread ID from an index and generation.
    pub fn new(index: u16, generation: u16) -> (r: Self)
        ensures
            r.0 == generation * 0x1_0000 + index,
    {
        let g: u32 = generation as u32;
        let i: u32 = index as u32;
        assert((g << 16) | i == g * 0x1_0000 + i) by (bit_vector)
            requires
                g < 0x1_0000,
                i < 0x1_0000,
        ;
        ThreadId((g << 16) | i)
    }

    /// Extract the slot index.
    pub fn index(self) -> (r: u16)
        ensures
            r == self.0 % 0x1_0000,
    {
        let v: u32 = self.0;
        assert(v & 0xFFFF == v % 0x1_0000) by (bit_vector);
        (v & 0xFFFF) as u16
    }

    /// Extract the generation.
    pub fn generation(self) -> (r: u16)
        ensures
            r == self.0 / 0x1_0000,
    {
        let v: u32 = self.0;
        assert((v >> 16) & 0xFFFF == v / 0x1_0000) by (bit_vector);
        ((v >> 16) & 0xFFFF) as u16
    }

    /// True for the null ID.
    pub fn is_null(self) -> (r: bool)
        ensures
            r == (self.0 == 0),
    {
        self.0 == 0
    }
}

/// Lifecycle state of a kernel thread.
#[derive(Clone, Copy, Debug, PartialEq, Eq, Structural)]
pub enum ThreadState {
    Free,
    Ready,
    Running,
    Blocked,
    Dying,
}

/// Errors reported by the kernel's scheduler.
#[derive(Clone, Copy, Debug, PartialEq, Eq, Structural)]
pub enum ScheError {
    InvalidThread,
    ThreadTableFull,
    PriorityQueueFull,
    InvalidThreadState,
    NoRunnableThread,
    NullThreadId,
    InvalidArgument,
    NotImplemented,
}

/// What the scheduler records about one thread.
#[derive(Clone, Copy, Debug, PartialEq, Eq, Structural)]
pub struct ThreadControl {
    /// Priority in force.
    pub priority: u8,
    /// Priority without any donation.
    pub base_priority: u8,
    /// Priority lent by a waiting thread; 0 when there is none.
    pub donated_priority: u8,
    pub state: ThreadState,
    /// Address-space identifier (TLB tag).
    pub asid: usize,
}

impl ThreadControl {
    /// The larger of the base priority and the donated one.
    pub open spec fn effective(self) -> u8 {
        if self.donated_priority > self.base_priority {
            self.donated_priority
        } else {
            self.base_priority
        }
    }

    /// The priority that the scheduler goes by.
    pub fn effective_priority(&self) -> (r: u8)
        ensures
            r == self.effective(),
    {
        if self.donated_priority > self.base_priority {
            self.donated_priority
        } else {
            self.base_priority
        }
    }
}

} // verus!
