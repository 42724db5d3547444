//! Virtual Memory Area (VMA) manager.
//!
//! Each user process has one `VmaManager` that tracks its virtual address-space
//! layout: code, data, heap, stack, mmap regions, and guard pages.
//!
//! Entries are stored in a fixed-size array sorted by address.  Lookup uses
//! binary search; insert and remove are linear but bounded by
//! `MAX_VMA_ENTRIES`.  A region may be empty (a heap that has not grown yet):
//! it then marks a position without covering any address.
use vstd::prelude::*;
use crate::mm::types::{MmError, MmResult, VmPerms, VmRegionType, VmaEntry};
use crate::search;

verus! {

/// Maximum VMA entries per process.
pub const MAX_VMA_ENTRIES: usize = 64;

/// Page size (bytes).
pub const PAGE_SIZE: usize = 4096;

pub const PAGE_MASK: usize = PAGE_SIZE - 1;

// ---------------------------------------------------------------------------
// Model: a sorted sequence of disjoint regions
// ---------------------------------------------------------------------------

/// No region ends before it starts, and each one ends before the next begins.
pub open spec fn sorted(es: Seq<VmaEntry>) -> bool {
    &&& forall|i: int| 0 <= i < es.len() ==> (#[trigger] es[i]).start_vaddr <= es[i].end_vaddr
    &&& forall|i: int, j: int|
        0 <= i < j < es.len() ==> (#[trigger] es[i]).end_vaddr <= (#[trigger] es[j]).start_vaddr
}

/// "Covers `vaddr`", as a predicate on regions.
pub open spec fn covering(vaddr: int) -> spec_fn(VmaEntry) -> bool {
    |e: VmaEntry| e.covers(vaddr)
}

/// "Is of category `t`", as a predicate on regions.
pub open spec fn of_type(t: VmRegionType) -> spec_fn(VmaEntry) -> bool {
    |e: VmaEntry| e.region_type == t
}

/// "Is a stack that starts above `vaddr`", as a predicate on regions.
pub open spec fn stack_above(vaddr: int) -> spec_fn(VmaEntry) -> bool {
    |e: VmaEntry| e.region_type == VmRegionType::Stack && vaddr < e.start_vaddr
}

/// The region that covers `vaddr`.
pub open spec fn lookup(es: Seq<VmaEntry>, vaddr: int) -> Option<VmaEntry> {
    match search::first_index(es, covering(vaddr), 0) {
        Some(i) => Some(es[i]),
        None => None,
    }
}

/// Some region shares an address with `[start, end)`, or one of the two is empty
/// and lies strictly inside the other.
pub open spec fn any_overlap(es: Seq<VmaEntry>, start: int, end: int) -> bool {
    exists|i: int|
        0 <= i < es.len() && start < (#[trigger] es[i]).end_vaddr && end > es[i].start_vaddr
}

/// Two adjacent regions that agree on everything but their extent.
pub open spec fn mergeable(a: VmaEntry, b: VmaEntry) -> bool {
    &&& a.perms == b.perms
    &&& a.region_type == b.region_type
    &&& a.cow == b.cow
    &&& a.backing_offset == b.backing_offset
}

/// Number of leading regions that end at or below `start`.
pub open spec fn insert_pos(es: Seq<VmaEntry>, start: int) -> int
    decreases es.len(),
{
    if es.len() == 0 {
        0
    } else if es.last().end_vaddr <= start {
        es.len() as int
    } else {
        insert_pos(es.drop_last(), start)
    }
}

/// `e` continues the region before position `p`.
pub open spec fn joins_prev(es: Seq<VmaEntry>, e: VmaEntry, p: int) -> bool {
    p > 0 && es[p - 1].end_vaddr == e.start_vaddr && mergeable(es[p - 1], e)
}

/// The region at position `p` continues `e`.
pub open spec fn joins_next(es: Seq<VmaEntry>, e: VmaEntry, p: int) -> bool {
    p < es.len() && e.end_vaddr == es[p].start_vaddr && mergeable(e, es[p])
}

/// The layout after `e` has found its place: joined to the regions before and
/// after it, to one of them, or as a region of its own.
pub open spec fn placed(es: Seq<VmaEntry>, e: VmaEntry) -> Seq<VmaEntry> {
    let p = insert_pos(es, e.start_vaddr as int);
    if joins_prev(es, e, p) && joins_next(es, e, p) {
        es.update(p - 1, VmaEntry { end_vaddr: es[p].end_vaddr, ..es[p - 1] }).remove(p)
    } else if joins_prev(es, e, p) {
        es.update(p - 1, VmaEntry { end_vaddr: e.end_vaddr, ..es[p - 1] })
    } else if joins_next(es, e, p) {
        es.update(p, VmaEntry { start_vaddr: e.start_vaddr, ..es[p] })
    } else {
        es.insert(p, e)
    }
}

/// Outcome of placing `e`: the new layout or the error.
pub open spec fn place(es: Seq<VmaEntry>, e: VmaEntry) -> Result<Seq<VmaEntry>, MmError> {
    if es.len() >= MAX_VMA_ENTRIES {
        Err(MmError::OutOfMemory)
    } else if any_overlap(es, e.start_vaddr as int, e.end_vaddr as int) {
        Err(MmError::VmaOverlap)
    } else {
        Ok(placed(es, e))
    }
}

/// Places each region of `steps` in turn, stopping at the first error.
pub open spec fn place_all(es: Seq<VmaEntry>, steps: Seq<VmaEntry>) -> (
    Seq<VmaEntry>,
    Result<(), MmError>,
)
    decreases steps.len(),
{
    if steps.len() == 0 {
        (es, Ok(()))
    } else {
        match place(es, steps[0]) {
            Ok(next) => place_all(next, steps.drop_first()),
            Err(err) => (es, Err(err)),
        }
    }
}

/// What is left of one region once `[start, end)` is taken out of it.
pub open spec fn cut(e: VmaEntry, start: int, end: int) -> Seq<VmaEntry> {
    if e.end_vaddr <= start || e.start_vaddr >= end {
        seq![e]
    } else {
        (if e.start_vaddr < start {
            seq![VmaEntry { end_vaddr: start as usize, ..e }]
        } else {
            seq![]
        }) + (if end < e.end_vaddr {
            seq![VmaEntry { start_vaddr: end as usize, ..e }]
        } else {
            seq![]
        })
    }
}

/// What is left of a layout once `[start, end)` is taken out of every region.
pub open spec fn cut_all(es: Seq<VmaEntry>, start: int, end: int) -> Seq<VmaEntry>
    decreases es.len(),
{
    if es.len() == 0 {
        seq![]
    } else {
        cut_all(es.drop_last(), start, end) + cut(es.last(), start, end)
    }
}

/// First address that the region and the page of `vaddr` share.
pub open spec fn page_low(e: VmaEntry, vaddr: int) -> int {
    let page = vaddr - vaddr % 4096;
    if e.start_vaddr > page {
        e.start_vaddr as int
    } else {
        page
    }
}

/// End of what the region and the page of `vaddr` share.
pub open spec fn page_high(e: VmaEntry, vaddr: int) -> int {
    let page = vaddr - vaddr % 4096;
    if e.end_vaddr < page + 4096 {
        e.end_vaddr as int
    } else {
        page + 4096
    }
}

/// Outcome of ending copy-on-write for the page of `vaddr`: the page is taken
/// out of its region and put back as one that is not copy-on-write.  It is
/// refused when the table has no room for what the page leaves of its region
/// and the page itself.
pub open spec fn cow_ended(es: Seq<VmaEntry>, vaddr: int) -> Result<Seq<VmaEntry>, MmError> {
    match lookup(es, vaddr) {
        None => Err(MmError::NoVma),
        Some(e) => {
            let low = page_low(e, vaddr);
            let high = page_high(e, vaddr);
            let rest = cut_all(es, low, high);
            if rest.len() >= MAX_VMA_ENTRIES {
                Err(MmError::OutOfMemory)
            } else {
                Ok(
                    placed(
                        rest,
                        VmaEntry {
                            start_vaddr: low as usize,
                            end_vaddr: high as usize,
                            cow: false,
                            ..e
                        },
                    ),
                )
            }
        },
    }
}

/// `[start, end)` lies strictly inside the region: taking it out leaves two.
pub open spec fn splits(e: VmaEntry, start: int, end: int) -> bool {
    e.start_vaddr < start && end < e.end_vaddr
}

// ---------------------------------------------------------------------------
// Facts about the model
// ---------------------------------------------------------------------------

proof fn lemma_insert_pos(es: Seq<VmaEntry>, start: int)
    requires
        sorted(es),
    ensures
        0 <= insert_pos(es, start) <= es.len(),
        forall|i: int| 0 <= i < insert_pos(es, start) ==> (#[trigger] es[i]).end_vaddr <= start,
        forall|i: int|
            insert_pos(es, start) <= i < es.len() ==> (#[trigger] es[i]).end_vaddr > start,
    decreases es.len(),
{
    if es.len() > 0 {
        let last = es.len() - 1;
        if es.last().end_vaddr <= start {
            assert forall|i: int| 0 <= i < es.len() implies (#[trigger] es[i]).end_vaddr <= start by {
                if i < last {
                    assert(es[i].end_vaddr <= es[last].start_vaddr);
                    assert(es[last].start_vaddr <= es[last].end_vaddr);
                }
            }
        } else {
            lemma_insert_pos(es.drop_last(), start);
            assert forall|i: int| 0 <= i < insert_pos(es, start) implies (#[trigger] es[i]).end_vaddr
                <= start by {
                assert(es.drop_last()[i] == es[i]);
            }
            assert forall|i: int|
                insert_pos(es, start) <= i < es.len() implies (#[trigger] es[i]).end_vaddr > start by {
                if i < last {
                    assert(es.drop_last()[i] == es[i]);
                }
            }
        }
    }
}

/// At most one region of a sorted layout covers an address.
pub proof fn lemma_lookup_unique(es: Seq<VmaEntry>, vaddr: int, i: int)
    requires
        sorted(es),
        0 <= i < es.len(),
        es[i].covers(vaddr),
    ensures
        lookup(es, vaddr) == Some(es[i]),
        search::first_index(es, covering(vaddr), 0) == Some(i),
{
    search::lemma_first_index(es, covering(vaddr), 0);
    assert(covering(vaddr)(es[i]));
}

proof fn lemma_cut_all_identity(es: Seq<VmaEntry>, start: int, end: int)
    requires
        forall|i: int|
            0 <= i < es.len() ==> (#[trigger] es[i]).end_vaddr <= start || es[i].start_vaddr >= end,
    ensures
        cut_all(es, start, end) == es,
    decreases es.len(),
{
    if es.len() > 0 {
        assert forall|i: int| 0 <= i < es.drop_last().len() implies (#[trigger] es.drop_last()[i]).end_vaddr
            <= start || es.drop_last()[i].start_vaddr >= end by {
            assert(es.drop_last()[i] == es[i]);
        }
        lemma_cut_all_identity(es.drop_last(), start, end);
        assert(cut_all(es, start, end) =~= es);
    }
}

proof fn lemma_cut_all_append(a: Seq<VmaEntry>, b: Seq<VmaEntry>, start: int, end: int)
    ensures
        cut_all(a + b, start, end) == cut_all(a, start, end) + cut_all(b, start, end),
    decreases b.len(),
{
    if b.len() == 0 {
        assert(a + b =~= a);
        assert(cut_all(a, start, end) + cut_all(b, start, end) =~= cut_all(a, start, end));
    } else {
        assert((a + b).drop_last() =~= a + b.drop_last());
        lemma_cut_all_append(a, b.drop_last(), start, end);
        assert(cut_all(a + b, start, end) =~= cut_all(a, start, end) + cut_all(b, start, end));
    }
}

/// Every fragment that `cut_all` leaves lies inside a region of the layout,
/// differs from it in its extent only, and avoids the range taken out.
proof fn lemma_cut_all_fragments(es: Seq<VmaEntry>, start: int, end: int)
    requires
        sorted(es),
        0 <= start < end <= usize::MAX,
    ensures
        sorted(cut_all(es, start, end)),
        es.len() > 0 ==> forall|k: int|
            0 <= k < cut_all(es, start, end).len() ==> (#[trigger] cut_all(es, start, end)[k]).end_vaddr
                <= es.last().end_vaddr,
    decreases es.len(),
{
    if es.len() > 0 {
        let init = es.drop_last();
        assert forall|i: int| 0 <= i < init.len() implies init[i] == es[i] by {}
        lemma_cut_all_fragments(init, start, end);
        let c = cut_all(init, start, end);
        let d = cut(es.last(), start, end);
        assert forall|k: int| 0 <= k < c.len() implies (#[trigger] c[k]).end_vaddr
            <= es.last().start_vaddr by {
            assert(init.len() > 0) by {
                if init.len() == 0 {
                    assert(c.len() == 0);
                }
            }
            assert(es[init.len() - 1].end_vaddr <= es[es.len() - 1].start_vaddr);
            assert(init.last() == es[init.len() - 1]);
        }
        let all = cut_all(es, start, end);
        assert(all == c + d);
        assert forall|i: int| 0 <= i < all.len() implies (#[trigger] all[i]).start_vaddr
            <= all[i].end_vaddr by {
            if i < c.len() {
                assert(all[i] == c[i]);
            } else {
                assert(all[i] == d[i - c.len()]);
            }
        }
        assert forall|i: int, j: int| 0 <= i < j < all.len() implies (#[trigger] all[i]).end_vaddr <= (
        #[trigger] all[j]).start_vaddr by {
            if j < c.len() {
                assert(all[i] == c[i] && all[j] == c[j]);
            } else {
                assert(all[j] == d[j - c.len()]);
                if i < c.len() {
                    assert(all[i] == c[i]);
                } else {
                    assert(all[i] == d[i - c.len()]);
                }
            }
        }
        assert forall|k: int| 0 <= k < all.len() implies (#[trigger] all[k]).end_vaddr
            <= es.last().end_vaddr by {
            if k < c.len() {
                assert(all[k] == c[k]);
            } else {
                assert(all[k] == d[k - c.len()]);
            }
        }
    }
}

/// A region that collides with nothing keeps the layout sorted.
#[verifier::rlimit(30)]
proof fn lemma_placed_sorted(es: Seq<VmaEntry>, e: VmaEntry)
    requires
        sorted(es),
        e.start_vaddr <= e.end_vaddr,
        !any_overlap(es, e.start_vaddr as int, e.end_vaddr as int),
    ensures
        sorted(placed(es, e)),
        placed(es, e).len() <= es.len() + 1,
{
    let p = insert_pos(es, e.start_vaddr as int);
    lemma_insert_pos(es, e.start_vaddr as int);
    assert forall|i: int| p <= i < es.len() implies (#[trigger] es[i]).start_vaddr >= e.end_vaddr by {
        assert(es[i].end_vaddr > e.start_vaddr);
    }
    let r = placed(es, e);
    if joins_prev(es, e, p) && joins_next(es, e, p) {
        assert forall|i: int| 0 <= i < r.len() implies (#[trigger] r[i]).start_vaddr
            <= r[i].end_vaddr by {
            let oi = if i < p { i } else { i + 1 };
            assert(es[oi].start_vaddr <= es[oi].end_vaddr);
            assert(es[p].start_vaddr <= es[p].end_vaddr);
        }
        assert forall|i: int, j: int| 0 <= i < j < r.len() implies (#[trigger] r[i]).end_vaddr <= (
        #[trigger] r[j]).start_vaddr by {
            let oi = if i < p - 1 { i } else { i + 1 };
            let oj = if j < p { j } else { j + 1 };
            assert(es[oi].end_vaddr <= es[oj].start_vaddr);
        }
    } else if joins_prev(es, e, p) {
        assert forall|i: int, j: int| 0 <= i < j < r.len() implies (#[trigger] r[i]).end_vaddr <= (
        #[trigger] r[j]).start_vaddr by {
            assert(es[i].end_vaddr <= es[j].start_vaddr);
        }
    } else if joins_next(es, e, p) {
        assert forall|i: int, j: int| 0 <= i < j < r.len() implies (#[trigger] r[i]).end_vaddr <= (
        #[trigger] r[j]).start_vaddr by {
            assert(es[i].end_vaddr <= es[j].start_vaddr);
        }
    } else {
        assert forall|i: int| 0 <= i < r.len() implies (#[trigger] r[i]).start_vaddr
            <= r[i].end_vaddr by {
            if i < p {
                assert(r[i] == es[i]);
            } else if i > p {
                assert(r[i] == es[i - 1]);
            }
        }
        assert forall|i: int, j: int| 0 <= i < j < r.len() implies (#[trigger] r[i]).end_vaddr <= (
        #[trigger] r[j]).start_vaddr by {
            let oi = if i < p { i } else { i - 1 };
            let oj = if j < p { j } else { j - 1 };
            if i != p {
                assert(r[i] == es[oi]);
            }
            if j != p {
                assert(r[j] == es[oj]);
            }
            if i != p && j != p {
                assert(es[oi].end_vaddr <= es[oj].start_vaddr);
            }
        }
    }
}

// ---------------------------------------------------------------------------
// VmaManager
// ---------------------------------------------------------------------------

/// Per-process Virtual Memory Area manager.
#[derive(Clone, Copy)]
pub struct VmaManager {
    entries: [Option<VmaEntry>; MAX_VMA_ENTRIES],
    len: usize,
}

impl View for VmaManager {
    type V = Seq<VmaEntry>;

    /// The regions in ascending order of address.
    closed spec fn view(&self) -> Seq<VmaEntry> {
        Seq::new(self.len as nat, |i: int| self.entries@[i]->0)
    }
}

impl VmaManager {
    /// The array holds exactly the first `len` slots.
    pub closed spec fn rep_ok(self) -> bool {
        &&& self.len <= MAX_VMA_ENTRIES
        &&& forall|i: int| 0 <= i < self.len ==> (#[trigger] self.entries@[i]) is Some
        &&& forall|i: int| self.len <= i < MAX_VMA_ENTRIES ==> (#[trigger] self.entries@[i]) is None
    }

    /// Well-formed: a bounded, sorted layout of disjoint regions.
    pub open spec fn wf(self) -> bool {
        &&& self.rep_ok()
        &&& self@.len() <= MAX_VMA_ENTRIES
        &&& sorted(self@)
    }

    /// Create an empty VMA manager.
    pub fn new() -> (r: Self)
        ensures
            r.wf(),
            r@ == Seq::<VmaEntry>::empty(),
    {
        let r = VmaManager { entries: [None;MAX_VMA_ENTRIES], len: 0 };
        assert(r@ =~= Seq::<VmaEntry>::empty());
        r
    }

    /// Number of VMA entries currently tracked.
    pub fn len(&self) -> (r: usize)
        requires
            self.wf(),
        ensures
            r == self@.len(),
    {
        self.len
    }

    /// True when no VMA entries exist.
    pub fn is_empty(&self) -> (r: bool)
        requires
            self.wf(),
        ensures
            r == (self@.len() == 0),
    {
        self.len == 0
    }

    /// Index of the rightmost region that starts at or below `vaddr`.
    fn bsearch(&self, vaddr: usize) -> (r: Option<usize>)
        requires
            self.wf(),
        ensures
            match r {
                Some(k) => k < self@.len() && self@[k as int].start_vaddr <= vaddr && forall|j: int|
                    k < j < self@.len() ==> (#[trigger] self@[j]).start_vaddr > vaddr,
                None => forall|j: int|
                    0 <= j < self@.len() ==> (#[trigger] self@[j]).start_vaddr > vaddr,
            },
    {
        let mut lo: usize = 0;
        let mut hi: usize = self.len;
        let mut best: Option<usize> = None;
        while lo < hi
            invariant
                self.wf(),
                self@.len() == self.len,
                lo <= hi <= self.len,
                best is None ==> lo == 0,
                best is Some ==> best->0 == lo - 1 && self@[lo - 1].start_vaddr <= vaddr,
                forall|j: int| hi <= j < self.len ==> (#[trigger] self@[j]).start_vaddr > vaddr,
            decreases hi - lo,
        {
            let mid: usize = lo + (hi - lo) / 2;
            assert(self.entries@[mid as int] is Some);
            let start: usize = self.entries[mid].as_ref().unwrap().start_vaddr;
            assert(self@[mid as int].start_vaddr == start);
            if start <= vaddr {
                best = Some(mid);
                lo = mid + 1;
            } else {
                assert forall|j: int| mid <= j < self.len implies (#[trigger] self@[j]).start_vaddr > vaddr by {
                    if j > mid {
                        assert(self@[mid as int].end_vaddr <= self@[j].start_vaddr);
                    }
                }
                hi = mid;
            }
        }
        best
    }

    /// Find the VMA that contains `vaddr`, if any.
    pub fn find(&self, vaddr: usize) -> (r: Option<&VmaEntry>)
        requires
            self.wf(),
        ensures
            match r {
                Some(e) => lookup(self@, vaddr as int) == Some(*e),
                None => lookup(self@, vaddr as int) is None,
            },
    {
        match self.find_index_containing(vaddr) {
            Some(idx) => {
                assert(self.entries@[idx as int] is Some);
                assert(self@[idx as int] == self.entries@[idx as int]->0);
                self.entries[idx].as_ref()
            },
            None => None,
        }
    }

    /// Find the index of the VMA containing `vaddr`.
    fn find_index_containing(&self, vaddr: usize) -> (r: Option<usize>)
        requires
            self.wf(),
        ensures
            match r {
                Some(k) => search::first_index(self@, covering(vaddr as int), 0) == Some(k as int)
                    && k < self@.len() && self@[k as int].covers(vaddr as int),
                None => search::first_index(self@, covering(vaddr as int), 0) is None,
            },
    {
        let best = self.bsearch(vaddr);
        match best {
            Some(idx) => {
                assert(self.entries@[idx as int] is Some);
                let entry = self.entries[idx].as_ref().unwrap();
                assert(*entry == self@[idx as int]);
                if entry.contains(vaddr) {
                    proof {
                        lemma_lookup_unique(self@, vaddr as int, idx as int);
                    }
                    Some(idx)
                } else {
                    proof {
                        assert forall|j: int| 0 <= j < self@.len() implies !covering(vaddr as int)(
                            #[trigger] self@[j],
                        ) by {
                            if j < idx {
                                assert(self@[j].end_vaddr <= self@[idx as int].start_vaddr);
                            }
                        }
                        search::lemma_first_index_none(self@, covering(vaddr as int), 0);
                    }
                    None
                }
            },
            None => {
                proof {
                    search::lemma_first_index_none(self@, covering(vaddr as int), 0);
                }
                None
            },
        }
    }

    /// Return the guard-page entry at `vaddr`, if one exists.
    pub fn find_guard(&self, vaddr: usize) -> (r: Option<&VmaEntry>)
        requires
            self.wf(),
        ensures
            match r {
                Some(e) => lookup(self@, vaddr as int) == Some(*e) && e.region_type
                    == VmRegionType::Guard,
                None => !(lookup(self@, vaddr as int) matches Some(e) && e.region_type
                    == VmRegionType::Guard),
            },
    {
        match self.find(vaddr) {
            Some(e) => if e.is_guard() {
                Some(e)
            } else {
                None
            },
            None => None,
        }
    }

    /// Check whether the given access is permitted at `vaddr`.
    pub fn is_valid_access(&self, vaddr: usize, needs: VmPerms) -> (r: bool)
        requires
            self.wf(),
        ensures
            r == (lookup(self@, vaddr as int) matches Some(e) && e.grants(needs)),
    {
        match self.find(vaddr) {
            Some(e) => e.permits(needs),
            None => false,
        }
    }

    /// The region that covers `fault_vaddr`, or else the lowest stack that
    /// starts above it and could be extended downward.
    pub fn find_stack_to_extend(&self, fault_vaddr: usize) -> (r: Option<&VmaEntry>)
        requires
            self.wf(),
        ensures
            match r {
                Some(e) => stack_to_extend(self@, fault_vaddr as int) == Some(*e),
                None => stack_to_extend(self@, fault_vaddr as int) is None,
            },
    {
        let found = self.find(fault_vaddr);
        if found.is_some() {
            return found;
        }
        let mut i: usize = 0;
        while i < self.len
            invariant
                self.wf(),
                self@.len() == self.len,
                i <= self.len,
                search::first_index(self@, stack_above(fault_vaddr as int), 0)
                    == search::first_index(self@, stack_above(fault_vaddr as int), i as int),
                lookup(self@, fault_vaddr as int) is None,
            decreases self.len - i,
        {
            assert(self.entries@[i as int] is Some);
            let e = self.entries[i].as_ref().unwrap();
            assert(*e == self@[i as int]);
            if e.region_type == VmRegionType::Stack && fault_vaddr < e.start_vaddr {
                return self.entries[i].as_ref();
            }
            i += 1;
        }
        None
    }

    /// Check whether `start..end` overlaps any existing VMA.
    pub fn overlaps(&self, start: usize, end: usize) -> (r: bool)
        requires
            self.wf(),
        ensures
            r == any_overlap(self@, start as int, end as int),
    {
        let mut i: usize = 0;
        while i < self.len
            invariant
                self.wf(),
                self@.len() == self.len,
                i <= self.len,
                forall|j: int|
                    0 <= j < i ==> !(start < (#[trigger] self@[j]).end_vaddr && end
                        > self@[j].start_vaddr),
            decreases self.len - i,
        {
            assert(self.entries@[i as int] is Some);
            let e = self.entries[i].as_ref().unwrap();
            assert(*e == self@[i as int]);
            if start < e.end_vaddr && end > e.start_vaddr {
                return true;
            }
            i += 1;
        }
        false
    }

    /// Return a slice of all valid entries, for iteration.
    pub fn all(&self) -> (r: &[Option<VmaEntry>])
        requires
            self.wf(),
        ensures
            r@ == self@.map_values(|e: VmaEntry| Some(e)),
    {
        let r = vstd::slice::slice_subrange(self.entries.as_slice(), 0, self.len);
        assert(r@ =~= self@.map_values(|e: VmaEntry| Some(e)));
        r
    }

    /// Overwrite the entry at `i`.
    fn set(&mut self, i: usize, e: VmaEntry)
        requires
            old(self).rep_ok(),
            i < old(self)@.len(),
        ensures
            final(self).rep_ok(),
            final(self)@ == old(self)@.update(i as int, e),
    {
        self.entries[i] = Some(e);
        assert(self@ =~= old(self)@.update(i as int, e));
    }

    /// Shift the entries from `pos` on one slot right and fill the gap.
    fn shift_right(&mut self, pos: usize, e: VmaEntry)
        requires
            old(self).rep_ok(),
            pos <= old(self)@.len() < MAX_VMA_ENTRIES,
        ensures
            final(self).rep_ok(),
            final(self)@ == old(self)@.insert(pos as int, e),
    {
        let mut i: usize = self.len;
        while i > pos
            invariant
                pos <= i <= self.len,
                self.len == old(self).len,
                self.len < MAX_VMA_ENTRIES,
                old(self).rep_ok(),
                self.entries@[i as int] is None,
                forall|j: int| 0 <= j < i ==> self.entries@[j] == old(self).entries@[j],
                forall|j: int|
                    i < j <= self.len ==> #[trigger] self.entries@[j] == old(self).entries@[j - 1],
                forall|j: int| self.len < j < MAX_VMA_ENTRIES ==> self.entries@[j] is None,
            decreases i,
        {
            let ghost before = self.entries@;
            let moved = self.entries[i - 1].take();
            self.entries[i] = moved;
            assert forall|j: int| i - 1 < j <= self.len implies #[trigger] self.entries@[j] == old(self).entries@[j - 1] by {
                if j > i {
                    assert(before[j] == old(self).entries@[j - 1]);
                }
            }
            i -= 1;
        }
        self.entries[pos] = Some(e);
        self.len = self.len + 1;
        assert(self@ =~= old(self)@.insert(pos as int, e));
    }

    /// Drop the entry at `pos` and shift the later ones one slot left.
    fn shift_left(&mut self, pos: usize)
        requires
            old(self).rep_ok(),
            pos < old(self)@.len(),
        ensures
            final(self).rep_ok(),
            final(self)@ == old(self)@.remove(pos as int),
    {
        let mut i: usize = pos;
        while i < self.len - 1
            invariant
                pos <= i < self.len,
                self.len == old(self).len,
                self.len <= MAX_VMA_ENTRIES,
                old(self).rep_ok(),
                forall|j: int| 0 <= j < pos ==> self.entries@[j] == old(self).entries@[j],
                forall|j: int|
                    pos <= j < i ==> #[trigger] self.entries@[j] == old(self).entries@[j + 1],
                forall|j: int| i < j < self.len ==> self.entries@[j] == old(self).entries@[j],
                forall|j: int| self.len <= j < MAX_VMA_ENTRIES ==> self.entries@[j] is None,
            decreases self.len - i,
        {
            let moved = self.entries[i + 1].take();
            self.entries[i] = moved;
            i += 1;
        }
        self.entries[self.len - 1] = None;
        self.len = self.len - 1;
        assert(self@ =~= old(self)@.remove(pos as int));
    }

    /// Place `entry`, which may be empty, at its position by address.
    fn place_entry(&mut self, entry: VmaEntry) -> (r: MmResult<()>)
        requires
            old(self).wf(),
            entry.start_vaddr <= entry.end_vaddr,
        ensures
            final(self).wf(),
            match place(old(self)@, entry) {
                Ok(es) => r is Ok && final(self)@ == es,
                Err(err) => r == Err::<(), MmError>(err) && final(self)@ == old(self)@,
            },
    {
        if self.len >= MAX_VMA_ENTRIES {
            return Err(MmError::OutOfMemory);
        }
        let ghost es = self@;
        let ghost p = insert_pos(es, entry.start_vaddr as int);
        proof {
            lemma_insert_pos(es, entry.start_vaddr as int);
        }
        // Find the insertion position.
        let mut pos: usize = 0;
        while pos < self.len
            invariant
                self.wf(),
                self@ == es,
                es.len() == self.len,
                pos <= p,
                p == insert_pos(es, entry.start_vaddr as int),
                0 <= p <= es.len(),
                forall|i: int| 0 <= i < p ==> (#[trigger] es[i]).end_vaddr <= entry.start_vaddr,
                forall|i: int|
                    p <= i < es.len() ==> (#[trigger] es[i]).end_vaddr > entry.start_vaddr,
            ensures
                pos == p,
            decreases self.len - pos,
        {
            assert(self.entries@[pos as int] is Some);
            let e = self.entries[pos].as_ref().unwrap();
            assert(*e == es[pos as int]);
            if e.end_vaddr > entry.start_vaddr {
                break;
            }
            pos += 1;
        }
        // Check overlap with the region that follows.
        if pos < self.len {
            assert(self.entries@[pos as int] is Some);
            let next = self.entries[pos].unwrap();
            assert(next == es[pos as int]);
            if entry.end_vaddr > next.start_vaddr {
                assert(entry.start_vaddr < es[pos as int].end_vaddr);
                return Err(MmError::VmaOverlap);
            }
        }
        assert(!any_overlap(es, entry.start_vaddr as int, entry.end_vaddr as int)) by {
            assert forall|i: int| 0 <= i < es.len() implies !(entry.start_vaddr < (
            #[trigger] es[i]).end_vaddr && entry.end_vaddr > es[i].start_vaddr) by {
                if i > pos {
                    assert(es[pos as int].end_vaddr <= es[i].start_vaddr);
                    assert(es[pos as int].start_vaddr <= es[pos as int].end_vaddr);
                }
            }
        }
        proof {
            lemma_placed_sorted(es, entry);
        }
        // Merge with the predecessor if adjacent and compatible, and then with the
        // successor too.
        if pos > 0 {
            let prev = self.entries[pos - 1].unwrap();
            if prev.end_vaddr == entry.start_vaddr && vma_can_merge(&prev, &entry) {
                if pos < self.len {
                    let next = self.entries[pos].unwrap();
                    if entry.end_vaddr == next.start_vaddr && vma_can_merge(&entry, &next) {
                        assert(es[pos as int].start_vaddr <= es[pos as int].end_vaddr);
                        self.merge_into_prev(pos - 1, &next);
                        self.shift_left(pos);
                        return Ok(());
                    }
                }
                self.merge_into_prev(pos - 1, &entry);
                return Ok(());
            }
        }
        // Merge with the successor if adjacent and compatible.
        if pos < self.len {
            let next = self.entries[pos].unwrap();
            if entry.end_vaddr == next.start_vaddr && vma_can_merge(&entry, &next) {
                self.merge_with_next(pos, &entry);
                return Ok(());
            }
        }
        self.shift_right(pos, entry);
        Ok(())
    }

    /// Extend the region at `prev_idx` up to the end of `entry`.
    fn merge_into_prev(&mut self, prev_idx: usize, entry: &VmaEntry)
        requires
            old(self).rep_ok(),
            prev_idx < old(self)@.len(),
            old(self)@[prev_idx as int].end_vaddr <= entry.end_vaddr,
        ensures
            final(self).rep_ok(),
            final(self)@ == old(self)@.update(
                prev_idx as int,
                (VmaEntry { end_vaddr: entry.end_vaddr, ..old(self)@[prev_idx as int] }),
            ),
    {
        assert(self.entries@[prev_idx as int] is Some);
        let mut prev = self.entries[prev_idx].unwrap();
        prev.end_vaddr = entry.end_vaddr;
        self.set(prev_idx, prev);
    }

    /// Extend the region at `next_idx` down to the start of `entry`.
    fn merge_with_next(&mut self, next_idx: usize, entry: &VmaEntry)
        requires
            old(self).rep_ok(),
            next_idx < old(self)@.len(),
        ensures
            final(self).rep_ok(),
            final(self)@ == old(self)@.update(
                next_idx as int,
                (VmaEntry { start_vaddr: entry.start_vaddr, ..old(self)@[next_idx as int] }),
            ),
    {
        assert(self.entries@[next_idx as int] is Some);
        let mut next = self.entries[next_idx].unwrap();
        next.start_vaddr = entry.start_vaddr;
        self.set(next_idx, next);
    }

    /// Insert a VMA entry, maintaining sorted order.
    ///
    /// Returns `MmError::VmaOverlap` if the new region overlaps an existing
    /// one.  Adjacent regions of the same type and permissions are merged.
    pub fn insert(&mut self, entry: VmaEntry) -> (r: MmResult<()>)
        requires
            old(self).wf(),
        ensures
            final(self).wf(),
            entry.start_vaddr >= entry.end_vaddr ==> r == Err::<(), MmError>(
                MmError::InvalidArgument,
            ) && final(self)@ == old(self)@,
            entry.start_vaddr < entry.end_vaddr ==> match place(old(self)@, entry) {
                Ok(es) => r is Ok && final(self)@ == es,
                Err(err) => r == Err::<(), MmError>(err) && final(self)@ == old(self)@,
            },
    {
        if entry.is_empty() {
            return Err(MmError::InvalidArgument);
        }
        self.place_entry(entry)
    }

    /// Place each region of `steps` in turn, stopping at the first error.  A
    /// region may be empty: it then only marks its position.
    pub fn place_each(&mut self, steps: &Vec<VmaEntry>) -> (r: MmResult<()>)
        requires
            old(self).wf(),
            forall|i: int|
                0 <= i < steps@.len() ==> (#[trigger] steps@[i]).start_vaddr <= steps@[i].end_vaddr,
        ensures
            final(self).wf(),
            (final(self)@, r) == place_all(old(self)@, steps@),
    {
        let mut i: usize = 0;
        assert(steps@.skip(0) =~= steps@);
        while i < steps.len()
            invariant
                self.wf(),
                i <= steps@.len(),
                forall|k: int|
                    0 <= k < steps@.len() ==> (#[trigger] steps@[k]).start_vaddr
                        <= steps@[k].end_vaddr,
                place_all(self@, steps@.skip(i as int)) == place_all(old(self)@, steps@),
            decreases steps@.len() - i,
        {
            assert(steps@.skip(i as int)[0] == steps@[i as int]);
            assert(steps@.skip(i as int).drop_first() =~= steps@.skip(i + 1));
            match self.place_entry(steps[i]) {
                Ok(()) => {},
                Err(err) => return Err(err),
            }
            i += 1;
        }
        Ok(())
    }

    /// Drop the entry at index `i`.
    pub fn remove_entry(&mut self, i: usize)
        requires
            old(self).wf(),
            i < old(self)@.len(),
        ensures
            final(self).wf(),
            final(self)@ == old(self)@.remove(i as int),
    {
        self.shift_left(i);
        proof {
            let es = old(self)@;
            let r = self@;
            assert forall|a: int| 0 <= a < r.len() implies (#[trigger] r[a]).start_vaddr
                <= r[a].end_vaddr by {
                let oa = if a < i { a } else { a + 1 };
                assert(es[oa].start_vaddr <= es[oa].end_vaddr);
            }
            assert forall|a: int, b: int| 0 <= a < b < r.len() implies (#[trigger] r[a]).end_vaddr <= (
            #[trigger] r[b]).start_vaddr by {
                let oa = if a < i { a } else { a + 1 };
                let ob = if b < i { b } else { b + 1 };
                assert(es[oa].end_vaddr <= es[ob].start_vaddr);
            }
        }
    }

    /// Find the index of the first VMA whose `end_vaddr > start`.
    fn find_index_touching(&self, start: usize) -> (r: Option<usize>)
        requires
            self.wf(),
        ensures
            match r {
                Some(k) => k < self@.len() && self@[k as int].end_vaddr > start && forall|j: int|
                    0 <= j < k ==> (#[trigger] self@[j]).end_vaddr <= start,
                None => forall|j: int| 0 <= j < self@.len() ==> (#[trigger] self@[j]).end_vaddr <= start,
            },
    {
        let mut i: usize = 0;
        while i < self.len
            invariant
                self.wf(),
                self@.len() == self.len,
                i <= self.len,
                forall|j: int| 0 <= j < i ==> (#[trigger] self@[j]).end_vaddr <= start,
            decreases self.len - i,
        {
            assert(self.entries@[i as int] is Some);
            let e = self.entries[i].as_ref().unwrap();
            assert(*e == self@[i as int]);
            if e.end_vaddr > start {
                return Some(i);
            }
            i += 1;
        }
        None
    }

    /// Remove (or shrink) every VMA that covers part of `start..end`.
    ///
    /// If the range splits a VMA in two, two entries will result.  When the
    /// table has no room for the second one, the part above `start` of that VMA
    /// is dropped and `OutOfMemory` is returned.
    pub fn remove(&mut self, start: usize, end: usize) -> (r: MmResult<()>)
        requires
            old(self).wf(),
        ensures
            final(self).wf(),
            start >= end ==> r == Err::<(), MmError>(MmError::InvalidArgument) && final(self)@ == old(self)@,
            start < end ==> match r {
                Ok(()) => final(self)@ == cut_all(old(self)@, start as int, end as int) && !(old(self)@.len() == MAX_VMA_ENTRIES && exists|i: int|
                    0 <= i < old(self)@.len() && splits(
                        #[trigger] old(self)@[i],
                        start as int,
                        end as int,
                    )),
                Err(err) => err == MmError::OutOfMemory && old(self)@.len() == MAX_VMA_ENTRIES
                    && exists|i: int|
                    0 <= i < old(self)@.len() && splits(
                        #[trigger] old(self)@[i],
                        start as int,
                        end as int,
                    ) && final(self)@ == old(self)@.update(
                        i,
                        (VmaEntry { end_vaddr: start, ..old(self)@[i] }),
                    ),
            },
    {
        if start >= end {
            return Err(MmError::InvalidArgument);
        }
        let ghost es = self@;
        let ghost s = start as int;
        let ghost t = end as int;
        proof {
            lemma_cut_all_fragments(es, s, t);
        }
        // Find the first VMA that touches the range.
        let idx = match self.find_index_touching(start) {
            Some(i) => i,
            None => {
                proof {
                    lemma_cut_all_identity(es, s, t);
                }
                return Ok(());
            },
        };
        let mut i: usize = idx;
        let ghost mut k: int = idx as int;
        proof {
            lemma_cut_all_identity(es.take(k), s, t);
            assert(es =~= es.take(k) + es.skip(k));
        }
        while i < self.len
            invariant
                self.rep_ok(),
                self@ == cut_all(es.take(k), s, t) + es.skip(k),
                i == cut_all(es.take(k), s, t).len(),
                es == old(self)@,
                old(self).wf(),
                sorted(cut_all(es, s, t)),
                s == start,
                t == end,
                s < t,
                idx <= k <= es.len(),
                es[idx as int].end_vaddr > s,
                idx < es.len(),
                forall|j: int| 0 <= j < k ==> !splits(#[trigger] es[j], s, t),
            decreases es.len() - k,
        {
            assert(self@[i as int] == es.skip(k)[0]);
            assert(self.entries@[i as int] is Some);
            let entry = self.entries[i].unwrap();
            assert(entry == es[k]);
            assert(entry.end_vaddr > s) by {
                if k > idx {
                    assert(es[idx as int].end_vaddr <= es[k].start_vaddr);
                }
            }
            if entry.start_vaddr >= end {
                // Past the removal range.
                proof {
                    lemma_cut_done(es, s, t, k);
                }
                return Ok(());
            }
            proof {
                lemma_cut_step(es, s, t, k);
            }
            let ghost head = cut_all(es.take(k), s, t);
            if start <= entry.start_vaddr && end >= entry.end_vaddr {
                // Fully covered: remove the entire entry.
                self.shift_left(i);
                proof {
                    assert(self@ =~= cut_all(es.take(k + 1), s, t) + es.skip(k + 1));
                    k = k + 1;
                }
                continue;
            }
            if start > entry.start_vaddr && end < entry.end_vaddr {
                // Split: keep left and right fragments.
                let right = VmaEntry { start_vaddr: end, ..entry };
                let left = VmaEntry { end_vaddr: start, ..entry };
                proof {
                    lemma_cut_split(es, s, t, k);
                    assert(self@ =~= es);
                }
                self.set(i, left);
                if self.len >= MAX_VMA_ENTRIES {
                    proof {
                        lemma_shrink_sorted(es, k, left);
                        assert(splits(es[k], s, t));
                    }
                    return Err(MmError::OutOfMemory);
                }
                self.shift_right(i + 1, right);
                return Ok(());
            }
            if start <= entry.start_vaddr {
                // Truncate the left side.
                self.set(i, VmaEntry { start_vaddr: end, ..entry });
            } else {
                // Truncate the right side.
                self.set(i, VmaEntry { end_vaddr: start, ..entry });
            }
            proof {
                assert(self@ =~= cut_all(es.take(k + 1), s, t) + es.skip(k + 1));
                k = k + 1;
            }
            i += 1;
        }
        proof {
            lemma_cut_done(es, s, t, k);
        }
        Ok(())
    }

    /// Split the VMA containing `vaddr` at that address.
    ///
    /// After the split there will be two VMAs: `[old_start, vaddr)` and
    /// `[vaddr, old_end)`.  Returns the index of the right (upper) fragment.
    #[verifier::rlimit(40)]
    pub fn split_at(&mut self, vaddr: usize) -> (r: MmResult<usize>)
        requires
            old(self).wf(),
        ensures
            final(self).wf(),
            match search::first_index(old(self)@, covering(vaddr as int), 0) {
                None => r == Err::<usize, MmError>(MmError::NoVma) && final(self)@ == old(self)@,
                Some(i) => {
                    let e = old(self)@[i];
                    if vaddr == e.start_vaddr {
                        r == Ok::<usize, MmError>(i as usize) && final(self)@ == old(self)@
                    } else if old(self)@.len() == MAX_VMA_ENTRIES {
                        r == Err::<usize, MmError>(MmError::OutOfMemory) && final(self)@ == old(self)@
                    } else {
                        r == Ok::<usize, MmError>((i + 1) as usize) && final(self)@ == old(self)@.update(i, (VmaEntry { end_vaddr: vaddr, ..e })).insert(
                            i + 1,
                            (VmaEntry { start_vaddr: vaddr, ..e }),
                        )
                    }
                },
            },
    {
        let idx = match self.find_index_containing(vaddr) {
            Some(i) => i,
            None => return Err(MmError::NoVma),
        };
        let ghost es = self@;
        assert(self.entries@[idx as int] is Some);
        let entry = self.entries[idx].unwrap();
        assert(entry == es[idx as int]);
        if vaddr == entry.start_vaddr {
            // Already split at this boundary.
            return Ok(idx);
        }
        if self.len >= MAX_VMA_ENTRIES {
            return Err(MmError::OutOfMemory);
        }
        let right = VmaEntry { start_vaddr: vaddr, ..entry };
        let left = VmaEntry { end_vaddr: vaddr, ..entry };
        self.set(idx, left);
        self.shift_right(idx + 1, right);
        proof {
            let r = self@;
            assert forall|i: int| 0 <= i < r.len() implies (#[trigger] r[i]).start_vaddr
                <= r[i].end_vaddr by {
                let oi = if i <= idx { i } else { i - 1 };
                assert(es[oi].start_vaddr <= es[oi].end_vaddr);
            }
            assert forall|i: int, j: int| 0 <= i < j < r.len() implies (#[trigger] r[i]).end_vaddr <= (
            #[trigger] r[j]).start_vaddr by {
                let oi = if i <= idx { i } else { i - 1 };
                let oj = if j <= idx { j } else { j - 1 };
                if oi < oj {
                    assert(es[oi].end_vaddr <= es[oj].start_vaddr);
                }
                assert(es[oi].start_vaddr <= es[oi].end_vaddr);
            }
        }
        Ok(idx + 1)
    }

    /// End copy-on-write for the page of `vaddr`; every other address stays as
    /// it is.
    ///
    /// Returns `MmError::NoVma` if no region covers `vaddr`, and
    /// `MmError::OutOfMemory` when the table has no room.
    #[verifier::rlimit(30)]
    pub fn end_cow(&mut self, vaddr: usize) -> (r: MmResult<()>)
        requires
            old(self).wf(),
        ensures
            final(self).wf(),
            match cow_ended(old(self)@, vaddr as int) {
                Ok(es) => r is Ok && final(self)@ == es,
                Err(err) => r == Err::<(), MmError>(err) && final(self)@ == old(self)@,
            },
    {
        let idx = match self.find_index_containing(vaddr) {
            Some(i) => i,
            None => return Err(MmError::NoVma),
        };
        let ghost es = self@;
        proof {
            search::lemma_first_index(es, covering(vaddr as int), 0);
        }
        let e = self.entry(idx);
        let page: usize = vaddr - vaddr % PAGE_SIZE;
        let low: usize = if e.start_vaddr > page {
            e.start_vaddr
        } else {
            page
        };
        let high: usize = if e.end_vaddr - page < PAGE_SIZE {
            e.end_vaddr
        } else {
            page + PAGE_SIZE
        };
        proof {
            lemma_cut_inside(es, low as int, high as int, idx as int);
            lemma_cut_all_avoids(es, low as int, high as int);
            lemma_cut_all_fragments(es, low as int, high as int);
        }
        let mut left: usize = self.len - 1;
        if e.start_vaddr < low {
            left = left + 1;
        }
        if high < e.end_vaddr {
            left = left + 1;
        }
        if left >= MAX_VMA_ENTRIES {
            return Err(MmError::OutOfMemory);
        }
        proof {
            assert forall|k: int| 0 <= k < es.len() && splits(
                #[trigger] es[k],
                low as int,
                high as int,
            ) implies es.len() < MAX_VMA_ENTRIES by {
                if k != idx {
                    if k < idx {
                        assert(es[k].end_vaddr <= es[idx as int].start_vaddr);
                    } else {
                        assert(es[idx as int].end_vaddr <= es[k].start_vaddr);
                    }
                }
            }
        }
        let _removed = self.remove(low, high);
        self.insert(VmaEntry { start_vaddr: low, end_vaddr: high, cow: false, ..e })
    }

    /// Extend the stack VMA downward to `new_start` (page-aligned).
    ///
    /// `new_start` must be below the current stack start and must not reach
    /// into the VMA before it.
    pub fn extend_stack(&mut self, new_start: usize) -> (r: MmResult<()>)
        requires
            old(self).wf(),
        ensures
            final(self).wf(),
            match extend_stack_spec(old(self)@, new_start) {
                Ok(es) => r is Ok && final(self)@ == es,
                Err(err) => r == Err::<(), MmError>(err) && final(self)@ == old(self)@,
            },
    {
        let idx = match self.first_of_type(VmRegionType::Stack) {
            Some(i) => i,
            None => return Err(MmError::NoVma),
        };
        let ghost es = self@;
        assert(self.entries@[idx as int] is Some);
        let stack = self.entries[idx].unwrap();
        assert(stack == es[idx as int]);
        if new_start >= stack.start_vaddr {
            return Err(MmError::InvalidArgument);
        }
        if idx > 0 {
            assert(self.entries@[idx - 1] is Some);
            let below = self.entries[idx - 1].unwrap();
            assert(below == es[idx - 1]);
            if below.end_vaddr > new_start {
                return Err(MmError::VmaOverlap);
            }
        }
        self.set(idx, VmaEntry { start_vaddr: new_start, ..stack });
        proof {
            let r = self@;
            assert forall|i: int, j: int| 0 <= i < j < r.len() implies (#[trigger] r[i]).end_vaddr <= (
            #[trigger] r[j]).start_vaddr by {
                assert(es[i].end_vaddr <= es[j].start_vaddr);
                if j == idx && i < idx - 1 {
                    assert(es[i].end_vaddr <= es[idx - 1].start_vaddr);
                }
            }
        }
        Ok(())
    }

    /// Index of the lowest region of category `t`.
    pub fn first_of_type(&self, t: VmRegionType) -> (r: Option<usize>)
        requires
            self.wf(),
        ensures
            match r {
                Some(k) => k < self@.len() && search::first_index(self@, of_type(t), 0) == Some(
                    k as int,
                ) && self@[k as int].region_type == t,
                None => search::first_index(self@, of_type(t), 0) is None,
            },
    {
        let mut i: usize = 0;
        while i < self.len
            invariant
                self.wf(),
                self@.len() == self.len,
                i <= self.len,
                search::first_index(self@, of_type(t), 0) == search::first_index(
                    self@,
                    of_type(t),
                    i as int,
                ),
            decreases self.len - i,
        {
            assert(self.entries@[i as int] is Some);
            let e = self.entries[i].as_ref().unwrap();
            assert(*e == self@[i as int]);
            if e.region_type == t {
                return Some(i);
            }
            i += 1;
        }
        None
    }

    /// The entry at index `i`.
    pub fn entry(&self, i: usize) -> (r: VmaEntry)
        requires
            self.wf(),
            i < self@.len(),
        ensures
            r == self@[i as int],
    {
        assert(self.entries@[i as int] is Some);
        self.entries[i].unwrap()
    }

    /// The address-space layout in ascending order, for debug output.
    pub fn dump(&self) -> (r: Vec<VmaEntry>)
        requires
            self.wf(),
        ensures
            r@ == self@,
    {
        let mut out: Vec<VmaEntry> = Vec::new();
        let mut i: usize = 0;
        while i < self.len
            invariant
                self.wf(),
                self@.len() == self.len,
                i <= self.len,
                out@ == self@.take(i as int),
            decreases self.len - i,
        {
            let e = self.entry(i);
            out.push(e);
            assert(self@.take(i as int).push(self@[i as int]) =~= self@.take(i + 1));
            i += 1;
        }
        assert(self@.take(self@.len() as int) =~= self@);
        out
    }
}

/// The region that a fault at `vaddr` refers to: the one that covers it, or the
/// lowest stack above it.
pub open spec fn stack_to_extend(es: Seq<VmaEntry>, vaddr: int) -> Option<VmaEntry> {
    match lookup(es, vaddr) {
        Some(e) => Some(e),
        None => match search::first_index(es, stack_above(vaddr), 0) {
            Some(i) => Some(es[i]),
            None => None,
        },
    }
}

/// Outcome of growing the lowest stack down to `new_start`.
pub open spec fn extend_stack_spec(es: Seq<VmaEntry>, new_start: usize) -> Result<
    Seq<VmaEntry>,
    MmError,
> {
    match search::first_index(es, of_type(VmRegionType::Stack), 0) {
        None => Err(MmError::NoVma),
        Some(i) => if new_start >= es[i].start_vaddr {
            Err(MmError::InvalidArgument)
        } else if i > 0 && es[i - 1].end_vaddr > new_start {
            Err(MmError::VmaOverlap)
        } else {
            Ok(es.update(i, VmaEntry { start_vaddr: new_start, ..es[i] }))
        },
    }
}

/// Two VMAs can be merged into one contiguous region when they have identical
/// permissions, the same copy-on-write status, backing offset and category.
fn vma_can_merge(a: &VmaEntry, b: &VmaEntry) -> (r: bool)
    ensures
        r == mergeable(*a, *b),
{
    a.perms == b.perms && a.region_type == b.region_type && a.cow == b.cow && a.backing_offset
        == b.backing_offset
}

proof fn lemma_cut_all_len(es: Seq<VmaEntry>, start: int, end: int)
    requires
        forall|j: int| 0 <= j < es.len() ==> !splits(#[trigger] es[j], start, end),
    ensures
        cut_all(es, start, end).len() <= es.len(),
    decreases es.len(),
{
    if es.len() > 0 {
        assert forall|j: int| 0 <= j < es.drop_last().len() implies !splits(
            #[trigger] es.drop_last()[j],
            start,
            end,
        ) by {
            assert(es.drop_last()[j] == es[j]);
        }
        lemma_cut_all_len(es.drop_last(), start, end);
        assert(es.last() == es[es.len() - 1]);
    }
}

proof fn lemma_cut_step(es: Seq<VmaEntry>, start: int, end: int, k: int)
    requires
        0 <= k < es.len(),
    ensures
        cut_all(es.take(k + 1), start, end) == cut_all(es.take(k), start, end) + cut(
            es[k],
            start,
            end,
        ),
{
    assert(es.take(k + 1).drop_last() =~= es.take(k));
}

/// Once a region starts at or above `end`, the rest of the layout stays.
proof fn lemma_cut_done(es: Seq<VmaEntry>, start: int, end: int, k: int)
    requires
        sorted(es),
        0 <= k <= es.len(),
        start < end,
        k < es.len() ==> es[k].start_vaddr >= end,
        forall|j: int| 0 <= j < k ==> !splits(#[trigger] es[j], start, end),
    ensures
        cut_all(es.take(k), start, end) + es.skip(k) == cut_all(es, start, end),
        cut_all(es, start, end).len() <= es.len(),
        forall|j: int| 0 <= j < es.len() ==> !splits(#[trigger] es[j], start, end),
{
    assert forall|j: int| k <= j < es.len() implies (#[trigger] es[j]).start_vaddr >= end by {
        if j > k {
            assert(es[k].end_vaddr <= es[j].start_vaddr);
        }
    }
    lemma_cut_all_identity(es.skip(k), start, end);
    lemma_cut_all_append(es.take(k), es.skip(k), start, end);
    assert(es =~= es.take(k) + es.skip(k));
    lemma_cut_all_len(es, start, end);
}

/// A range strictly inside one region leaves every other region alone.
proof fn lemma_cut_split(es: Seq<VmaEntry>, start: int, end: int, k: int)
    requires
        sorted(es),
        0 <= k < es.len(),
        0 <= start < end <= usize::MAX,
        splits(es[k], start, end),
    ensures
        cut_all(es.take(k), start, end) == es.take(k),
        cut_all(es, start, end) == es.update(
            k,
            VmaEntry { end_vaddr: start as usize, ..es[k] },
        ).insert(k + 1, VmaEntry { start_vaddr: end as usize, ..es[k] }),
{
    assert forall|j: int| 0 <= j < k implies (#[trigger] es[j]).end_vaddr <= start by {
        assert(es[j].end_vaddr <= es[k].start_vaddr);
    }
    assert forall|j: int| k < j < es.len() implies (#[trigger] es[j]).start_vaddr >= end by {
        assert(es[k].end_vaddr <= es[j].start_vaddr);
    }
    lemma_cut_all_identity(es.take(k), start, end);
    lemma_cut_all_identity(es.skip(k + 1), start, end);
    lemma_cut_step(es, start, end, k);
    lemma_cut_all_append(es.take(k + 1), es.skip(k + 1), start, end);
    assert(es =~= es.take(k + 1) + es.skip(k + 1));
    assert(cut_all(es, start, end) =~= es.update(
        k,
        VmaEntry { end_vaddr: start as usize, ..es[k] },
    ).insert(k + 1, VmaEntry { start_vaddr: end as usize, ..es[k] }));
}

/// Nothing that is left shares an address with the range taken out.
proof fn lemma_cut_all_avoids(es: Seq<VmaEntry>, start: int, end: int)
    requires
        0 <= start < end <= usize::MAX,
    ensures
        forall|k: int|
            0 <= k < cut_all(es, start, end).len() ==> (#[trigger] cut_all(es, start, end)[k]).end_vaddr
                <= start || cut_all(es, start, end)[k].start_vaddr >= end,
    decreases es.len(),
{
    if es.len() > 0 {
        lemma_cut_all_avoids(es.drop_last(), start, end);
        let c = cut_all(es.drop_last(), start, end);
        let d = cut(es.last(), start, end);
        assert forall|k: int| 0 <= k < (c + d).len() implies (#[trigger] (c + d)[k]).end_vaddr <= start
            || (c + d)[k].start_vaddr >= end by {
            if k < c.len() {
                assert((c + d)[k] == c[k]);
            } else {
                assert((c + d)[k] == d[k - c.len()]);
            }
        }
    }
}

/// A range inside one region leaves every other region alone.
proof fn lemma_cut_inside(es: Seq<VmaEntry>, start: int, end: int, k: int)
    requires
        sorted(es),
        0 <= k < es.len(),
        es[k].start_vaddr <= start < end <= es[k].end_vaddr,
    ensures
        cut_all(es, start, end).len() == es.len() - 1 + cut(es[k], start, end).len(),
{
    assert forall|j: int| 0 <= j < k implies (#[trigger] es[j]).end_vaddr <= start by {
        assert(es[j].end_vaddr <= es[k].start_vaddr);
    }
    assert forall|j: int| k < j < es.len() implies (#[trigger] es[j]).start_vaddr >= end by {
        assert(es[k].end_vaddr <= es[j].start_vaddr);
    }
    lemma_cut_all_identity(es.take(k), start, end);
    lemma_cut_all_identity(es.skip(k + 1), start, end);
    lemma_cut_step(es, start, end, k);
    lemma_cut_all_append(es.take(k + 1), es.skip(k + 1), start, end);
    assert(es =~= es.take(k + 1) + es.skip(k + 1));
}

proof fn lemma_shrink_sorted(es: Seq<VmaEntry>, k: int, left: VmaEntry)
    requires
        sorted(es),
        0 <= k < es.len(),
        left.start_vaddr == es[k].start_vaddr,
        left.start_vaddr <= left.end_vaddr <= es[k].end_vaddr,
    ensures
        sorted(es.update(k, left)),
{
    let r = es.update(k, left);
    assert forall|i: int, j: int| 0 <= i < j < r.len() implies (#[trigger] r[i]).end_vaddr <= (
    #[trigger] r[j]).start_vaddr by {
        assert(es[i].end_vaddr <= es[j].start_vaddr);
    }
}

// ---------------------------------------------------------------------------
// Laws
// ---------------------------------------------------------------------------

/// What a region says about the addresses it covers, whatever its extent.
pub open spec fn attributes(e: VmaEntry) -> (VmPerms, VmRegionType, usize, bool) {
    (e.perms, e.region_type, e.backing_offset, e.cow)
}

/// What a layout says about one address: nothing, or the attributes in force.
pub open spec fn attributes_at(es: Seq<VmaEntry>, vaddr: int) -> Option<
    (VmPerms, VmRegionType, usize, bool),
> {
    match lookup(es, vaddr) {
        Some(e) => Some(attributes(e)),
        None => None,
    }
}

pub proof fn lemma_attributes_at(es: Seq<VmaEntry>, vaddr: int)
    requires
        sorted(es),
    ensures
        forall|i: int|
            0 <= i < es.len() && (#[trigger] es[i]).covers(vaddr) ==> attributes_at(es, vaddr)
                == Some(attributes(es[i])),
        attributes_at(es, vaddr) is Some ==> exists|i: int|
            0 <= i < es.len() && (#[trigger] es[i]).covers(vaddr),
{
    assert forall|i: int| 0 <= i < es.len() && (#[trigger] es[i]).covers(vaddr) implies attributes_at(
        es,
        vaddr,
    ) == Some(attributes(es[i])) by {
        lemma_lookup_unique(es, vaddr, i);
    }
    search::lemma_first_index(es, covering(vaddr), 0);
}

/// Placing a region gives its attributes to every address it covers and leaves
/// every other address as it was, whether or not regions were merged.
#[verifier::rlimit(40)]
pub proof fn law_place_changes_only_the_new_range(es: Seq<VmaEntry>, e: VmaEntry, vaddr: int)
    requires
        sorted(es),
        e.start_vaddr <= e.end_vaddr,
        !any_overlap(es, e.start_vaddr as int, e.end_vaddr as int),
    ensures
        attributes_at(placed(es, e), vaddr) == (if e.covers(vaddr) {
            Some(attributes(e))
        } else {
            attributes_at(es, vaddr)
        }),
{
    let r = placed(es, e);
    let p = insert_pos(es, e.start_vaddr as int);
    lemma_insert_pos(es, e.start_vaddr as int);
    lemma_placed_sorted(es, e);
    lemma_attributes_at(es, vaddr);
    lemma_attributes_at(r, vaddr);
    let merged_prev = joins_prev(es, e, p);
    let merged_next = joins_next(es, e, p);
    // The region of `r` that takes over what region `i` of `es` says.
    let image = |i: int|
        if i < p {
            i
        } else if merged_prev && merged_next {
            i - 1
        } else if merged_prev || merged_next {
            i
        } else {
            i + 1
        };
    let home = if merged_prev { p - 1 } else { p };
    assert(e.covers(vaddr) ==> r[home].covers(vaddr) && attributes(r[home]) == attributes(e));
    if attributes_at(es, vaddr) is Some {
        let i = choose|i: int| 0 <= i < es.len() && (#[trigger] es[i]).covers(vaddr);
        assert(r[image(i)].covers(vaddr) && attributes(r[image(i)]) == attributes(es[i]));
    }
    if attributes_at(r, vaddr) is Some && !e.covers(vaddr) {
        let k = choose|k: int| 0 <= k < r.len() && (#[trigger] r[k]).covers(vaddr);
        if merged_prev && merged_next {
            if k == p - 1 {
                assert(es[p - 1].covers(vaddr) || es[p].covers(vaddr));
            } else {
                let i = if k < p { k } else { k + 1 };
                assert(es[i].covers(vaddr));
            }
        } else {
            let i = if merged_prev || merged_next || k < p { k } else { k - 1 };
            assert(es[i].covers(vaddr));
        }
    }
}

/// Some region covers `vaddr` and has the attributes `a`.
spec fn says(es: Seq<VmaEntry>, vaddr: int, a: (VmPerms, VmRegionType, usize, bool)) -> bool {
    exists|i: int|
        0 <= i < es.len() && (#[trigger] es[i]).covers(vaddr) && attributes(es[i]) == a
}

proof fn lemma_says_append(
    x: Seq<VmaEntry>,
    y: Seq<VmaEntry>,
    vaddr: int,
    a: (VmPerms, VmRegionType, usize, bool),
)
    ensures
        says(x + y, vaddr, a) <==> says(x, vaddr, a) || says(y, vaddr, a),
{
    let z = x + y;
    if says(x, vaddr, a) {
        let i = choose|i: int|
            0 <= i < x.len() && (#[trigger] x[i]).covers(vaddr) && attributes(x[i]) == a;
        assert(z[i] == x[i]);
    }
    if says(y, vaddr, a) {
        let i = choose|i: int|
            0 <= i < y.len() && (#[trigger] y[i]).covers(vaddr) && attributes(y[i]) == a;
        assert(z[x.len() + i] == y[i]);
    }
    if says(z, vaddr, a) {
        let i = choose|i: int|
            0 <= i < z.len() && (#[trigger] z[i]).covers(vaddr) && attributes(z[i]) == a;
        if i < x.len() {
            assert(x[i] == z[i]);
        } else {
            assert(y[i - x.len()] == z[i]);
        }
    }
}

proof fn lemma_cut_says(
    e: VmaEntry,
    start: int,
    end: int,
    vaddr: int,
    a: (VmPerms, VmRegionType, usize, bool),
)
    requires
        0 <= start < end <= usize::MAX,
    ensures
        says(cut(e, start, end), vaddr, a) <==> e.covers(vaddr) && attributes(e) == a && !(start
            <= vaddr < end),
{
    let c = cut(e, start, end);
    if e.covers(vaddr) && attributes(e) == a && !(start <= vaddr < end) {
        if e.end_vaddr <= start || e.start_vaddr >= end || vaddr < start {
            assert(c[0].covers(vaddr));
        } else {
            assert(c[c.len() - 1].covers(vaddr));
        }
    }
}

proof fn lemma_cut_all_says(
    es: Seq<VmaEntry>,
    start: int,
    end: int,
    vaddr: int,
    a: (VmPerms, VmRegionType, usize, bool),
)
    requires
        0 <= start < end <= usize::MAX,
    ensures
        says(cut_all(es, start, end), vaddr, a) <==> says(es, vaddr, a) && !(start <= vaddr < end),
    decreases es.len(),
{
    if es.len() > 0 {
        let init = es.drop_last();
        lemma_cut_all_says(init, start, end, vaddr, a);
        lemma_cut_says(es.last(), start, end, vaddr, a);
        lemma_says_append(cut_all(init, start, end), cut(es.last(), start, end), vaddr, a);
        lemma_says_append(init, seq![es.last()], vaddr, a);
        assert(es =~= init + seq![es.last()]);
        assert(says(seq![es.last()], vaddr, a) <==> es.last().covers(vaddr) && attributes(es.last())
            == a) by {
            assert(seq![es.last()][0] == es.last());
        }
    }
}

proof fn lemma_says_is_attributes_at(
    es: Seq<VmaEntry>,
    vaddr: int,
    a: (VmPerms, VmRegionType, usize, bool),
)
    requires
        sorted(es),
    ensures
        says(es, vaddr, a) <==> attributes_at(es, vaddr) == Some(a),
{
    lemma_attributes_at(es, vaddr);
}

/// Removing a range leaves no address of the range mapped and changes nothing
/// outside it.
pub proof fn law_remove_changes_only_the_range(
    es: Seq<VmaEntry>,
    start: int,
    end: int,
    vaddr: int,
)
    requires
        sorted(es),
        0 <= start < end <= usize::MAX,
    ensures
        attributes_at(cut_all(es, start, end), vaddr) == (if start <= vaddr < end {
            None
        } else {
            attributes_at(es, vaddr)
        }),
{
    let c = cut_all(es, start, end);
    lemma_cut_all_fragments(es, start, end);
    if attributes_at(c, vaddr) is Some {
        lemma_says_is_attributes_at(c, vaddr, attributes_at(c, vaddr)->0);
        lemma_cut_all_says(es, start, end, vaddr, attributes_at(c, vaddr)->0);
        lemma_says_is_attributes_at(es, vaddr, attributes_at(c, vaddr)->0);
    }
    if attributes_at(es, vaddr) is Some {
        lemma_says_is_attributes_at(es, vaddr, attributes_at(es, vaddr)->0);
        lemma_cut_all_says(es, start, end, vaddr, attributes_at(es, vaddr)->0);
        lemma_says_is_attributes_at(c, vaddr, attributes_at(es, vaddr)->0);
    }
}

/// A region that was inserted and then removed leaves every address as it was.
pub proof fn law_remove_undoes_insert(es: Seq<VmaEntry>, e: VmaEntry, vaddr: int)
    requires
        sorted(es),
        e.start_vaddr < e.end_vaddr,
        !any_overlap(es, e.start_vaddr as int, e.end_vaddr as int),
    ensures
        attributes_at(cut_all(placed(es, e), e.start_vaddr as int, e.end_vaddr as int), vaddr)
            == attributes_at(es, vaddr),
{
    lemma_placed_sorted(es, e);
    law_place_changes_only_the_new_range(es, e, vaddr);
    law_remove_changes_only_the_range(
        placed(es, e),
        e.start_vaddr as int,
        e.end_vaddr as int,
        vaddr,
    );
    if e.covers(vaddr) {
        lemma_attributes_at(es, vaddr);
        if attributes_at(es, vaddr) is Some {
            let i = choose|i: int| 0 <= i < es.len() && (#[trigger] es[i]).covers(vaddr);
            assert(e.start_vaddr < es[i].end_vaddr && es[i].start_vaddr < e.end_vaddr);
        }
    }
}

/// Ending copy-on-write for a page changes that for the addresses of the page,
/// and nothing else for any address.
pub proof fn law_end_cow_changes_only_the_page(es: Seq<VmaEntry>, vaddr: int, other: int)
    requires
        sorted(es),
        cow_ended(es, vaddr) is Ok,
    ensures
        sorted(cow_ended(es, vaddr)->Ok_0),
        attributes_at(cow_ended(es, vaddr)->Ok_0, other) == (match attributes_at(es, other) {
            Some(a) if vaddr - vaddr % 4096 <= other < vaddr - vaddr % 4096 + 4096 && lookup(
                es,
                vaddr,
            )->0.covers(other) => Some((a.0, a.1, a.2, false)),
            a => a,
        }),
        lookup(cow_ended(es, vaddr)->Ok_0, vaddr) is Some,
        !lookup(cow_ended(es, vaddr)->Ok_0, vaddr)->0.cow,
{
    search::lemma_first_index(es, covering(vaddr), 0);
    let e = lookup(es, vaddr)->0;
    let low = page_low(e, vaddr);
    let high = page_high(e, vaddr);
    let rest = cut_all(es, low, high);
    let page = VmaEntry { start_vaddr: low as usize, end_vaddr: high as usize, cow: false, ..e };
    lemma_cut_all_fragments(es, low, high);
    lemma_cut_all_avoids(es, low, high);
    assert(!any_overlap(rest, low, high));
    lemma_placed_sorted(rest, page);
    law_place_changes_only_the_new_range(rest, page, other);
    law_remove_changes_only_the_range(es, low, high, other);
    law_place_changes_only_the_new_range(rest, page, vaddr);
    if e.covers(other) {
        let i = search::first_index(es, covering(vaddr), 0)->0;
        lemma_lookup_unique(es, other, i);
    }
}

/// Regions `i` and `i + 1` are not adjacent, or do not agree.
pub open spec fn apart_at(es: Seq<VmaEntry>, i: int) -> bool {
    !(es[i].end_vaddr == es[i + 1].start_vaddr && mergeable(es[i], es[i + 1]))
}

/// Adjacent regions that agree have been joined.
pub open spec fn merged(es: Seq<VmaEntry>) -> bool {
    forall|i: int| 0 <= i < es.len() - 1 ==> #[trigger] apart_at(es, i)
}

/// Placing a region leaves no two adjacent regions that agree, if there were
/// none before.
pub proof fn law_placing_merges(es: Seq<VmaEntry>, e: VmaEntry)
    requires
        sorted(es),
        merged(es),
        e.start_vaddr <= e.end_vaddr,
        !any_overlap(es, e.start_vaddr as int, e.end_vaddr as int),
    ensures
        merged(placed(es, e)),
{
    let p = insert_pos(es, e.start_vaddr as int);
    lemma_insert_pos(es, e.start_vaddr as int);
    let r = placed(es, e);
    let prev = joins_prev(es, e, p);
    let next = joins_next(es, e, p);
    if prev && next {
        assert forall|i: int| 0 <= i < r.len() - 1 implies #[trigger] apart_at(r, i) by {
            assert(apart_at(es, if i < p - 1 { i } else { i + 1 }));
        }
    } else if prev || next {
        assert forall|i: int| 0 <= i < r.len() - 1 implies #[trigger] apart_at(r, i) by {
            assert(apart_at(es, i));
        }
    } else {
        assert forall|i: int| 0 <= i < r.len() - 1 implies #[trigger] apart_at(r, i) by {
            if i + 1 < p {
                assert(apart_at(es, i));
            } else if i > p {
                assert(apart_at(es, i - 1));
            }
        }
    }
}

/// Splitting a region changes what is said of no address.
pub proof fn law_split_changes_no_address(es: Seq<VmaEntry>, i: int, at: usize, vaddr: int)
    requires
        sorted(es),
        0 <= i < es.len(),
        es[i].covers(at as int),
        es[i].start_vaddr != at,
    ensures
        attributes_at(
            es.update(i, VmaEntry { end_vaddr: at, ..es[i] }).insert(
                i + 1,
                VmaEntry { start_vaddr: at, ..es[i] },
            ),
            vaddr,
        ) == attributes_at(es, vaddr),
{
    let r = es.update(i, VmaEntry { end_vaddr: at, ..es[i] }).insert(
        i + 1,
        VmaEntry { start_vaddr: at, ..es[i] },
    );
    assert forall|j: int| 0 <= j < r.len() implies (#[trigger] r[j]).start_vaddr <= r[j].end_vaddr by {
        let oj = if j <= i { j } else { j - 1 };
        assert(es[oj].start_vaddr <= es[oj].end_vaddr);
    }
    assert forall|j: int, k: int| 0 <= j < k < r.len() implies (#[trigger] r[j]).end_vaddr <= (
    #[trigger] r[k]).start_vaddr by {
        let oj = if j <= i { j } else { j - 1 };
        let ok = if k <= i { k } else { k - 1 };
        if oj < ok {
            assert(es[oj].end_vaddr <= es[ok].start_vaddr);
        }
        assert(es[oj].start_vaddr <= es[oj].end_vaddr);
    }
    lemma_attributes_at(es, vaddr);
    lemma_attributes_at(r, vaddr);
    assert(r[i].covers(vaddr) || r[i + 1].covers(vaddr) <==> es[i].covers(vaddr));
    assert forall|j: int| 0 <= j < es.len() && j != i implies #[trigger] es[j] == r[if j < i {
        j
    } else {
        j + 1
    }] by {}
    assert forall|j: int| 0 <= j < r.len() && j != i && j != i + 1 implies #[trigger] r[j] == es[if j
        < i {
        j
    } else {
        j - 1
    }] by {}
}

// ---------------------------------------------------------------------------
// Convenience constructors
// ---------------------------------------------------------------------------

/// An anonymous region of category `t` over `[start, end)`.
pub open spec fn plain_entry(
    start: usize,
    end: usize,
    perms: VmPerms,
    t: VmRegionType,
) -> VmaEntry {
    VmaEntry {
        start_vaddr: start,
        end_vaddr: end,
        perms,
        region_type: t,
        backing_offset: 0,
        cow: false,
    }
}

/// A heap over `[start, end)`.
pub open spec fn heap_entry(start: usize, end: usize) -> VmaEntry {
    plain_entry(start, end, VmPerms::RW(), VmRegionType::Heap)
}

impl VmaEntry {
    /// Create a code region (RX).
    pub fn new_code(start: usize, end: usize) -> (r: Self)
        ensures
            r == plain_entry(start, end, VmPerms::RX(), VmRegionType::Code),
    {
        VmaEntry {
            start_vaddr: start,
            end_vaddr: end,
            perms: VmPerms::RX(),
            region_type: VmRegionType::Code,
            backing_offset: 0,
            cow: false,
        }
    }

    /// Create a data region (RW).
    pub fn new_data(start: usize, end: usize) -> (r: Self)
        ensures
            r == plain_entry(start, end, VmPerms::RW(), VmRegionType::Data),
    {
        VmaEntry {
            start_vaddr: start,
            end_vaddr: end,
            perms: VmPerms::RW(),
            region_type: VmRegionType::Data,
            backing_offset: 0,
            cow: false,
        }
    }

    /// Create a heap region (RW, grows upward).
    pub fn new_heap(start: usize, end: usize) -> (r: Self)
        ensures
            r == heap_entry(start, end),
    {
        VmaEntry {
            start_vaddr: start,
            end_vaddr: end,
            perms: VmPerms::RW(),
            region_type: VmRegionType::Heap,
            backing_offset: 0,
            cow: false,
        }
    }

    /// Create a stack region (RW, grows downward).
    pub fn new_stack(start: usize, end: usize) -> (r: Self)
        ensures
            r == plain_entry(start, end, VmPerms::RW(), VmRegionType::Stack),
    {
        VmaEntry {
            start_vaddr: start,
            end_vaddr: end,
            perms: VmPerms::RW(),
            region_type: VmRegionType::Stack,
            backing_offset: 0,
            cow: false,
        }
    }

    /// Create an anonymous mmap region.
    pub fn new_mmap(start: usize, end: usize, perms: VmPerms) -> (r: Self)
        ensures
            r == plain_entry(start, end, perms, VmRegionType::Mmap),
    {
        VmaEntry {
            start_vaddr: start,
            end_vaddr: end,
            perms,
            region_type: VmRegionType::Mmap,
            backing_offset: 0,
            cow: false,
        }
    }

    /// Create a guard page (one page, no access).
    pub fn new_guard(addr: usize) -> (r: Self)
        requires
            addr + PAGE_SIZE <= usize::MAX,
        ensures
            r == plain_entry(
                addr,
                (addr + PAGE_SIZE) as usize,
                VmPerms::NONE(),
                VmRegionType::Guard,
            ),
    {
        VmaEntry {
            start_vaddr: addr,
            end_vaddr: addr + PAGE_SIZE,
            perms: VmPerms::NONE(),
            region_type: VmRegionType::Guard,
            backing_offset: 0,
            cow: false,
        }
    }
}

/// Once regions were placed one after the other, each address that one of them
/// covers is said what that region says, and every other address what it was.
pub proof fn law_placed_regions_are_found(es: Seq<VmaEntry>, steps: Seq<VmaEntry>, k: int, vaddr: int)
    requires
        sorted(es),
        forall|i: int|
            0 <= i < steps.len() ==> (#[trigger] steps[i]).start_vaddr <= steps[i].end_vaddr,
        place_all(es, steps).1 is Ok,
    ensures
        sorted(place_all(es, steps).0),
        0 <= k < steps.len() && steps[k].start_vaddr <= vaddr < steps[k].end_vaddr ==> attributes_at(
            place_all(es, steps).0,
            vaddr,
        ) == Some(
            (steps[k].perms, steps[k].region_type, steps[k].backing_offset, steps[k].cow),
        ),
        (forall|i: int|
            0 <= i < steps.len() ==> !((#[trigger] steps[i]).start_vaddr <= vaddr
                < steps[i].end_vaddr)) ==> attributes_at(place_all(es, steps).0, vaddr)
            == attributes_at(es, vaddr),
    decreases steps.len(),
{
    if steps.len() > 0 {
        let next = placed(es, steps[0]);
        let rest = steps.drop_first();
        lemma_placed_sorted(es, steps[0]);
        law_place_changes_only_the_new_range(es, steps[0], vaddr);
        assert forall|i: int| 0 <= i < rest.len() implies (#[trigger] rest[i]).start_vaddr
            <= rest[i].end_vaddr by {
            assert(rest[i] == steps[i + 1]);
        }
        law_placed_regions_are_found(next, rest, k - 1, vaddr);
        if k == 0 && steps[0].covers(vaddr) {
            lemma_not_covered_again(next, rest, vaddr);
        }
        if forall|i: int|
            0 <= i < steps.len() ==> !((#[trigger] steps[i]).start_vaddr <= vaddr
                < steps[i].end_vaddr) {
            assert forall|i: int| 0 <= i < rest.len() implies !((#[trigger] rest[i]).start_vaddr
                <= vaddr < rest[i].end_vaddr) by {
                assert(rest[i] == steps[i + 1]);
            }
            assert(!steps[0].covers(vaddr));
        }
    }
}

/// An address that is covered is covered by none of the regions placed later.
proof fn lemma_not_covered_again(es: Seq<VmaEntry>, steps: Seq<VmaEntry>, vaddr: int)
    requires
        sorted(es),
        attributes_at(es, vaddr) is Some,
        forall|i: int|
            0 <= i < steps.len() ==> (#[trigger] steps[i]).start_vaddr <= steps[i].end_vaddr,
        place_all(es, steps).1 is Ok,
    ensures
        forall|i: int|
            0 <= i < steps.len() ==> !((#[trigger] steps[i]).start_vaddr <= vaddr
                < steps[i].end_vaddr),
    decreases steps.len(),
{
    if steps.len() > 0 {
        let next = placed(es, steps[0]);
        let rest = steps.drop_first();
        lemma_placed_sorted(es, steps[0]);
        law_place_changes_only_the_new_range(es, steps[0], vaddr);
        lemma_attributes_at(es, vaddr);
        let j = choose|j: int| 0 <= j < es.len() && (#[trigger] es[j]).covers(vaddr);
        assert(!steps[0].covers(vaddr)) by {
            if steps[0].covers(vaddr) {
                assert(steps[0].start_vaddr < es[j].end_vaddr && steps[0].end_vaddr
                    > es[j].start_vaddr);
            }
        }
        assert forall|i: int| 0 <= i < rest.len() implies (#[trigger] rest[i]).start_vaddr
            <= rest[i].end_vaddr by {
            assert(rest[i] == steps[i + 1]);
        }
        lemma_not_covered_again(next, rest, vaddr);
        assert forall|i: int| 0 <= i < steps.len() implies !((#[trigger] steps[i]).start_vaddr
            <= vaddr < steps[i].end_vaddr) by {
            if i > 0 {
                assert(rest[i - 1] == steps[i]);
            }
        }
    }
}

/// A region is refused exactly where it shares an address with another, or where
/// the table is full.
pub proof fn law_placing_is_refused(es: Seq<VmaEntry>, e: VmaEntry)
    requires
        e.start_vaddr < e.end_vaddr,
        forall|i: int| 0 <= i < es.len() ==> (#[trigger] es[i]).start_vaddr < es[i].end_vaddr,
    ensures
        place(es, e) is Err <==> es.len() >= 64 || exists|i: int, a: int|
            0 <= i < es.len() && (#[trigger] es[i]).start_vaddr <= a < es[i].end_vaddr
                && #[trigger] in_region(e, a),
        place(es, e) == Err::<Seq<VmaEntry>, MmError>(MmError::OutOfMemory) <==> es.len() >= 64,
{
    if any_overlap(es, e.start_vaddr as int, e.end_vaddr as int) {
        let i = choose|i: int|
            0 <= i < es.len() && e.start_vaddr < (#[trigger] es[i]).end_vaddr && e.end_vaddr
                > es[i].start_vaddr;
        let a = if es[i].start_vaddr < e.start_vaddr {
            e.start_vaddr as int
        } else {
            es[i].start_vaddr as int
        };
        assert(es[i].start_vaddr < es[i].end_vaddr);
        assert(in_region(e, a));
    }
}

/// The address lies in the region.
pub open spec fn in_region(e: VmaEntry, a: int) -> bool {
    e.start_vaddr <= a < e.end_vaddr
}

/// A region is looked up by any of its addresses, and by no other.
pub proof fn law_lookup(es: Seq<VmaEntry>, vaddr: int)
    requires
        sorted(es),
    ensures
        match lookup(es, vaddr) {
            Some(e) => es.contains(e) && in_region(e, vaddr),
            None => forall|i: int| 0 <= i < es.len() ==> !in_region(#[trigger] es[i], vaddr),
        },
        forall|i: int|
            0 <= i < es.len() && in_region(#[trigger] es[i], vaddr) ==> lookup(es, vaddr) == Some(
                es[i],
            ),
{
    search::lemma_first_index(es, covering(vaddr), 0);
    assert forall|i: int| 0 <= i < es.len() && in_region(#[trigger] es[i], vaddr) implies lookup(
        es,
        vaddr,
    ) == Some(es[i]) by {
        lemma_lookup_unique(es, vaddr, i);
    }
    match search::first_index(es, covering(vaddr), 0) {
        Some(i) => {
            assert(es[i] == lookup(es, vaddr)->0);
        },
        None => {
            assert forall|i: int| 0 <= i < es.len() implies !in_region(#[trigger] es[i], vaddr) by {
                assert(!covering(vaddr)(es[i]));
            }
        },
    }
}

} // verus!
