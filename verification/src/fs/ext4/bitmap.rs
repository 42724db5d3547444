//! Allocation bitmaps: a set bit marks an inode or a block that is in use.
use vstd::prelude::*;

verus! {

/// The bit of its byte that stands for item `i`.
pub open spec fn mask(i: int) -> u8 {
    1u8 << ((i % 8) as u8)
}

/// Item `i` is in use.
pub open spec fn bit_set(b: Seq<u8>, i: int) -> bool {
    b[i / 8] & mask(i) != 0
}

/// `b` with item `i` in use.
pub open spec fn with_bit(b: Seq<u8>, i: int) -> Seq<u8> {
    b.update(i / 8, b[i / 8] | mask(i))
}

/// `b` with item `i` free.
pub open spec fn without_bit(b: Seq<u8>, i: int) -> Seq<u8> {
    b.update(i / 8, b[i / 8] & !mask(i))
}

/// `b` with the `n` items from `from` on in use.
pub open spec fn with_range(b: Seq<u8>, from: int, n: int) -> Seq<u8>
    decreases n,
{
    if n <= 0 {
        b
    } else {
        with_bit(with_range(b, from, n - 1), from + n - 1)
    }
}

/// `b` with the `n` items from `from` on free.
pub open spec fn without_range(b: Seq<u8>, from: int, n: int) -> Seq<u8>
    decreases n,
{
    if n <= 0 {
        b
    } else {
        without_bit(without_range(b, from, n - 1), from + n - 1)
    }
}

/// The first free item at or after `from`.
pub open spec fn first_clear(b: Seq<u8>, from: int) -> Option<int>
    decreases 8 * b.len() - from,
{
    if from < 0 || from >= 8 * b.len() {
        None
    } else if !bit_set(b, from) {
        Some(from)
    } else {
        first_clear(b, from + 1)
    }
}

/// The `k` items from `i` on are free, and all are among the first `n`.
pub open spec fn free_run(b: Seq<u8>, n: int, i: int, k: int) -> bool {
    &&& 0 <= i
    &&& i + k <= n
    &&& forall|j: int| i <= j < i + k ==> !#[trigger] bit_set(b, j)
}

/// Among the first `n` items, `c` free ones follow each other from `s` on, and
/// no earlier place has as many; `c` is `max` (when that is not 0) or else the
/// most that follow each other anywhere.
pub open spec fn is_widest(b: Seq<u8>, n: int, max: int, s: int, c: int) -> bool {
    &&& c > 0
    &&& max > 0 ==> c <= max
    &&& free_run(b, n, s, c)
    &&& forall|i: int| #[trigger] free_run(b, n, i, c) ==> s <= i
    &&& c == max || forall|i: int| !#[trigger] free_run(b, n, i, c + 1)
}

/// The widest run of at most `max` free items among the first `n`: its start
/// and its length.
pub open spec fn widest(b: Seq<u8>, n: int, max: int) -> Option<(int, int)> {
    if exists|i: int| #[trigger] free_run(b, n, i, 1) {
        Some(choose|p: (int, int)| #[trigger] is_widest(b, n, max, p.0, p.1))
    } else {
        None
    }
}

proof fn lemma_bit_ops(x: u8, i: u8, k: u8)
    by (bit_vector)
    requires
        i < 8,
        k < 8,
    ensures
        ((x | (1u8 << i)) & (1u8 << k) != 0) == (i == k || x & (1u8 << k) != 0),
        ((x & !(1u8 << i)) & (1u8 << k) != 0) == (i != k && x & (1u8 << k) != 0),
        x & (1u8 << i) == 0 ==> (x | (1u8 << i)) & !(1u8 << i) == x,
{
}

/// Which items are in use after one was taken or freed.
pub proof fn lemma_bit(b: Seq<u8>, i: int, k: int)
    requires
        0 <= i < 8 * b.len(),
        0 <= k < 8 * b.len(),
    ensures
        bit_set(with_bit(b, i), k) == (k == i || bit_set(b, k)),
        bit_set(without_bit(b, i), k) == (k != i && bit_set(b, k)),
        !bit_set(b, i) ==> without_bit(with_bit(b, i), i) == b,
{
    lemma_bit_ops(b[i / 8], (i % 8) as u8, (k % 8) as u8);
    if i / 8 == k / 8 {
        assert(i % 8 == k % 8 ==> i == k);
    }
    if !bit_set(b, i) {
        assert(without_bit(with_bit(b, i), i) =~= b);
    }
}

/// Taking or freeing a run changes the items of the run and no others.
pub proof fn law_ranges(b: Seq<u8>, from: int, n: int, k: int)
    requires
        0 <= from,
        0 <= n,
        from + n <= 8 * b.len(),
    ensures
        with_range(b, from, n).len() == b.len(),
        without_range(b, from, n).len() == b.len(),
        0 <= k < 8 * b.len() ==> {
            &&& bit_set(with_range(b, from, n), k) == (from <= k < from + n || bit_set(b, k))
            &&& bit_set(without_range(b, from, n), k) == (!(from <= k < from + n) && bit_set(b, k))
        },
    decreases n,
{
    if n > 0 {
        law_ranges(b, from, n - 1, k);
    }
    if n > 0 && 0 <= k < 8 * b.len() {
        lemma_bit(with_range(b, from, n - 1), from + n - 1, k);
        lemma_bit(without_range(b, from, n - 1), from + n - 1, k);
    }
}

/// Bitmaps of the same length whose items agree are the same.
pub proof fn lemma_same_bits(a: Seq<u8>, b: Seq<u8>)
    requires
        a.len() == b.len(),
        forall|k: int| 0 <= k < 8 * b.len() ==> #[trigger] bit_set(a, k) == bit_set(b, k),
    ensures
        a == b,
{
    assert forall|i: int| 0 <= i < b.len() implies a[i] == b[i] by {
        let x = a[i];
        let y = b[i];
        assert forall|j: u8| j < 8 implies (#[trigger] (x & (1u8 << j)) != 0) == (y & (1u8 << j)
            != 0) by {
            let k = 8 * i + j;
            assert(k / 8 == i && k % 8 == j);
            assert(bit_set(a, k) == bit_set(b, k));
        }
        assert(x & (1u8 << 0u8) != 0 <==> y & (1u8 << 0u8) != 0);
        assert(x & (1u8 << 1u8) != 0 <==> y & (1u8 << 1u8) != 0);
        assert(x & (1u8 << 2u8) != 0 <==> y & (1u8 << 2u8) != 0);
        assert(x & (1u8 << 3u8) != 0 <==> y & (1u8 << 3u8) != 0);
        assert(x & (1u8 << 4u8) != 0 <==> y & (1u8 << 4u8) != 0);
        assert(x & (1u8 << 5u8) != 0 <==> y & (1u8 << 5u8) != 0);
        assert(x & (1u8 << 6u8) != 0 <==> y & (1u8 << 6u8) != 0);
        assert(x & (1u8 << 7u8) != 0 <==> y & (1u8 << 7u8) != 0);
        assert(x == y) by (bit_vector)
            requires
                x & (1u8 << 0u8) != 0 <==> y & (1u8 << 0u8) != 0,
                x & (1u8 << 1u8) != 0 <==> y & (1u8 << 1u8) != 0,
                x & (1u8 << 2u8) != 0 <==> y & (1u8 << 2u8) != 0,
                x & (1u8 << 3u8) != 0 <==> y & (1u8 << 3u8) != 0,
                x & (1u8 << 4u8) != 0 <==> y & (1u8 << 4u8) != 0,
                x & (1u8 << 5u8) != 0 <==> y & (1u8 << 5u8) != 0,
                x & (1u8 << 6u8) != 0 <==> y & (1u8 << 6u8) != 0,
                x & (1u8 << 7u8) != 0 <==> y & (1u8 << 7u8) != 0,
        ;
    }
    assert(a =~= b);
}

/// Freeing a run that was free before it was taken restores the bitmap.
pub proof fn law_free_undoes_take(b: Seq<u8>, from: int, n: int)
    requires
        0 <= n,
        free_run(b, 8 * b.len() as int, from, n),
    ensures
        without_range(with_range(b, from, n), from, n) == b,
{
    law_ranges(b, from, n, 0);
    let a = without_range(with_range(b, from, n), from, n);
    law_ranges(with_range(b, from, n), from, n, 0);
    assert forall|k: int| 0 <= k < 8 * b.len() implies #[trigger] bit_set(a, k) == bit_set(b, k) by {
        law_ranges(b, from, n, k);
        law_ranges(with_range(b, from, n), from, n, k);
    }
    lemma_same_bits(a, b);
}

proof fn lemma_shorter_run(b: Seq<u8>, n: int, i: int, k: int, m: int)
    requires
        free_run(b, n, i, k),
        m <= k,
    ensures
        free_run(b, n, i, m),
{
}

/// There is only one widest run.
proof fn lemma_widest_unique(b: Seq<u8>, n: int, max: int, p: (int, int), q: (int, int))
    requires
        is_widest(b, n, max, p.0, p.1),
        is_widest(b, n, max, q.0, q.1),
    ensures
        p == q,
{
    if p.1 < q.1 {
        lemma_shorter_run(b, n, q.0, q.1, p.1 + 1);
    }
    if q.1 < p.1 {
        lemma_shorter_run(b, n, p.0, p.1, q.1 + 1);
    }
}

proof fn lemma_is_widest(b: Seq<u8>, n: int, max: int, s: int, c: int)
    requires
        is_widest(b, n, max, s, c),
    ensures
        widest(b, n, max) == Some((s, c)),
{
    lemma_shorter_run(b, n, s, c, 1);
    let w = (s, c);
    assert(is_widest(b, n, max, w.0, w.1));
    let p = choose|p: (int, int)| #[trigger] is_widest(b, n, max, p.0, p.1);
    lemma_widest_unique(b, n, max, p, w);
}

/// The widest run lies inside the bitmap.
pub proof fn lemma_widest_in(b: Seq<u8>, n: int, max: int)
    requires
        max >= 0,
        n >= 0,
    ensures
        match widest(b, n, max) {
            Some(p) => is_widest(b, n, max, p.0, p.1),
            None => true,
        },
{
    if exists|i: int| #[trigger] free_run(b, n, i, 1) {
        lemma_widest_exists(b, n, max, 1);
    }
}

/// Where `c` free items follow each other somewhere, there is a widest run.
proof fn lemma_widest_exists(b: Seq<u8>, n: int, max: int, c: int)
    requires
        exists|i: int| #[trigger] free_run(b, n, i, c),
        c > 0,
        max > 0 ==> c <= max,
        n >= 0,
    ensures
        exists|p: (int, int)| #[trigger] is_widest(b, n, max, p.0, p.1),
    decreases n - c,
{
    if c != max && exists|i: int| #[trigger] free_run(b, n, i, c + 1) {
        lemma_widest_exists(b, n, max, c + 1);
    } else {
        let i = choose|i: int| #[trigger] free_run(b, n, i, c);
        lemma_first_run(b, n, c, i);
        let s = choose|s: int| #[trigger]
            free_run(b, n, s, c) && forall|i: int| #[trigger] free_run(b, n, i, c) ==> s <= i;
        let p = (s, c);
        assert(is_widest(b, n, max, p.0, p.1));
    }
}

proof fn lemma_first_run(b: Seq<u8>, n: int, c: int, i: int)
    requires
        free_run(b, n, i, c),
    ensures
        exists|s: int| #[trigger]
            free_run(b, n, s, c) && forall|i: int| #[trigger] free_run(b, n, i, c) ==> s <= i,
    decreases i,
{
    if exists|j: int| #[trigger] free_run(b, n, j, c) && j < i {
        let j = choose|j: int| #[trigger] free_run(b, n, j, c) && j < i;
        lemma_first_run(b, n, c, j);
    }
}

fn test_bit(b: &Vec<u8>, i: usize) -> (r: bool)
    requires
        i < 8 * b@.len(),
    ensures
        r == bit_set(b@, i as int),
{
    b[i / 8] & (1u8 << ((i % 8) as u8)) != 0
}

fn set_bit(b: &mut Vec<u8>, i: usize)
    requires
        i < 8 * old(b)@.len(),
    ensures
        final(b)@ == with_bit(old(b)@, i as int),
{
    let v: u8 = b[i / 8] | (1u8 << ((i % 8) as u8));
    b.set(i / 8, v);
}

fn clear_bit(b: &mut Vec<u8>, i: usize)
    requires
        i < 8 * old(b)@.len(),
    ensures
        final(b)@ == without_bit(old(b)@, i as int),
{
    let v: u8 = b[i / 8] & !(1u8 << ((i % 8) as u8));
    b.set(i / 8, v);
}

/// The bitmap after an allocation of one item, and the item.  The first free
/// item is taken; it counts only when its byte is not beyond `size`.
pub open spec fn taken_one(b: Seq<u8>, size: int) -> (Seq<u8>, Option<int>) {
    match first_clear(b, 0) {
        Some(i) => (with_bit(b, i), if i / 8 <= size {
            Some(i)
        } else {
            None
        }),
        None => (b, None),
    }
}

/// Number of items in a bitmap of `len` bytes of which `size` are in use.
pub open spec fn item_count(len: int, size: int) -> int {
    if size < len {
        8 * size
    } else {
        8 * len
    }
}

/// The bitmap after an allocation of up to `max` items that follow each other,
/// and the run.
pub open spec fn taken_run(b: Seq<u8>, size: int, max: int) -> (Seq<u8>, Option<(int, int)>) {
    match widest(b, item_count(b.len() as int, size), max) {
        Some(p) => (with_range(b, p.0, p.1), Some(p)),
        None => (b, None),
    }
}

/// The bitmap after item `i` was freed; items beyond `size` bytes stay.
pub open spec fn freed_one(b: Seq<u8>, i: int, size: int) -> Seq<u8> {
    if i / 8 < b.len() && i / 8 < size {
        without_bit(b, i)
    } else {
        b
    }
}

/// The bitmap after `n` items from `from` on were freed.  Nothing is freed
/// unless the first item's byte and `n` more are below `size`.
pub open spec fn freed_run(b: Seq<u8>, from: int, n: int, size: int) -> Seq<u8> {
    if from / 8 < b.len() && from / 8 + n < size {
        without_range(b, from, n)
    } else {
        b
    }
}

/// One block of an allocation bitmap.
pub struct Ext4Bitmap {
    bitmap: Vec<u8>,
}

impl View for Ext4Bitmap {
    type V = Seq<u8>;

    closed spec fn view(&self) -> Seq<u8> {
        self.bitmap@
    }
}

impl Ext4Bitmap {
    /// One block.
    pub open spec fn wf(self) -> bool {
        self@.len() == 4096
    }

    pub fn new(bitmap: Vec<u8>) -> (r: Self)
        requires
            bitmap@.len() == 4096,
        ensures
            r.wf(),
            r@ == bitmap@,
    {
        Ext4Bitmap { bitmap }
    }

    /// The block.
    pub fn into_block(self) -> (r: Vec<u8>)
        ensures
            r@ == self@,
    {
        self.bitmap
    }

    /// Take the first free item.
    pub fn alloc_bit(&mut self, inode_bitmap_size: usize) -> (r: Option<usize>)
        requires
            old(self).wf(),
        ensures
            final(self).wf(),
            final(self)@ == taken_one(old(self)@, inode_bitmap_size as int).0,
            match r {
                Some(i) => taken_one(old(self)@, inode_bitmap_size as int).1 == Some(i as int) && i
                    < 0x8000,
                None => taken_one(old(self)@, inode_bitmap_size as int).1 is None,
            },
    {
        let mut i: usize = 0;
        while i < 0x8000
            invariant
                i <= 0x8000,
                *self == *old(self),
                self.wf(),
                first_clear(self@, 0) == first_clear(self@, i as int),
            decreases 0x8000 - i,
        {
            if !test_bit(&self.bitmap, i) {
                set_bit(&mut self.bitmap, i);
                return if i / 8 <= inode_bitmap_size {
                    Some(i)
                } else {
                    None
                };
            }
            i += 1;
        }
        None
    }

    /// Take up to `max_count` free items that follow each other: as many as can
    /// be had at one place.
    pub fn alloc_contiguous(&mut self, bitmap_size: usize, max_count: usize) -> (r: Option<
        (usize, u32),
    >)
        requires
            old(self).wf(),
        ensures
            final(self).wf(),
            final(self)@ == taken_run(old(self)@, bitmap_size as int, max_count as int).0,
            match r {
                Some(p) => taken_run(old(self)@, bitmap_size as int, max_count as int).1 == Some(
                    (p.0 as int, p.1 as int),
                ) && p.0 + p.1 <= 0x8000 && p.1 > 0 && (max_count > 0 ==> p.1 <= max_count),
                None => taken_run(old(self)@, bitmap_size as int, max_count as int).1 is None,
            },
    {
        let n: usize = if bitmap_size < EXT4_BITMAP_BYTES {
            8 * bitmap_size
        } else {
            8 * EXT4_BITMAP_BYTES
        };
        let ghost b = self@;
        let mut run: usize = 0;
        let mut longest: usize = 0;
        let mut longest_start: usize = 0;
        let mut bit: usize = 0;
        assert forall|i: int| !#[trigger] free_run(b, 0, i, 1) by {}
        while bit < n
            invariant
                bit <= n <= 0x8000,
                n == item_count(b.len() as int, bitmap_size as int),
                *self == *old(self),
                b == self@,
                self.wf(),
                run <= longest <= bit,
                run <= bit,
                free_run(b, bit as int, bit - run, run as int),
                run < bit ==> bit_set(b, bit - run - 1),
                longest > 0 ==> free_run(b, bit as int, longest_start as int, longest as int),
                longest > 0 ==> forall|i: int| #[trigger]
                    free_run(b, bit as int, i, longest as int) ==> longest_start <= i,
                forall|i: int| !#[trigger] free_run(b, bit as int, i, longest + 1),
                max_count > 0 ==> longest < max_count,
            decreases n - bit,
        {
            let ghost bit0 = bit as int;
            let ghost run0 = run as int;
            let ghost longest0 = longest as int;
            if !test_bit(&self.bitmap, bit) {
                run += 1;
                let start: usize = bit + 1 - run;
                proof {
                    assert(free_run(b, bit + 1, start as int, run as int));
                    assert forall|i: int, k: int| #[trigger]
                        free_run(b, bit + 1, i, k) && k > run as int implies free_run(
                        b,
                        bit0,
                        i,
                        k,
                    ) by {
                        if i + k == bit + 1 && start > 0 {
                            assert(!bit_set(b, start - 1));
                        }
                    }
                }
                if run > longest {
                    longest = run;
                    longest_start = start;
                    assert forall|i: int| #[trigger] free_run(b, bit + 1, i, longest as int) implies longest_start
                        <= i by {
                        if i + longest <= bit0 {
                            assert(free_run(b, bit0, i, longest0 + 1));
                        }
                    }
                } else {
                    assert forall|i: int| #[trigger] free_run(b, bit + 1, i, longest as int) implies longest_start
                        <= i by {
                        if i + longest <= bit0 {
                            assert(free_run(b, bit0, i, longest as int));
                        } else {
                            assert(longest_start + longest <= bit0);
                        }
                    }
                }
                assert forall|i: int| !#[trigger] free_run(b, bit + 1, i, longest + 1) by {
                    if free_run(b, bit + 1, i, longest + 1) {
                        assert(free_run(b, bit0, i, longest + 1));
                        lemma_shorter_run(b, bit0, i, longest + 1, longest0 + 1);
                    }
                }
                if run == max_count {
                    proof {
                        assert forall|i: int| #[trigger]
                            free_run(b, n as int, i, run as int) implies start <= i by {
                            if i < start {
                                assert(free_run(b, bit + 1, i, run as int));
                            }
                        }
                        lemma_is_widest(
                            b,
                            n as int,
                            max_count as int,
                            start as int,
                            run as int,
                        );
                    }
                    self.take_run(start, run);
                    return Some((start, run as u32));
                }
            } else {
                run = 0;
                assert forall|i: int, k: int| #[trigger] free_run(b, bit + 1, i, k) && k
                    > 0 implies free_run(b, bit0, i, k) by {
                    if i + k == bit + 1 {
                        assert(!bit_set(b, bit0));
                    }
                }
            }
            bit += 1;
        }
        if longest > 0 {
            proof {
                lemma_is_widest(
                    b,
                    n as int,
                    max_count as int,
                    longest_start as int,
                    longest as int,
                );
            }
            self.take_run(longest_start, longest);
            return Some((longest_start, longest as u32));
        }
        assert forall|i: int| !#[trigger] free_run(b, n as int, i, 1) by {
            assert(!free_run(b, bit as int, i, longest + 1));
        }
        None
    }

    fn take_run(&mut self, start: usize, count: usize)
        requires
            old(self).wf(),
            start + count <= 0x8000,
        ensures
            final(self).wf(),
            final(self)@ == with_range(old(self)@, start as int, count as int),
    {
        let mut i: usize = 0;
        while i < count
            invariant
                i <= count,
                start + count <= 0x8000,
                self.wf(),
                self@ == with_range(old(self)@, start as int, i as int),
            decreases count - i,
        {
            set_bit(&mut self.bitmap, start + i);
            i += 1;
        }
    }

    /// Free one item.
    pub fn dealloc(&mut self, block_offset: usize, bitmap_size: usize)
        requires
            old(self).wf(),
        ensures
            final(self).wf(),
            final(self)@ == freed_one(old(self)@, block_offset as int, bitmap_size as int),
    {
        if block_offset / 8 < self.bitmap.len() && block_offset / 8 < bitmap_size {
            clear_bit(&mut self.bitmap, block_offset);
        }
    }

    /// Free items that follow each other.
    pub fn dealloc_contiguous(&mut self, start_block: usize, block_count: usize, bitmap_size: usize)
        requires
            old(self).wf(),
            run_in_block(start_block as int, block_count as int, bitmap_size as int),
        ensures
            final(self).wf(),
            final(self)@ == freed_run(
                old(self)@,
                start_block as int,
                block_count as int,
                bitmap_size as int,
            ),
    {
        let first: usize = start_block / 8;
        if first < self.bitmap.len() && first < bitmap_size && block_count < bitmap_size - first {
            let mut i: usize = 0;
            while i < block_count
                invariant
                    i <= block_count,
                    start_block + block_count <= 0x8000,
                    self.wf(),
                    self@ == without_range(old(self)@, start_block as int, i as int),
                decreases block_count - i,
            {
                clear_bit(&mut self.bitmap, start_block + i);
                i += 1;
            }
        }
    }
}

/// Bytes of a bitmap block.
pub const EXT4_BITMAP_BYTES: usize = 4096;

/// A run that is to be freed does not reach beyond the bitmap's block.
pub open spec fn run_in_block(from: int, n: int, size: int) -> bool {
    (from / 8 < 4096 && from / 8 + n < size) ==> from + n <= 0x8000
}

/// An allocation takes an item that was free and changes no other.
pub proof fn law_allocation_takes_a_free_item(b: Seq<u8>, size: int, k: int)
    requires
        taken_one(b, size).1 is Some,
        0 <= k < 8 * b.len(),
    ensures
        ({
            let i = taken_one(b, size).1->0;
            &&& 0 <= i < 8 * b.len()
            &&& !bit_set(b, i)
            &&& bit_set(taken_one(b, size).0, k) == (k == i || bit_set(b, k))
        }),
{
    lemma_first_clear(b, 0);
    lemma_bit(b, taken_one(b, size).1->0, k);
}

/// What the first free item at or after `from` is.
pub proof fn lemma_first_clear(b: Seq<u8>, from: int)
    requires
        0 <= from,
    ensures
        match first_clear(b, from) {
            Some(i) => from <= i < 8 * b.len() && !bit_set(b, i) && forall|j: int|
                from <= j < i ==> #[trigger] bit_set(b, j),
            None => forall|j: int| from <= j < 8 * b.len() ==> #[trigger] bit_set(b, j),
        },
    decreases 8 * b.len() - from,
{
    if from < 8 * b.len() && bit_set(b, from) {
        lemma_first_clear(b, from + 1);
    }
}

} // verus!
