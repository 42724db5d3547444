//! Buddy-system physical page allocator with a page cache in front of it.
//!
//! The buddy system manages pages in orders `0..=MAX_ORDER`, where each free
//! block of order `k` stands for `2^k` contiguous pages.  Allocation splits
//! larger blocks; freeing merges a block with its buddy as long as the buddy is
//! free.  Single pages go through `PcpCache`, which refills from and drains to
//! the buddy system in batches.
use vstd::prelude::*;

verus! {

/// Page size (bytes).
pub const PAGE_SIZE: usize = 4096;

/// Maximum buddy order: `2^10 = 1024` pages = 4 MiB max contiguous allocation.
pub const MAX_ORDER: usize = 10;

/// Number of free lists.
const ORDERS: usize = 11;

/// Page cache batch size for refill and drain.
const PCP_BATCH: usize = 16;

/// Page cache capacity: a full cache drains to the buddy system.
const PCP_HIGH: usize = 64;

/// Upper bound on the number of managed pages (4 GiB of RAM).
const MAX_MANAGED_PAGES: usize = 0x10_0000;

/// Link value of a page that ends its free list or is in none.
const LINK_NONE: usize = usize::MAX;

// ---------------------------------------------------------------------------
// Model
// ---------------------------------------------------------------------------

/// Number of pages in a block of the given order.
pub open spec fn block_pages(order: int) -> int
    decreases order,
{
    if order <= 0 {
        1
    } else {
        2 * block_pages(order - 1)
    }
}

/// The other half of the block of order `order + 1` that contains block `pfn`.
pub open spec fn buddy_of(pfn: int, order: int) -> int {
    if (pfn / block_pages(order)) % 2 == 0 {
        pfn + block_pages(order)
    } else {
        pfn - block_pages(order)
    }
}

/// What a buddy allocator knows: for each order the free blocks, most recently
/// freed first, and the number of managed pages.
#[verifier::ext_equal]
pub struct BuddyModel {
    pub lists: Seq<Seq<int>>,
    pub total: int,
}

impl BuddyModel {
    /// `[pfn, pfn + 2^order)` is one of the free blocks.
    pub open spec fn has(self, order: int, pfn: int) -> bool {
        0 <= order < self.lists.len() && self.lists[order].contains(pfn)
    }

    /// No free block shares a page with the `n` pages from `pfn` on.
    pub open spec fn apart(self, pfn: int, n: int) -> bool {
        forall|k: int, q: int| #[trigger]
            self.has(k, q) ==> q + block_pages(k) <= pfn || pfn + n <= q
    }

    /// A block of this order can stand at `pfn`.
    pub open spec fn fits(self, pfn: int, order: int) -> bool {
        &&& 0 <= order <= MAX_ORDER
        &&& 0 <= pfn
        &&& pfn + block_pages(order) <= self.total
        &&& pfn % block_pages(order) == 0
    }

    /// Page `x` belongs to some free block.
    pub open spec fn is_free_page(self, x: int) -> bool {
        exists|k: int, q: int| #[trigger] self.has(k, q) && q <= x < q + block_pages(k)
    }

    /// The free blocks are aligned, lie in the managed range and are disjoint.
    #[verifier::opaque]
    pub open spec fn inv(self) -> bool {
        &&& self.lists.len() == MAX_ORDER + 1
        &&& forall|k: int, q: int| #[trigger] self.has(k, q) ==> self.fits(q, k)
        &&& forall|k: int| 0 <= k < self.lists.len() ==> (#[trigger] self.lists[k]).no_duplicates()
        &&& forall|k: int, q: int, k2: int, q2: int| #[trigger]
            self.has(k, q) && #[trigger] self.has(k2, q2) && (k != k2 || q != q2) ==> q + block_pages(
                k,
            ) <= q2 || q2 + block_pages(k2) <= q
    }

    /// A state that an allocator can be in: the free blocks are in order, and no
    /// buddies are left to merge.
    pub open spec fn valid(self) -> bool {
        self.inv() && coalesced(self)
    }

    /// Number of pages in the free blocks of order below `k`.
    pub open spec fn free_below(self, k: int) -> int
        decreases k,
    {
        if k <= 0 {
            0
        } else {
            self.free_below(k - 1) + self.lists[k - 1].len() * block_pages(k - 1)
        }
    }

    /// Number of free pages.
    pub open spec fn free_pages(self) -> int {
        self.free_below(MAX_ORDER + 1)
    }

    /// A block becomes the first of its free list.
    pub open spec fn push(self, order: int, pfn: int) -> BuddyModel {
        BuddyModel { lists: self.lists.update(order, seq![pfn] + self.lists[order]), ..self }
    }

    /// The block at position `i` leaves its free list.
    pub open spec fn take_at(self, order: int, i: int) -> BuddyModel {
        BuddyModel { lists: self.lists.update(order, self.lists[order].remove(i)), ..self }
    }

    /// Smallest order at or above `order` that has a free block.
    pub open spec fn best_order(self, order: int) -> Option<int>
        decreases MAX_ORDER + 1 - order,
    {
        if order > MAX_ORDER {
            None
        } else if self.lists[order].len() > 0 {
            Some(order)
        } else {
            self.best_order(order + 1)
        }
    }

    /// Gives back the upper half of block `pfn` of order `from`, then the upper
    /// half of what is left, and so on down to order `to`.
    pub open spec fn split_down(self, pfn: int, from: int, to: int) -> BuddyModel
        decreases from,
    {
        if from <= to || from <= 0 {
            self
        } else {
            self.push(from - 1, pfn + block_pages(from - 1)).split_down(pfn, from - 1, to)
        }
    }

    /// Outcome of an allocation: the first block of the best order, split down.
    pub open spec fn allocated(self, order: int) -> Option<(int, BuddyModel)> {
        match self.best_order(order) {
            None => None,
            Some(o) => {
                let pfn = self.lists[o][0];
                Some((pfn, self.take_at(o, 0).split_down(pfn, o, order)))
            },
        }
    }

    /// Gives back block `pfn`, merged with its buddy as long as that is free.
    pub open spec fn merge_up(self, pfn: int, order: int) -> BuddyModel
        decreases MAX_ORDER - order,
    {
        let b = buddy_of(pfn, order);
        if order < MAX_ORDER && self.lists[order].contains(b) {
            self.take_at(order, self.lists[order].index_of(b)).merge_up(
                if b < pfn {
                    b
                } else {
                    pfn
                },
                order + 1,
            )
        } else {
            self.push(order, pfn)
        }
    }
}

// ---------------------------------------------------------------------------
// Facts about the model
// ---------------------------------------------------------------------------

proof fn lemma_block_pages(order: int)
    ensures
        block_pages(order) >= 1,
        order <= 0 ==> block_pages(order) == 1,
        order <= MAX_ORDER ==> block_pages(order) <= 1024,
    decreases order,
{
    reveal_with_fuel(block_pages, 12);
    if order > 0 {
        lemma_block_pages(order - 1);
    }
}

proof fn lemma_aligned_halves(pfn: int, order: int)
    requires
        order >= 1,
        pfn % block_pages(order) == 0,
    ensures
        pfn % block_pages(order - 1) == 0,
        (pfn + block_pages(order - 1)) % block_pages(order - 1) == 0,
{
    lemma_block_pages(order - 1);
    let n = block_pages(order - 1);
    let q = pfn / (2 * n);
    vstd::arithmetic::div_mod::lemma_fundamental_div_mod(pfn, 2 * n);
    assert(pfn == (2 * q) * n) by (nonlinear_arith)
        requires
            pfn == (2 * n) * q,
    ;
    assert(pfn + n == (2 * q + 1) * n) by (nonlinear_arith)
        requires
            pfn == (2 * q) * n,
    ;
    vstd::arithmetic::div_mod::lemma_mod_multiples_basic(2 * q, n);
    vstd::arithmetic::div_mod::lemma_mod_multiples_basic(2 * q + 1, n);
}

proof fn lemma_buddy(pfn: int, order: int)
    requires
        pfn >= 0,
        order >= 0,
        pfn % block_pages(order) == 0,
    ensures
        buddy_of(pfn, order) >= 0,
        buddy_of(pfn, order) % block_pages(order) == 0,
        buddy_of(pfn, order) == pfn + block_pages(order) ==> pfn % block_pages(order + 1) == 0,
        buddy_of(pfn, order) == pfn - block_pages(order) ==> buddy_of(pfn, order) % block_pages(
            order + 1,
        ) == 0,
{
    lemma_block_pages(order);
    let n = block_pages(order);
    let q = pfn / n;
    let r = q / 2;
    vstd::arithmetic::div_mod::lemma_fundamental_div_mod(pfn, n);
    assert(pfn == q * n) by (nonlinear_arith)
        requires
            pfn == n * q,
    ;
    assert(q >= 0) by (nonlinear_arith)
        requires
            pfn == q * n,
            pfn >= 0,
            n >= 1,
    ;
    assert(block_pages(order + 1) == 2 * n);
    if q % 2 == 0 {
        assert(pfn == r * (2 * n)) by (nonlinear_arith)
            requires
                pfn == q * n,
                q == 2 * r,
        ;
        assert(pfn + n == (q + 1) * n) by (nonlinear_arith)
            requires
                pfn == q * n,
        ;
        vstd::arithmetic::div_mod::lemma_mod_multiples_basic(r, 2 * n);
        vstd::arithmetic::div_mod::lemma_mod_multiples_basic(q + 1, n);
    } else {
        assert(pfn - n == r * (2 * n)) by (nonlinear_arith)
            requires
                pfn == q * n,
                q == 2 * r + 1,
        ;
        assert(pfn - n == (q - 1) * n) by (nonlinear_arith)
            requires
                pfn == q * n,
        ;
        assert(r * (2 * n) >= 0) by (nonlinear_arith)
            requires
                r >= 0,
                n >= 1,
        ;
        vstd::arithmetic::div_mod::lemma_mod_multiples_basic(r, 2 * n);
        vstd::arithmetic::div_mod::lemma_mod_multiples_basic(q - 1, n);
    }
}

proof fn lemma_push_has(m: BuddyModel, order: int, pfn: int)
    requires
        0 <= order < m.lists.len(),
    ensures
        forall|k: int, q: int| #[trigger]
            m.push(order, pfn).has(k, q) <==> m.has(k, q) || (k == order && q == pfn),
{
    let n = m.push(order, pfn);
    assert forall|k: int, q: int| #[trigger] n.has(k, q) <==> m.has(k, q) || (k == order && q == pfn) by {
        if 0 <= k < m.lists.len() {
            if k == order {
                let l = m.lists[order];
                let l2 = seq![pfn] + l;
                assert(n.lists[k] == l2);
                if l.contains(q) {
                    let j = choose|j: int| 0 <= j < l.len() && l[j] == q;
                    assert(l2[j + 1] == q);
                }
                if q == pfn {
                    assert(l2[0] == q);
                }
                if l2.contains(q) && q != pfn {
                    let j = choose|j: int| 0 <= j < l2.len() && l2[j] == q;
                    assert(l[j - 1] == q);
                }
            } else {
                assert(n.lists[k] == m.lists[k]);
            }
        }
    }
}

proof fn lemma_take_has(m: BuddyModel, order: int, i: int)
    requires
        0 <= order < m.lists.len(),
        0 <= i < m.lists[order].len(),
        m.lists[order].no_duplicates(),
    ensures
        forall|k: int, q: int| #[trigger]
            m.take_at(order, i).has(k, q) <==> m.has(k, q) && (k != order || q != m.lists[order][i]),
        m.take_at(order, i).lists[order].no_duplicates(),
{
    let n = m.take_at(order, i);
    let l = m.lists[order];
    let l2 = l.remove(i);
    assert(n.lists[order] == l2);
    assert forall|a: int, b: int| 0 <= a < l2.len() && 0 <= b < l2.len() && a != b implies l2[a]
        != l2[b] by {
        let oa = if a < i { a } else { a + 1 };
        let ob = if b < i { b } else { b + 1 };
        assert(l2[a] == l[oa] && l2[b] == l[ob]);
    }
    assert forall|k: int, q: int| #[trigger]
        n.has(k, q) <==> m.has(k, q) && (k != order || q != l[i]) by {
        if 0 <= k < m.lists.len() {
            if k == order {
                if l2.contains(q) {
                    let j = choose|j: int| 0 <= j < l2.len() && l2[j] == q;
                    let oj = if j < i { j } else { j + 1 };
                    assert(l[oj] == q);
                }
                if l.contains(q) && q != l[i] {
                    let j = choose|j: int| 0 <= j < l.len() && l[j] == q;
                    assert(l2[if j < i { j } else { j - 1 }] == q);
                }
            } else {
                assert(n.lists[k] == m.lists[k]);
            }
        }
    }
}

proof fn lemma_free_below_update(m: BuddyModel, n: BuddyModel, order: int, k: int)
    requires
        0 <= order < m.lists.len(),
        n.lists.len() == m.lists.len(),
        forall|j: int| 0 <= j < m.lists.len() && j != order ==> n.lists[j] == m.lists[j],
        k <= m.lists.len(),
    ensures
        n.free_below(k) == m.free_below(k) + (if order < k {
            (n.lists[order].len() - m.lists[order].len()) * block_pages(order)
        } else {
            0
        }),
    decreases k,
{
    if k > 0 {
        lemma_free_below_update(m, n, order, k - 1);
        if k - 1 == order {
            let (a, b, c) = (
                n.lists[order].len() as int,
                m.lists[order].len() as int,
                block_pages(order),
            );
            assert(a * c == b * c + (a - b) * c) by (nonlinear_arith);
        }
    }
}

/// Adding a block that is apart from the others keeps the invariant.
proof fn lemma_push_inv(m: BuddyModel, order: int, pfn: int)
    requires
        m.inv(),
        m.fits(pfn, order),
        m.apart(pfn, block_pages(order)),
    ensures
        m.push(order, pfn).inv(),
        m.push(order, pfn).free_pages() == m.free_pages() + block_pages(order),
{
    reveal(BuddyModel::inv);
    let n = m.push(order, pfn);
    lemma_push_has(m, order, pfn);
    lemma_block_pages(order);
    assert(!m.has(order, pfn)) by {
        if m.has(order, pfn) {
            assert(pfn + block_pages(order) <= pfn);
        }
    }
    let l2 = n.lists[order];
    assert forall|a: int, b: int| 0 <= a < l2.len() && 0 <= b < l2.len() && a != b implies l2[a]
        != l2[b] by {
        let l = m.lists[order];
        if a > 0 {
            assert(l2[a] == l[a - 1]);
        }
        if b > 0 {
            assert(l2[b] == l[b - 1]);
        }
        if a == 0 {
            assert(l.contains(l[b - 1]));
        }
        if b == 0 {
            assert(l.contains(l[a - 1]));
        }
    }
    assert forall|k: int| 0 <= k < n.lists.len() implies (#[trigger] n.lists[k]).no_duplicates() by {
        if k != order {
            assert(n.lists[k] == m.lists[k]);
        }
    }
    lemma_free_below_update(m, n, order, MAX_ORDER + 1);
    assert(n.lists[order].len() - m.lists[order].len() == 1);
}

/// Removing a block keeps the invariant and leaves its pages apart.
proof fn lemma_take_inv(m: BuddyModel, order: int, i: int)
    requires
        m.inv(),
        0 <= order <= MAX_ORDER,
        0 <= i < m.lists[order].len(),
    ensures
        m.take_at(order, i).inv(),
        m.take_at(order, i).free_pages() == m.free_pages() - block_pages(order),
        m.take_at(order, i).apart(m.lists[order][i], block_pages(order)),
        m.fits(m.lists[order][i], order),
{
    reveal(BuddyModel::inv);
    let n = m.take_at(order, i);
    let p = m.lists[order][i];
    assert(m.lists[order].no_duplicates());
    lemma_take_has(m, order, i);
    assert(m.has(order, p));
    assert forall|k: int| 0 <= k < n.lists.len() implies (#[trigger] n.lists[k]).no_duplicates() by {
        if k != order {
            assert(n.lists[k] == m.lists[k]);
        }
    }
    lemma_free_below_update(m, n, order, MAX_ORDER + 1);
    let (a, b, c) = (n.lists[order].len() as int, m.lists[order].len() as int, block_pages(order));
    assert((a - b) * c == -c) by (nonlinear_arith)
        requires
            a - b == -1,
    ;
}

proof fn lemma_push_free(m: BuddyModel, order: int, pfn: int)
    requires
        0 <= order < m.lists.len(),
    ensures
        forall|x: int| #[trigger]
            m.push(order, pfn).is_free_page(x) <==> m.is_free_page(x) || pfn <= x < pfn
                + block_pages(order),
{
    let n = m.push(order, pfn);
    lemma_push_has(m, order, pfn);
    assert forall|x: int| #[trigger]
        n.is_free_page(x) <==> m.is_free_page(x) || pfn <= x < pfn + block_pages(order) by {
        if m.is_free_page(x) {
            let (k, q) = choose|k: int, q: int| #[trigger]
                m.has(k, q) && q <= x < q + block_pages(k);
            assert(n.has(k, q));
        }
        if pfn <= x < pfn + block_pages(order) {
            assert(n.has(order, pfn));
        }
        if n.is_free_page(x) {
            let (k, q) = choose|k: int, q: int| #[trigger]
                n.has(k, q) && q <= x < q + block_pages(k);
            assert(m.has(k, q) || (k == order && q == pfn));
        }
    }
}

proof fn lemma_take_free(m: BuddyModel, order: int, i: int)
    requires
        m.inv(),
        0 <= order <= MAX_ORDER,
        0 <= i < m.lists[order].len(),
    ensures
        forall|x: int| #[trigger]
            m.take_at(order, i).is_free_page(x) <==> m.is_free_page(x) && !(m.lists[order][i] <= x
                < m.lists[order][i] + block_pages(order)),
{
    reveal(BuddyModel::inv);
    let n = m.take_at(order, i);
    let p = m.lists[order][i];
    assert(m.lists[order].no_duplicates());
    lemma_take_has(m, order, i);
    lemma_take_inv(m, order, i);
    assert forall|x: int| #[trigger]
        n.is_free_page(x) <==> m.is_free_page(x) && !(p <= x < p + block_pages(order)) by {
        if n.is_free_page(x) {
            let (k, q) = choose|k: int, q: int| #[trigger]
                n.has(k, q) && q <= x < q + block_pages(k);
            assert(m.has(k, q));
        }
        if m.is_free_page(x) && !(p <= x < p + block_pages(order)) {
            let (k, q) = choose|k: int, q: int| #[trigger]
                m.has(k, q) && q <= x < q + block_pages(k);
            assert(n.has(k, q));
        }
    }
}

proof fn lemma_split_down(m: BuddyModel, pfn: int, from: int, to: int)
    requires
        m.inv(),
        m.fits(pfn, from),
        m.apart(pfn, block_pages(from)),
        0 <= to <= from,
    ensures
        m.split_down(pfn, from, to).inv(),
        m.split_down(pfn, from, to).total == m.total,
        m.split_down(pfn, from, to).apart(pfn, block_pages(to)),
        m.fits(pfn, to),
        m.split_down(pfn, from, to).free_pages() == m.free_pages() + block_pages(from)
            - block_pages(to),
        forall|x: int| #[trigger]
            m.split_down(pfn, from, to).is_free_page(x) <==> m.is_free_page(x) || pfn + block_pages(
                to,
            ) <= x < pfn + block_pages(from),
    decreases from,
{
    reveal(BuddyModel::inv);
    if from > to {
        let half = block_pages(from - 1);
        let n = m.push(from - 1, pfn + half);
        lemma_block_pages(from - 1);
        lemma_aligned_halves(pfn, from);
        lemma_push_inv(m, from - 1, pfn + half);
        lemma_push_has(m, from - 1, pfn + half);
        lemma_push_free(m, from - 1, pfn + half);
        lemma_split_down(n, pfn, from - 1, to);
        lemma_split_sizes(to, from - 1);
    }
}

proof fn lemma_split_sizes(a: int, b: int)
    requires
        a <= b,
    ensures
        block_pages(a) <= block_pages(b),
    decreases b,
{
    lemma_block_pages(b);
    lemma_block_pages(a);
    if a < b && b > 0 {
        lemma_split_sizes(a, b - 1);
        lemma_block_pages(b - 1);
    }
}

proof fn lemma_merge_up(m: BuddyModel, pfn: int, order: int)
    requires
        m.inv(),
        m.fits(pfn, order),
        m.apart(pfn, block_pages(order)),
    ensures
        m.merge_up(pfn, order).inv(),
        m.merge_up(pfn, order).total == m.total,
        m.merge_up(pfn, order).free_pages() == m.free_pages() + block_pages(order),
        forall|x: int| #[trigger]
            m.merge_up(pfn, order).is_free_page(x) <==> m.is_free_page(x) || pfn <= x < pfn
                + block_pages(order),
    decreases MAX_ORDER - order,
{
    reveal(BuddyModel::inv);
    let b = buddy_of(pfn, order);
    lemma_block_pages(order);
    lemma_buddy(pfn, order);
    if order < MAX_ORDER && m.lists[order].contains(b) {
        let i = m.lists[order].index_of(b);
        let n = m.take_at(order, i);
        let low = if b < pfn { b } else { pfn };
        assert(m.has(order, b));
        lemma_take_inv(m, order, i);
        lemma_take_free(m, order, i);
        assert(m.lists[order].no_duplicates());
        lemma_take_has(m, order, i);
        assert forall|k: int, q: int| #[trigger] n.has(k, q) implies q + block_pages(k) <= low || low
            + block_pages(order + 1) <= q by {
            lemma_block_pages(k);
            assert(m.has(k, q));
        }
        lemma_merge_up(n, low, order + 1);
        assert forall|x: int| #[trigger]
            m.merge_up(pfn, order).is_free_page(x) <==> m.is_free_page(x) || pfn <= x < pfn
                + block_pages(order) by {
            assert(n.merge_up(low, order + 1).is_free_page(x) <==> n.is_free_page(x) || low <= x
                < low + block_pages(order + 1));
            assert(n.is_free_page(x) <==> m.is_free_page(x) && !(b <= x < b + block_pages(order)));
            if b <= x < b + block_pages(order) {
                assert(m.has(order, b));
                assert(m.is_free_page(x));
            }
        }
    } else {
        lemma_push_inv(m, order, pfn);
        lemma_push_free(m, order, pfn);
    }
}

/// The pages of the blocks of order below `k` and of the first `i` blocks of
/// order `k`.
spec fn covered(m: BuddyModel, k: int, i: int) -> Set<int>
    decreases k, i,
{
    if k < 0 {
        Set::empty()
    } else if i <= 0 {
        if k == 0 {
            Set::empty()
        } else {
            covered(m, k - 1, m.lists[k - 1].len() as int)
        }
    } else {
        covered(m, k, i - 1) + vstd::set_lib::set_int_range(
            m.lists[k][i - 1],
            m.lists[k][i - 1] + block_pages(k),
        )
    }
}

proof fn lemma_covered(m: BuddyModel, k: int, i: int)
    requires
        m.inv(),
        0 <= k <= MAX_ORDER,
        0 <= i <= m.lists[k].len(),
    ensures
        covered(m, k, i).finite(),
        covered(m, k, i).len() == m.free_below(k) + i * block_pages(k),
        forall|x: int| #[trigger]
            covered(m, k, i).contains(x) ==> exists|k2: int, j: int|
                0 <= k2 <= k && 0 <= j < m.lists[k2].len() && (k2 == k ==> j < i) && (
                #[trigger] m.lists[k2][j]) <= x < m.lists[k2][j] + block_pages(k2),
    decreases k, i,
{
    reveal(BuddyModel::inv);
    if i == 0 {
        assert(i * block_pages(k) == 0);
        if k > 0 {
            lemma_covered(m, k - 1, m.lists[k - 1].len() as int);
            assert forall|x: int| #[trigger] covered(m, k, i).contains(x) implies exists|k2: int, j: int|
                0 <= k2 <= k && 0 <= j < m.lists[k2].len() && (k2 == k ==> j < i) && (
                #[trigger] m.lists[k2][j]) <= x < m.lists[k2][j] + block_pages(k2) by {
                assert(covered(m, k - 1, m.lists[k - 1].len() as int).contains(x));
            }
        }
    } else {
        lemma_block_pages(k);
        let a = covered(m, k, i - 1);
        let p = m.lists[k][i - 1];
        let r = vstd::set_lib::set_int_range(p, p + block_pages(k));
        lemma_covered(m, k, i - 1);
        vstd::set_lib::lemma_int_range(p, p + block_pages(k));
        assert(a.disjoint(r)) by {
            assert forall|x: int| a.contains(x) implies !r.contains(x) by {
                let (k2, j) = choose|k2: int, j: int|
                    0 <= k2 <= k && 0 <= j < m.lists[k2].len() && (k2 == k ==> j < i - 1) && (
                    #[trigger] m.lists[k2][j]) <= x < m.lists[k2][j] + block_pages(k2);
                assert(m.has(k2, m.lists[k2][j]));
                assert(m.has(k, p));
                if k2 == k {
                    assert(m.lists[k].no_duplicates());
                }
            }
        }
        vstd::set_lib::lemma_set_disjoint_lens(a, r);
        assert(i * block_pages(k) == (i - 1) * block_pages(k) + block_pages(k)) by (nonlinear_arith);
        assert forall|x: int| #[trigger] covered(m, k, i).contains(x) implies exists|k2: int, j: int|
            0 <= k2 <= k && 0 <= j < m.lists[k2].len() && (k2 == k ==> j < i) && (
            #[trigger] m.lists[k2][j]) <= x < m.lists[k2][j] + block_pages(k2) by {
            if a.contains(x) {
            } else {
                assert(m.lists[k][i - 1] <= x < m.lists[k][i - 1] + block_pages(k));
            }
        }
    }
}

/// Disjoint blocks in the managed range cannot hold more pages than the range.
pub proof fn law_free_pages_bounded(m: BuddyModel)
    requires
        m.inv(),
        m.total >= 0,
    ensures
        0 <= m.free_pages() <= m.total,
{
    reveal(BuddyModel::inv);
    let k = MAX_ORDER as int;
    let i = m.lists[k].len() as int;
    let c = covered(m, k, i);
    lemma_covered(m, k, i);
    assert(m.free_pages() == c.len());
    let all = vstd::set_lib::set_int_range(0, m.total);
    vstd::set_lib::lemma_int_range(0, m.total);
    assert(c.subset_of(all)) by {
        assert forall|x: int| c.contains(x) implies all.contains(x) by {
            let (k2, j) = choose|k2: int, j: int|
                0 <= k2 <= k && 0 <= j < m.lists[k2].len() && (k2 == k ==> j < i) && (
                #[trigger] m.lists[k2][j]) <= x < m.lists[k2][j] + block_pages(k2);
            assert(m.has(k2, m.lists[k2][j]));
            assert(m.fits(m.lists[k2][j], k2));
        }
    }
    vstd::set_lib::lemma_len_subset(c, all);
}

proof fn lemma_best_order(m: BuddyModel, order: int)
    requires
        m.lists.len() == MAX_ORDER + 1,
        0 <= order,
    ensures
        match m.best_order(order) {
            Some(o) => order <= o <= MAX_ORDER && m.lists[o].len() > 0 && forall|k: int|
                order <= k < o ==> (#[trigger] m.lists[k]).len() == 0,
            None => forall|k: int| order <= k <= MAX_ORDER ==> (#[trigger] m.lists[k]).len() == 0,
        },
    decreases MAX_ORDER + 1 - order,
{
    if order <= MAX_ORDER && m.lists[order].len() == 0 {
        lemma_best_order(m, order + 1);
    }
}

/// An allocated block was free, is aligned, and is the only thing that stops
/// being free; the other free blocks stay apart from it.
pub proof fn law_alloc_takes_one_block(m: BuddyModel, order: int)
    requires
        m.inv(),
        0 <= order <= MAX_ORDER,
    ensures
        match m.allocated(order) {
            None => forall|k: int| order <= k <= MAX_ORDER ==> (#[trigger] m.lists[k]).len() == 0,
            Some((pfn, n)) => {
                &&& n.inv()
                &&& n.total == m.total
                &&& m.fits(pfn, order)
                &&& n.apart(pfn, block_pages(order))
                &&& n.free_pages() == m.free_pages() - block_pages(order)
                &&& forall|x: int| pfn <= x < pfn + block_pages(order) ==> #[trigger] m.is_free_page(x)
                &&& forall|x: int| #[trigger]
                    n.is_free_page(x) <==> m.is_free_page(x) && !(pfn <= x < pfn + block_pages(
                        order,
                    ))
            },
        },
{
    reveal(BuddyModel::inv);
    lemma_best_order(m, order);
    match m.best_order(order) {
        None => {},
        Some(o) => {
            let pfn = m.lists[o][0];
            let n = m.take_at(o, 0);
            assert(m.has(o, pfn));
            lemma_take_inv(m, o, 0);
            lemma_take_free(m, o, 0);
            lemma_split_down(n, pfn, o, order);
            lemma_split_sizes(order, o);
            lemma_block_pages(order);
            assert forall|x: int| pfn <= x < pfn + block_pages(order) implies #[trigger] m.is_free_page(
                x,
            ) by {
                assert(m.has(o, pfn));
            }
            let r = n.split_down(pfn, o, order);
            assert forall|x: int| #[trigger]
                r.is_free_page(x) <==> m.is_free_page(x) && !(pfn <= x < pfn + block_pages(order)) by {
                assert(r.is_free_page(x) <==> n.is_free_page(x) || pfn + block_pages(order) <= x < pfn
                    + block_pages(o));
                assert(m.take_at(o, 0).is_free_page(x) <==> m.is_free_page(x) && !(pfn <= x < pfn
                    + block_pages(o)));
                if pfn <= x < pfn + block_pages(o) {
                    assert(m.has(o, pfn));
                    assert(m.is_free_page(x));
                }
            }
        },
    }
}

/// Freeing a block makes its pages free, and no others.
pub proof fn law_free_returns_the_block(m: BuddyModel, pfn: int, order: int)
    requires
        m.inv(),
        m.fits(pfn, order),
        m.apart(pfn, block_pages(order)),
    ensures
        m.merge_up(pfn, order).inv(),
        m.merge_up(pfn, order).total == m.total,
        m.merge_up(pfn, order).free_pages() == m.free_pages() + block_pages(order),
        forall|x: int| #[trigger]
            m.merge_up(pfn, order).is_free_page(x) <==> m.is_free_page(x) || pfn <= x < pfn
                + block_pages(order),
{
    lemma_merge_up(m, pfn, order);
}

/// No free block has its buddy free beside it: such pairs have been merged.
#[verifier::opaque]
pub open spec fn coalesced(m: BuddyModel) -> bool {
    forall|k: int, q: int|
        k < MAX_ORDER && #[trigger] m.has(k, q) ==> !m.has(k, buddy_of(q, k))
}

/// A new allocator has no buddies to merge.
pub proof fn law_initial_is_coalesced(total: int)
    requires
        0 <= total,
    ensures
        coalesced(BuddyModel { lists: initial_lists(total), total }),
{
    reveal(coalesced);
    let m = BuddyModel { lists: initial_lists(total), total };
    assert forall|k: int, q: int| k < MAX_ORDER && #[trigger] m.has(k, q) implies !m.has(
        k,
        buddy_of(q, k),
    ) by {
        lemma_block_pages(k);
    }
}

/// The buddy of a block's buddy is the block.
proof fn lemma_buddy_twice(pfn: int, k: int)
    requires
        0 <= k,
        0 <= pfn,
        pfn % block_pages(k) == 0,
    ensures
        buddy_of(buddy_of(pfn, k), k) == pfn,
        buddy_of(pfn, k) != pfn,
{
    lemma_block_pages(k);
    lemma_buddy(pfn, k);
    let b = block_pages(k);
    if buddy_of(pfn, k) == pfn + b {
        let q = pfn / b;
        vstd::arithmetic::div_mod::lemma_fundamental_div_mod(pfn, b);
        assert(pfn + b == (q + 1) * b + 0) by (nonlinear_arith)
            requires
                pfn == b * q + 0,
        ;
        vstd::arithmetic::div_mod::lemma_fundamental_div_mod_converse(pfn + b, b, q + 1, 0);
    } else {
        lemma_even_half(pfn - b, k);
    }
}

proof fn lemma_push_coalesced(m: BuddyModel, order: int, pfn: int)
    requires
        m.inv(),
        coalesced(m),
        0 <= order <= MAX_ORDER,
        0 <= pfn,
        pfn % block_pages(order) == 0,
        order < MAX_ORDER ==> !m.has(order, buddy_of(pfn, order)),
    ensures
        coalesced(m.push(order, pfn)),
{
    reveal(coalesced);
    reveal(BuddyModel::inv);
    let n = m.push(order, pfn);
    lemma_push_has(m, order, pfn);
    lemma_buddy_twice(pfn, order);
    assert forall|k: int, q: int| k < MAX_ORDER && #[trigger] n.has(k, q) implies !n.has(
        k,
        buddy_of(q, k),
    ) by {
        if k == order && q != pfn {
            assert(m.has(k, q));
            assert(m.fits(q, k));
            lemma_buddy_twice(q, k);
        }
    }
}

/// Freeing a block leaves no buddies to merge, if there were none before.
pub proof fn law_free_keeps_coalesced(m: BuddyModel, pfn: int, order: int)
    requires
        m.inv(),
        coalesced(m),
        m.fits(pfn, order),
        m.apart(pfn, block_pages(order)),
    ensures
        coalesced(m.merge_up(pfn, order)),
    decreases MAX_ORDER - order,
{
    reveal(coalesced);
    reveal(BuddyModel::inv);
    let b = buddy_of(pfn, order);
    lemma_block_pages(order);
    lemma_buddy(pfn, order);
    if order < MAX_ORDER && m.lists[order].contains(b) {
        let i = m.lists[order].index_of(b);
        let n = m.take_at(order, i);
        let low = if b < pfn { b } else { pfn };
        assert(m.has(order, b));
        lemma_take_inv(m, order, i);
        assert(m.lists[order].no_duplicates());
        lemma_take_has(m, order, i);
        assert forall|k: int, q: int| #[trigger] n.has(k, q) implies q + block_pages(k) <= low || low
            + block_pages(order + 1) <= q by {
            lemma_block_pages(k);
            assert(m.has(k, q));
        }
        assert forall|k: int, q: int| k < MAX_ORDER && #[trigger] n.has(k, q) implies !n.has(
            k,
            buddy_of(q, k),
        ) by {
            assert(m.has(k, q));
        }
        law_free_keeps_coalesced(n, low, order + 1);
    } else {
        lemma_push_coalesced(m, order, pfn);
    }
}

proof fn lemma_split_coalesced(m: BuddyModel, pfn: int, from: int, to: int)
    requires
        m.inv(),
        coalesced(m),
        m.fits(pfn, from),
        m.apart(pfn, block_pages(from)),
        0 <= to <= from,
    ensures
        coalesced(m.split_down(pfn, from, to)),
    decreases from,
{
    reveal(BuddyModel::inv);
    if from > to {
        let half = block_pages(from - 1);
        let n = m.push(from - 1, pfn + half);
        lemma_block_pages(from - 1);
        lemma_aligned_halves(pfn, from);
        lemma_even_half(pfn, from - 1);
        lemma_buddy_twice(pfn, from - 1);
        lemma_push_inv(m, from - 1, pfn + half);
        lemma_push_has(m, from - 1, pfn + half);
        lemma_push_coalesced(m, from - 1, pfn + half);
        lemma_split_coalesced(n, pfn, from - 1, to);
    }
}

/// Allocating a block leaves no buddies to merge, if there were none before.
pub proof fn law_alloc_keeps_coalesced(m: BuddyModel, order: int)
    requires
        m.inv(),
        coalesced(m),
        0 <= order <= MAX_ORDER,
        m.allocated(order) is Some,
    ensures
        coalesced((m.allocated(order)->0).1),
{
    reveal(coalesced);
    reveal(BuddyModel::inv);
    lemma_best_order(m, order);
    let o = m.best_order(order)->0;
    let pfn = m.lists[o][0];
    let m1 = m.take_at(o, 0);
    assert(m.has(o, pfn));
    lemma_take_inv(m, o, 0);
    assert(m.lists[o].no_duplicates());
    lemma_take_has(m, o, 0);
    assert forall|k: int, q: int| k < MAX_ORDER && #[trigger] m1.has(k, q) implies !m1.has(
        k,
        buddy_of(q, k),
    ) by {
        assert(m.has(k, q));
    }
    assert forall|k: int, q: int| #[trigger] m1.has(k, q) implies q + block_pages(k) <= pfn || pfn
        + block_pages(o) <= q by {
        assert(m.has(k, q));
    }
    lemma_split_coalesced(m1, pfn, o, order);
}

/// Splitting a block and merging its part again comes to merging the block.
proof fn lemma_split_then_merge(m: BuddyModel, pfn: int, from: int, to: int)
    requires
        m.lists.len() == MAX_ORDER + 1,
        0 <= to <= from <= MAX_ORDER,
        0 <= pfn,
        pfn % block_pages(from) == 0,
        forall|k: int| to <= k < from ==> !(#[trigger] m.lists[k]).contains(pfn + block_pages(k)),
    ensures
        m.split_down(pfn, from, to).merge_up(pfn, to) == m.merge_up(pfn, from),
    decreases from,
{
    if from > to {
        let k = from - 1;
        let half = block_pages(k);
        lemma_block_pages(k);
        let h = pfn + half;
        let n = m.push(k, h);
        lemma_even_half(pfn, k);
        assert(m.split_down(pfn, from, to) == n.split_down(pfn, k, to));
        assert forall|j: int| to <= j < k implies !(#[trigger] n.lists[j]).contains(
            pfn + block_pages(j),
        ) by {
            assert(n.lists[j] == m.lists[j]);
        }
        lemma_split_then_merge(n, pfn, k, to);
        assert(n.lists[k][0] == h);
        let i = n.lists[k].index_of(h);
        assert(0 <= i < n.lists[k].len() && n.lists[k][i] == h);
        assert(i == 0) by {
            if i > 0 {
                assert(m.lists[k][i - 1] == h);
            }
        }
        assert(n.lists[k].remove(0) =~= m.lists[k]);
        assert(n.take_at(k, 0) =~= m);
        assert(n.merge_up(pfn, k) == m.merge_up(pfn, from));
    }
}

/// The lower half of a block is an even block of its order.
proof fn lemma_even_half(pfn: int, k: int)
    requires
        0 <= k,
        0 <= pfn,
        pfn % block_pages(k + 1) == 0,
    ensures
        pfn % block_pages(k) == 0,
        buddy_of(pfn, k) == pfn + block_pages(k),
{
    lemma_block_pages(k);
    let b = block_pages(k);
    let q = pfn / (2 * b);
    vstd::arithmetic::div_mod::lemma_fundamental_div_mod(pfn, 2 * b);
    assert(pfn == (2 * q) * b + 0) by (nonlinear_arith)
        requires
            pfn == (2 * b) * q + 0,
    ;
    vstd::arithmetic::div_mod::lemma_fundamental_div_mod_converse(pfn, b, 2 * q, 0);
}

/// Freeing what was just allocated restores the allocator: the split is undone by
/// merging, so that every allocation that was possible before is possible again,
/// and comes to the same block.
pub proof fn law_free_restores_the_allocator(m: BuddyModel, order: int, next: int)
    requires
        m.valid(),
        0 <= order <= MAX_ORDER,
        m.allocated(order) is Some,
    ensures
        ({
            let (pfn, n) = m.allocated(order)->0;
            let r = n.merge_up(pfn, order);
            &&& r == m
            &&& r.allocated(next) == m.allocated(next)
        }),
{
    reveal(coalesced);
    reveal(BuddyModel::inv);
    lemma_best_order(m, order);
    let o = m.best_order(order)->0;
    let pfn = m.lists[o][0];
    let m1 = m.take_at(o, 0);
    assert(m.has(o, pfn));
    assert(m.fits(pfn, o));
    lemma_block_pages(o);
    assert forall|k: int| order <= k < o implies !(#[trigger] m1.lists[k]).contains(
        pfn + block_pages(k),
    ) by {
        lemma_block_pages(k);
        assert(m.lists[k].len() == 0);
    }
    lemma_split_then_merge(m1, pfn, o, order);
    if o < MAX_ORDER {
        assert(!m.has(o, buddy_of(pfn, o)));
        assert(!m1.lists[o].contains(buddy_of(pfn, o))) by {
            if m1.lists[o].contains(buddy_of(pfn, o)) {
                let i = m1.lists[o].index_of(buddy_of(pfn, o));
                assert(m.lists[o][i + 1] == buddy_of(pfn, o));
            }
        }
    }
    assert(seq![pfn] + m1.lists[o] =~= m.lists[o]);
    assert(m1.push(o, pfn) =~= m);
}

/// Freeing what was just allocated makes exactly the former pages free again.
pub proof fn law_free_undoes_alloc(m: BuddyModel, order: int)
    requires
        m.inv(),
        0 <= order <= MAX_ORDER,
        m.allocated(order) is Some,
    ensures
        ({
            let (pfn, n) = m.allocated(order)->0;
            let r = n.merge_up(pfn, order);
            r.inv() && r.free_pages() == m.free_pages() && forall|x: int| #[trigger]
                r.is_free_page(x) <==> m.is_free_page(x)
        }),
{
    law_alloc_takes_one_block(m, order);
    let (pfn, n) = m.allocated(order)->0;
    law_free_returns_the_block(n, pfn, order);
    let r = n.merge_up(pfn, order);
    assert forall|x: int| #[trigger] r.is_free_page(x) <==> m.is_free_page(x) by {
        assert(n.is_free_page(x) <==> m.is_free_page(x) && !(pfn <= x < pfn + block_pages(order)));
        if pfn <= x < pfn + block_pages(order) {
            assert(m.is_free_page(x));
        }
    }
}

// ---------------------------------------------------------------------------
// BuddyAllocator
// ---------------------------------------------------------------------------

/// Head of one singly-linked free list; the links are stored out of line.
#[derive(Clone, Copy)]
struct FreeList {
    head: Option<usize>,
}

/// Buddy allocator over a contiguous range of physical pages.
pub struct BuddyAllocator {
    /// `free_lists[k]` holds the first free block of order `k`.
    free_lists: [FreeList; ORDERS],
    /// For each page the next block in its free list, or `LINK_NONE`.
    links: Vec<usize>,
    /// Total number of pages managed.
    total_pages: usize,
    /// Current free page count.
    free_count: usize,
    /// Base physical address (page 0 = this address).
    base_paddr: usize,
    /// The free lists that the heads and links spell out.
    lists: Ghost<Seq<Seq<int>>>,
}

/// The value that the link of element `j` of list `l` must have.
spec fn next_in(l: Seq<int>, j: int) -> usize {
    if j + 1 < l.len() {
        l[j + 1] as usize
    } else {
        LINK_NONE
    }
}

/// The link of element `j` of list `l` leads to the element after it.
spec fn link_ok(links: Seq<usize>, l: Seq<int>, j: int) -> bool {
    links[l[j]] == next_in(l, j)
}

/// List `l` is spelled out by its head and the links.
spec fn chained(list: FreeList, links: Seq<usize>, l: Seq<int>) -> bool {
    &&& list.head == (if l.len() == 0 {
        None
    } else {
        Some(l[0] as usize)
    })
    &&& forall|j: int| 0 <= j < l.len() ==> #[trigger] link_ok(links, l, j)
}

/// Each element of a free list is a managed page.
proof fn lemma_element(m: BuddyModel, k: int, j: int)
    requires
        m.inv(),
        0 <= k <= MAX_ORDER,
        0 <= j < m.lists[k].len(),
    ensures
        0 <= m.lists[k][j] < m.total,
        m.has(k, m.lists[k][j]),
{
    reveal(BuddyModel::inv);
    lemma_block_pages(k);
    assert(m.has(k, m.lists[k][j]));
}

proof fn lemma_no_duplicates(m: BuddyModel, k: int)
    requires
        m.inv(),
        0 <= k <= MAX_ORDER,
    ensures
        m.lists[k].no_duplicates(),
{
    reveal(BuddyModel::inv);
}

/// No page heads two free blocks.
proof fn lemma_elements_distinct(m: BuddyModel, k: int, i: int, k2: int, j: int)
    requires
        m.inv(),
        0 <= k <= MAX_ORDER,
        0 <= i < m.lists[k].len(),
        0 <= k2 <= MAX_ORDER,
        0 <= j < m.lists[k2].len(),
        k != k2 || i != j,
    ensures
        m.lists[k][i] != m.lists[k2][j],
{
    reveal(BuddyModel::inv);
    lemma_block_pages(k);
    lemma_block_pages(k2);
    assert(m.has(k, m.lists[k][i]) && m.has(k2, m.lists[k2][j]));
    assert(m.lists[k].no_duplicates());
}

/// The free lists of an allocator that has handed nothing out: as many blocks
/// of the largest order as fit, then one block for each bit of the rest.
pub open spec fn initial_lists(total: int) -> Seq<Seq<int>> {
    Seq::new(
        (MAX_ORDER + 1) as nat,
        |k: int|
            if k == MAX_ORDER {
                Seq::new((total / 1024) as nat, |i: int| (total / 1024 - 1 - i) * 1024)
            } else if (total / block_pages(k)) % 2 == 1 {
                seq![(total / block_pages(k + 1)) * block_pages(k + 1)]
            } else {
                seq![]
            },
    )
}

/// Number of pages managed out of `total_bytes`.
pub open spec fn managed_pages(total_bytes: int) -> int {
    if total_bytes / 4096 <= 0x10_0000 {
        total_bytes / 4096
    } else {
        0x10_0000
    }
}

impl View for BuddyAllocator {
    type V = BuddyModel;

    closed spec fn view(&self) -> BuddyModel {
        BuddyModel { lists: self.lists@, total: self.total_pages as int }
    }
}

impl BuddyAllocator {
    /// The lists satisfy the model's invariant and are spelled out.
    spec fn links_ok(self) -> bool {
        &&& self@.inv()
        &&& self.lists@.len() == MAX_ORDER + 1
        &&& self.links@.len() == self.total_pages
        &&& self.total_pages <= MAX_MANAGED_PAGES
        &&& forall|k: int| 0 <= k <= MAX_ORDER ==> #[trigger] chained(self.free_lists@[k], self.links@, self.lists@[k])
    }

    /// The free-page counter agrees with the lists.
    pub closed spec fn counted(self) -> bool {
        &&& self.links_ok()
        &&& self.free_count == self@.free_pages()
    }

    /// Base physical address of page 0.
    pub closed spec fn base(self) -> usize {
        self.base_paddr
    }

    /// Well-formed.
    pub open spec fn wf(self) -> bool {
        &&& self.counted()
        &&& self@.valid()
        &&& 0 <= self@.total <= 0x10_0000
    }

    /// Create a buddy allocator that manages `[base_paddr, base_paddr + total_bytes)`.
    pub fn new(base_paddr: usize, total_bytes: usize) -> (r: Self)
        ensures
            r.wf(),
            r.base() == base_paddr,
            r@ == (BuddyModel {
                lists: initial_lists(managed_pages(total_bytes as int)),
                total: managed_pages(total_bytes as int),
            }),
            r@.free_pages() == r@.total,
    {
        let all_pages: usize = total_bytes / PAGE_SIZE;
        let total_pages: usize = if all_pages <= MAX_MANAGED_PAGES {
            all_pages
        } else {
            MAX_MANAGED_PAGES
        };
        let mut buddy = BuddyAllocator {
            free_lists: [FreeList { head: None };ORDERS],
            links: vec![LINK_NONE;total_pages],
            total_pages,
            free_count: total_pages,
            base_paddr,
            lists: Ghost(Seq::new((MAX_ORDER + 1) as nat, |k: int| seq![])),
        };
        let ghost total = total_pages as int;
        proof {
            reveal(BuddyModel::inv);
            lemma_no_free(buddy@, MAX_ORDER + 1);
        }
        // Cover the range with blocks of the highest possible order.
        let mut remaining: usize = total_pages;
        let mut offset: usize = 0;
        let mut order: usize = MAX_ORDER;
        proof {
            lemma_block_pages(10);
            reveal_with_fuel(block_pages, 11);
            assert(buddy@.lists[10] =~= Seq::new((offset as int / 1024) as nat, |i: int|
                (offset as int / 1024 - 1 - i) * 1024));
        }
        while remaining > 0
            invariant
                order <= MAX_ORDER,
                total <= MAX_MANAGED_PAGES,
                offset + remaining == total,
                buddy.links_ok(),
                buddy.free_count == total,
                buddy.base_paddr == base_paddr,
                buddy@.total == total,
                buddy@.free_pages() == offset,
                block_pages(10) == 1024,
                filling(buddy@, total, order as int, offset as int),
                forall|k: int, q: int| #[trigger]
                    buddy@.has(k, q) ==> q + block_pages(k) <= offset,
            decreases remaining, order,
        {
            let block_size: usize = Self::pages_in(order);
            proof {
                lemma_block_pages(order as int);
                lemma_filling_step(buddy@, total, order as int, offset as int);
            }
            if block_size <= remaining {
                let ghost before = buddy@;
                proof {
                    lemma_push_inv(before, order as int, offset as int);
                    lemma_push_has(before, order as int, offset as int);
                }
                buddy.push_free(offset, order);
                offset = offset + block_size;
                remaining = remaining - block_size;
            } else {
                order = order - 1;
            }
        }
        proof {
            lemma_filling_done(buddy@, total, order as int);
            law_initial_is_coalesced(total);
        }
        buddy
    }

    /// Put a fresh allocator into `slot`.
    pub fn init(slot: &mut Option<BuddyAllocator>, base_paddr: usize, total_bytes: usize)
        ensures
            *final(slot) is Some,
            (*final(slot))->0.wf(),
            (*final(slot))->0.base() == base_paddr,
            (*final(slot))->0@ == (BuddyModel {
                lists: initial_lists(managed_pages(total_bytes as int)),
                total: managed_pages(total_bytes as int),
            }),
    {
        *slot = Some(BuddyAllocator::new(base_paddr, total_bytes));
    }

    /// Number of pages in a block of the given order.
    fn pages_in(order: usize) -> (r: usize)
        requires
            order <= MAX_ORDER,
        ensures
            r == block_pages(order as int),
    {
        let mut n: usize = 1;
        let mut k: usize = 0;
        while k < order
            invariant
                k <= order <= MAX_ORDER,
                n == block_pages(k as int),
            decreases order - k,
        {
            proof {
                lemma_block_pages(k as int + 1);
            }
            n = n * 2;
            k += 1;
        }
        n
    }

    fn push_free(&mut self, pfn: usize, order: usize)
        requires
            old(self).links_ok(),
            old(self)@.fits(pfn as int, order as int),
            old(self)@.apart(pfn as int, block_pages(order as int)),
        ensures
            final(self).links_ok(),
            final(self)@ == old(self)@.push(order as int, pfn as int),
            final(self).free_count == old(self).free_count,
            final(self).base_paddr == old(self).base_paddr,
    {
        proof {
            lemma_block_pages(order as int);
            lemma_push_inv(self@, order as int, pfn as int);
        }
        let ghost ls = self.lists@;
        assert(chained(self.free_lists@[order as int], self.links@, self.lists@[order as int]));
        let next: usize = match self.free_lists[order].head {
            Some(h) => h,
            None => LINK_NONE,
        };
        self.links[pfn] = next;
        self.free_lists[order] = FreeList { head: Some(pfn) };
        proof {
            self.lists@ = ls.update(order as int, seq![pfn as int] + ls[order as int]);
            assert forall|k: int| 0 <= k <= MAX_ORDER implies #[trigger] chained(self.free_lists@[k], self.links@, self.lists@[k]) by {
                assert(chained(old(self).free_lists@[k], old(self).links@, old(self).lists@[k]));
                let l = self.lists@[k];
                let l0 = ls[k];
                assert forall|j: int| 0 <= j < l.len() implies #[trigger] link_ok(self.links@, l, j) by {
                    if k == order && j == 0 {
                        assert(l[0] == pfn);
                    } else {
                        let oj = if k == order { j - 1 } else { j };
                        assert(l[j] == l0[oj]);
                        assert(link_ok(old(self).links@, l0, oj));
                        lemma_element(old(self)@, k, oj);
                        lemma_block_pages(k);
                        assert(l0[oj] != pfn);
                        assert(next_in(l0, oj) == next_in(l, j));
                    }
                }
            }
            assert(self@ =~= old(self)@.push(order as int, pfn as int));
        }
    }

    fn pop_free(&mut self, order: usize) -> (r: Option<usize>)
        requires
            old(self).links_ok(),
            order <= MAX_ORDER,
        ensures
            final(self).links_ok(),
            final(self).free_count == old(self).free_count,
            final(self).base_paddr == old(self).base_paddr,
            match r {
                None => old(self)@.lists[order as int].len() == 0 && final(self)@ == old(self)@,
                Some(p) => old(self)@.lists[order as int].len() > 0 && p == old(self)@.lists[order as int][0] && final(self)@ == old(self)@.take_at(order as int, 0),
            },
    {
        let ghost ls = self.lists@;
        assert(chained(self.free_lists@[order as int], self.links@, self.lists@[order as int]));
        match self.free_lists[order].head {
            None => None,
            Some(pfn) => {
                let ghost l0 = ls[order as int];
                proof {
                    lemma_element(self@, order as int, 0);
                    if l0.len() > 1 {
                        lemma_element(self@, order as int, 1);
                    }
                    assert(link_ok(self.links@, l0, 0));
                }
                let next: usize = self.links[pfn];
                self.links[pfn] = LINK_NONE;
                self.free_lists[order] =
                FreeList {
                    head: if next == LINK_NONE {
                        None
                    } else {
                        Some(next)
                    },
                };
                proof {
                    lemma_take_inv(old(self)@, order as int, 0);
                    self.lists@ = ls.update(order as int, l0.remove(0));
                    lemma_unlinked(*old(self), *self, order as int, 0);
                    assert(self@ =~= old(self)@.take_at(order as int, 0));
                }
                Some(pfn)
            },
        }
    }

    /// Take block `pfn` out of the free list of its order.
    fn pop_free_at(&mut self, pfn: usize, order: usize)
        requires
            old(self).links_ok(),
            order <= MAX_ORDER,
            old(self)@.lists[order as int].contains(pfn as int),
        ensures
            final(self).links_ok(),
            final(self).free_count == old(self).free_count,
            final(self).base_paddr == old(self).base_paddr,
            final(self)@ == old(self)@.take_at(
                order as int,
                old(self)@.lists[order as int].index_of(pfn as int),
            ),
    {
        let ghost ls = self.lists@;
        let ghost l = ls[order as int];
        let ghost at = l.index_of(pfn as int);
        assert(chained(self.free_lists@[order as int], self.links@, self.lists@[order as int]));
        let mut prev: Option<usize> = None;
        let mut cur: Option<usize> = self.free_lists[order].head;
        let ghost mut j: int = 0;
        proof {
            lemma_element(self@, order as int, 0);
        }
        while cur.is_some()
            invariant
                *self == *old(self),
                old(self).links_ok(),
                order <= MAX_ORDER,
                ls == self.lists@,
                l == ls[order as int],
                chained(self.free_lists@[order as int], self.links@, self.lists@[order as int]),
                0 <= at < l.len(),
                l[at] == pfn,
                at == l.index_of(pfn as int),
                0 <= j <= at,
                cur == Some(l[j] as usize),
                0 <= l[j] < self.total_pages,
                prev == (if j == 0 {
                    None
                } else {
                    Some(l[j - 1] as usize)
                }),
                j > 0 ==> 0 <= l[j - 1] < self.total_pages,
            decreases at - j,
        {
            let c: usize = cur.unwrap();
            if c == pfn {
                proof {
                    if j != at {
                        lemma_elements_distinct(self@, order as int, j, order as int, at);
                    }
                    assert(link_ok(self.links@, l, at));
                    if at + 1 < l.len() {
                        lemma_element(self@, order as int, at + 1);
                    }
                    if at > 0 {
                        lemma_elements_distinct(self@, order as int, at - 1, order as int, at);
                    }
                }
                let next: usize = self.links[c];
                self.links[c] = LINK_NONE;
                match prev {
                    None => {
                        self.free_lists[order] =
                        FreeList {
                            head: if next == LINK_NONE {
                                None
                            } else {
                                Some(next)
                            },
                        };
                    },
                    Some(p) => {
                        self.links[p] = next;
                    },
                }
                proof {
                    lemma_take_inv(old(self)@, order as int, at);
                    self.lists@ = ls.update(order as int, l.remove(at));
                    lemma_unlinked(*old(self), *self, order as int, at);
                    assert(self@ =~= old(self)@.take_at(order as int, at));
                }
                return;
            }
            assert(j < at);
            prev = cur;
            let next: usize = self.links[c];
            proof {
                assert(link_ok(self.links@, l, j));
                lemma_element(self@, order as int, j + 1);
            }
            cur = if next == LINK_NONE {
                None
            } else {
                Some(next)
            };
            proof {
                j = j + 1;
            }
        }
        assert(false);
    }

    /// True when `pfn` is in the free list of the given order.
    fn is_free(&self, pfn: usize, order: usize) -> (r: bool)
        requires
            self.links_ok(),
            order <= MAX_ORDER,
        ensures
            r == self@.lists[order as int].contains(pfn as int),
    {
        let ghost l = self.lists@[order as int];
        assert(chained(self.free_lists@[order as int], self.links@, self.lists@[order as int]));
        let mut cur: Option<usize> = self.free_lists[order].head;
        let ghost mut j: int = 0;
        proof {
            if l.len() > 0 {
                lemma_element(self@, order as int, 0);
            }
        }
        while cur.is_some()
            invariant
                self.links_ok(),
                order <= MAX_ORDER,
                l == self.lists@[order as int],
                chained(self.free_lists@[order as int], self.links@, self.lists@[order as int]),
                0 <= j <= l.len(),
                cur == (if j < l.len() {
                    Some(l[j] as usize)
                } else {
                    None
                }),
                j < l.len() ==> 0 <= l[j] < self.total_pages,
                forall|i: int| 0 <= i < j ==> l[i] != pfn,
            decreases l.len() - j,
        {
            let c: usize = cur.unwrap();
            if c == pfn {
                assert(l[j] == pfn);
                return true;
            }
            let next: usize = self.links[c];
            proof {
                assert(link_ok(self.links@, l, j));
                if j + 1 < l.len() {
                    lemma_element(self@, order as int, j + 1);
                }
            }
            cur = if next == LINK_NONE {
                None
            } else {
                Some(next)
            };
            proof {
                j = j + 1;
            }
        }
        false
    }

    /// Allocate `2^order` contiguous pages.  Returns the first page.
    pub fn alloc_block(&mut self, order: usize) -> (r: Option<usize>)
        requires
            old(self).wf(),
        ensures
            final(self).wf(),
            final(self).base() == old(self).base(),
            order > MAX_ORDER ==> r is None && final(self)@ == old(self)@,
            order <= MAX_ORDER ==> match old(self)@.allocated(order as int) {
                None => r is None && final(self)@ == old(self)@,
                Some((pfn, m)) => r == Some(pfn as usize) && 0 <= pfn < old(self)@.total && final(self)@ == m,
            },
    {
        if order > MAX_ORDER {
            return None;
        }
        let ghost m = self@;
        // Find the smallest order >= requested that has a free block.
        let mut o: usize = order;
        proof {
            lemma_best_order(m, order as int);
            law_alloc_takes_one_block(m, order as int);
            law_free_pages_bounded(m);
            if m.allocated(order as int) is Some {
                law_alloc_keeps_coalesced(m, order as int);
            }
        }
        while o <= MAX_ORDER && self.free_lists[o].head.is_none()
            invariant
                self.links_ok(),
                *self == *old(self),
                self@ == m,
                order <= o <= MAX_ORDER + 1,
                m.best_order(order as int) == m.best_order(o as int),
            decreases MAX_ORDER + 1 - o,
        {
            assert(chained(self.free_lists@[o as int], self.links@, self.lists@[o as int]));
            o += 1;
        }
        if o > MAX_ORDER {
            return None;
        }
        assert(chained(self.free_lists@[o as int], self.links@, self.lists@[o as int]));
        // Pop the block and split it down to the requested order.
        let pfn: usize = self.pop_free(o).unwrap();
        let ghost popped = self@;
        let ghost top = o as int;
        proof {
            lemma_take_inv(m, top, 0);
            lemma_split_down(popped, pfn as int, top, order as int);
            lemma_block_pages(order as int);
        }
        while o > order
            invariant
                self.links_ok(),
                self.free_count == old(self).free_count,
                self.base_paddr == old(self).base_paddr,
                self@.total == m.total,
                m.total <= 0x10_0000,
                order <= o <= top <= MAX_ORDER,
                self@.fits(pfn as int, o as int),
                self@.apart(pfn as int, block_pages(o as int)),
                self@.split_down(pfn as int, o as int, order as int) == popped.split_down(
                    pfn as int,
                    top,
                    order as int,
                ),
            decreases o,
        {
            proof {
                lemma_block_pages(o as int - 1);
                lemma_aligned_halves(pfn as int, o as int);
            }
            let ghost before = self@;
            o -= 1;
            let size: usize = Self::pages_in(o);
            let buddy_pfn: usize = pfn + size;
            self.push_free(buddy_pfn, o);
            proof {
                lemma_push_has(before, o as int, buddy_pfn as int);
            }
        }
        let size: usize = Self::pages_in(order);
        proof {
            law_free_pages_bounded(self@);
        }
        self.free_count = self.free_count - size;
        Some(pfn)
    }

    /// Allocate a single page (order 0).
    pub fn alloc_page(&mut self) -> (r: Option<usize>)
        requires
            old(self).wf(),
        ensures
            final(self).wf(),
            final(self).base() == old(self).base(),
            match old(self)@.allocated(0) {
                None => r is None && final(self)@ == old(self)@,
                Some((pfn, m)) => r == Some(pfn as usize) && 0 <= pfn < old(self)@.total && final(self)@ == m,
            },
    {
        self.alloc_block(0)
    }

    /// Free `2^order` pages starting at `pfn`, which must not be free already.
    pub fn free(&mut self, pfn: usize, order: usize)
        requires
            old(self).wf(),
            order <= MAX_ORDER ==> old(self)@.fits(pfn as int, order as int) && old(self)@.apart(
                pfn as int,
                block_pages(order as int),
            ),
        ensures
            final(self).wf(),
            final(self).base() == old(self).base(),
            final(self)@ == (if order > MAX_ORDER {
                old(self)@
            } else {
                old(self)@.merge_up(pfn as int, order as int)
            }),
    {
        if order > MAX_ORDER {
            return;
        }
        let ghost m = self@;
        proof {
            lemma_merge_up(m, pfn as int, order as int);
            law_free_pages_bounded(m.merge_up(pfn as int, order as int));
            law_free_keeps_coalesced(m, pfn as int, order as int);
        }
        let mut current_pfn: usize = pfn;
        let mut current_order: usize = order;
        // Try to merge with the buddy at each level.
        while current_order < MAX_ORDER
            invariant_except_break
                self.links_ok(),
                self@.fits(current_pfn as int, current_order as int),
                self@.apart(current_pfn as int, block_pages(current_order as int)),
                self@.merge_up(current_pfn as int, current_order as int) == m.merge_up(
                    pfn as int,
                    order as int,
                ),
            invariant
                order <= current_order <= MAX_ORDER,
                self.free_count == old(self).free_count,
                self.base_paddr == old(self).base_paddr,
                self@.total == m.total,
                m.total <= 0x10_0000,
            ensures
                self.links_ok(),
                self@.fits(current_pfn as int, current_order as int),
                self@.apart(current_pfn as int, block_pages(current_order as int)),
                self@.push(current_order as int, current_pfn as int) == m.merge_up(
                    pfn as int,
                    order as int,
                ),
            decreases MAX_ORDER - current_order,
        {
            let size: usize = Self::pages_in(current_order);
            proof {
                lemma_block_pages(current_order as int);
                lemma_buddy(current_pfn as int, current_order as int);
            }
            let buddy_pfn: usize = if (current_pfn / size) % 2 == 0 {
                current_pfn + size
            } else {
                current_pfn - size
            };
            // Check if the buddy is free at this order.
            if !self.is_free(buddy_pfn, current_order) {
                break;
            }
            let ghost before = self@;
            let ghost k = current_order as int;
            let ghost b = buddy_pfn as int;
            let ghost cp = current_pfn as int;
            self.pop_free_at(buddy_pfn, current_order);
            // Merge: the lower page number becomes the merged block.
            current_pfn = if buddy_pfn < current_pfn {
                buddy_pfn
            } else {
                current_pfn
            };
            current_order += 1;
            proof {
                let i = before.lists[k].index_of(b);
                assert(before.has(k, b));
                lemma_take_inv(before, k, i);
                lemma_no_duplicates(before, k);
                lemma_take_has(before, k, i);
                assert forall|k2: int, q: int| #[trigger] self@.has(k2, q) implies q + block_pages(k2)
                    <= current_pfn || current_pfn + block_pages(k + 1) <= q by {
                    lemma_block_pages(k2);
                    assert(before.has(k2, q));
                }
            }
        }
        self.push_free(current_pfn, current_order);
        let size: usize = Self::pages_in(order);
        self.free_count = self.free_count + size;
    }

    /// Free a single page.
    pub fn free_page(&mut self, pfn: usize)
        requires
            old(self).wf(),
            pfn < old(self)@.total,
            old(self)@.apart(pfn as int, 1),
        ensures
            final(self).wf(),
            final(self).base() == old(self).base(),
            final(self)@ == old(self)@.merge_up(pfn as int, 0),
    {
        self.free(pfn, 0);
    }

    /// Total pages managed.
    pub fn total_pages(&self) -> (r: usize)
        requires
            self.wf(),
        ensures
            r == self@.total,
    {
        self.total_pages
    }

    /// Currently free pages.
    pub fn free_count(&self) -> (r: usize)
        requires
            self.wf(),
        ensures
            r == self@.free_pages(),
    {
        self.free_count
    }

    /// Currently used pages.
    pub fn used_pages(&self) -> (r: usize)
        requires
            self.wf(),
        ensures
            r == self@.total - self@.free_pages(),
    {
        proof {
            law_free_pages_bounded(self@);
        }
        self.total_pages - self.free_count
    }
}

/// Taking element `at` of list `order` out of the chain leaves every list
/// spelled out by its head and links.
proof fn lemma_unlinked(a: BuddyAllocator, b: BuddyAllocator, order: int, at: int)
    requires
        a.links_ok(),
        0 <= order <= MAX_ORDER,
        0 <= at < a.lists@[order].len(),
        b.lists@ == a.lists@.update(order, a.lists@[order].remove(at)),
        b.total_pages == a.total_pages,
        b@.inv(),
        b.links@.len() == a.links@.len(),
        b.free_lists@.len() == a.free_lists@.len(),
        forall|k: int|
            0 <= k <= MAX_ORDER && k != order ==> (#[trigger] b.free_lists@[k]) == a.free_lists@[k],
        at > 0 ==> b.free_lists@[order] == a.free_lists@[order],
        at == 0 ==> b.free_lists@[order].head == (if a.lists@[order].len() == 1 {
            None
        } else {
            Some(a.lists@[order][1] as usize)
        }),
        forall|p: int|
            0 <= p < a.links@.len() && p != a.lists@[order][at] && !(at > 0 && p
                == a.lists@[order][at - 1]) ==> #[trigger] b.links@[p] == a.links@[p],
        at > 0 ==> b.links@[a.lists@[order][at - 1]] == next_in(a.lists@[order], at),
    ensures
        b.links_ok(),
{
    let l = a.lists@[order];
    lemma_element(a@, order, at);
    if at > 0 {
        lemma_element(a@, order, at - 1);
    }
    assert forall|k: int| 0 <= k <= MAX_ORDER implies #[trigger] chained(b.free_lists@[k], b.links@, b.lists@[k]) by {
        assert(chained(a.free_lists@[k], a.links@, a.lists@[k]));
        let l0 = a.lists@[k];
        let l2 = b.lists@[k];
        assert forall|j: int| 0 <= j < l2.len() implies #[trigger] link_ok(b.links@, l2, j) by {
            let oj = if k == order && j >= at { j + 1 } else { j };
            assert(l2[j] == l0[oj]);
            lemma_element(a@, k, oj);
            assert(link_ok(a.links@, l0, oj));
            lemma_elements_distinct(a@, k, oj, order, at);
            if at > 0 && !(k == order && oj == at - 1) {
                lemma_elements_distinct(a@, k, oj, order, at - 1);
            }
            if k == order && oj == at - 1 {
                assert(next_in(l0, at) == next_in(l2, j));
            } else {
                assert(b.links@[l0[oj]] == a.links@[l0[oj]]);
                assert(next_in(l0, oj) == next_in(l2, j));
            }
        }
        if k == order {
            if at == 0 && l0.len() > 1 {
                assert(l2[0] == l0[1]);
            } else if at > 0 {
                assert(l2[0] == l0[0]);
            }
        } else {
            assert(b.free_lists@[k] == a.free_lists@[k]);
        }
    }
}

proof fn lemma_no_free(m: BuddyModel, k: int)
    requires
        k <= m.lists.len(),
        forall|j: int| 0 <= j < m.lists.len() ==> (#[trigger] m.lists[j]).len() == 0,
    ensures
        m.free_below(k) == 0,
    decreases k,
{
    if k > 0 {
        lemma_no_free(m, k - 1);
        assert(m.lists[k - 1].len() == 0);
        assert(0 * block_pages(k - 1) == 0);
    }
}

/// The state of the lists while `[0, offset)` is covered and blocks of `order`
/// are being added.
spec fn filling(m: BuddyModel, total: int, order: int, offset: int) -> bool {
    let want = initial_lists(total);
    &&& m.lists.len() == MAX_ORDER + 1
    &&& 0 <= offset <= total
    &&& offset % block_pages(order) == 0
    &&& order < MAX_ORDER ==> total - offset < block_pages(order + 1)
    &&& forall|k: int| order < k <= MAX_ORDER ==> #[trigger] m.lists[k] == want[k]
    &&& forall|k: int| 0 <= k < order ==> (#[trigger] m.lists[k]).len() == 0
    &&& order == MAX_ORDER ==> m.lists[order] == Seq::new(
        (offset / 1024) as nat,
        |i: int| (offset / 1024 - 1 - i) * 1024,
    )
    &&& order < MAX_ORDER && m.lists[order].len() == 0 ==> offset % block_pages(order + 1) == 0
    &&& order < MAX_ORDER && m.lists[order].len() != 0 ==> {
        &&& m.lists[order] == seq![offset - block_pages(order)]
        &&& offset >= block_pages(order)
        &&& (offset - block_pages(order)) % block_pages(order + 1) == 0
        &&& total - offset < block_pages(order)
    }
}

/// `total` is a multiple of `2^(k+1)` plus a rest below it: the quotient and
/// the bit for `2^k` follow.
proof fn lemma_rest(total: int, k: int, base: int, rest: int)
    requires
        k >= 0,
        total == base + rest,
        base >= 0,
        base % block_pages(k + 1) == 0,
        0 <= rest < block_pages(k + 1),
    ensures
        (total / block_pages(k + 1)) * block_pages(k + 1) == base,
        (total / block_pages(k)) % 2 == (if rest >= block_pages(k) {
            1int
        } else {
            0
        }),
{
    lemma_block_pages(k);
    let n = block_pages(k);
    let q = base / (2 * n);
    vstd::arithmetic::div_mod::lemma_fundamental_div_mod(base, 2 * n);
    assert(base == q * (2 * n)) by (nonlinear_arith)
        requires
            base == (2 * n) * q,
    ;
    vstd::arithmetic::div_mod::lemma_fundamental_div_mod_converse(total, 2 * n, q, rest);
    assert(base == (2 * q) * n && base + n == (2 * q + 1) * n) by (nonlinear_arith)
        requires
            base == q * (2 * n),
    ;
    if rest >= n {
        vstd::arithmetic::div_mod::lemma_fundamental_div_mod_converse(
            total,
            n,
            2 * q + 1,
            rest - n,
        );
    } else {
        vstd::arithmetic::div_mod::lemma_fundamental_div_mod_converse(total, n, 2 * q, rest);
    }
}

proof fn lemma_aligned_down(pfn: int, from: int, to: int)
    requires
        0 <= to <= from,
        pfn % block_pages(from) == 0,
    ensures
        pfn % block_pages(to) == 0,
    decreases from,
{
    if to < from {
        lemma_aligned_halves(pfn, from);
        lemma_aligned_down(pfn, from - 1, to);
    }
}

proof fn lemma_filling_step(m: BuddyModel, total: int, order: int, offset: int)
    requires
        0 <= order <= MAX_ORDER,
        block_pages(10) == 1024,
        filling(m, total, order, offset),
        offset < total,
    ensures
        block_pages(order) <= total - offset ==> filling(
            m.push(order, offset),
            total,
            order,
            offset + block_pages(order),
        ),
        block_pages(order) > total - offset ==> order > 0 && filling(m, total, order - 1, offset),
{
    let want = initial_lists(total);
    let n = block_pages(order);
    lemma_block_pages(order);
    if n <= total - offset {
        let m2 = m.push(order, offset);
        let off2 = offset + n;
        vstd::arithmetic::div_mod::lemma_mod_add_multiples_vanish(offset, n);
        if order == MAX_ORDER {
            let c = offset / 1024;
            assert(off2 / 1024 == c + 1);
            assert(offset == c * 1024);
            assert(m2.lists[order] =~= Seq::new((off2 / 1024) as nat, |i: int|
                (off2 / 1024 - 1 - i) * 1024));
        } else {
            assert(m.lists[order].len() == 0);
            assert(m2.lists[order] =~= seq![off2 - n]);
        }
    } else {
        assert(order > 0) by {
            if order == 0 {
                assert(n == 1);
            }
        }
        if order == MAX_ORDER {
            assert(total / 1024 == offset / 1024);
            assert(m.lists[order] =~= want[order]);
        } else if m.lists[order].len() == 0 {
            lemma_rest(total, order, offset, total - offset);
            assert(m.lists[order] =~= want[order]);
        } else {
            lemma_rest(total, order, offset - n, total - offset + n);
            assert(m.lists[order] =~= want[order]);
        }
        lemma_aligned_halves(offset, order);
        assert(m.lists[order - 1].len() == 0);
    }
}

proof fn lemma_filling_done(m: BuddyModel, total: int, order: int)
    requires
        0 <= order <= MAX_ORDER,
        block_pages(10) == 1024,
        filling(m, total, order, total),
    ensures
        m.lists == initial_lists(total),
{
    let want = initial_lists(total);
    let n = block_pages(order);
    lemma_block_pages(order);
    assert forall|k: int| 0 <= k <= MAX_ORDER implies m.lists[k] == want[k] by {
        if k < order {
            lemma_block_pages(k);
            lemma_block_pages(k + 1);
            lemma_aligned_down(total, order, k + 1);
            lemma_rest(total, k, total, 0);
            assert(m.lists[k] =~= want[k]);
        } else if k == order && order < MAX_ORDER {
            lemma_block_pages(order + 1);
            if m.lists[order].len() == 0 {
                lemma_rest(total, order, total, 0);
            } else {
                lemma_rest(total, order, total - n, n);
            }
            assert(m.lists[k] =~= want[k]);
        }
    }
    assert(m.lists =~= want);
}

// ---------------------------------------------------------------------------
// Page cache (PcpCache)
// ---------------------------------------------------------------------------

/// Up to `n` pages move from the buddy system to the end of the cache.
pub open spec fn refilled(pages: Seq<int>, m: BuddyModel, n: nat) -> (Seq<int>, BuddyModel)
    decreases n,
{
    if n == 0 {
        (pages, m)
    } else {
        match m.allocated(0) {
            None => (pages, m),
            Some((pfn, m2)) => refilled(pages.push(pfn), m2, (n - 1) as nat),
        }
    }
}

/// Up to `n` pages move from the end of the cache to the buddy system.
pub open spec fn drained(pages: Seq<int>, m: BuddyModel, n: nat) -> (Seq<int>, BuddyModel)
    decreases n,
{
    if n == 0 || pages.len() == 0 {
        (pages, m)
    } else {
        drained(pages.drop_last(), m.merge_up(pages.last(), 0), (n - 1) as nat)
    }
}

/// A cache and the buddy system behind it, which may not be set up yet.
#[verifier::ext_equal]
pub struct MemModel {
    /// Cached pages; the last one is handed out first.
    pub pages: Seq<int>,
    pub buddy: Option<BuddyModel>,
}

impl MemModel {
    /// Cached pages are distinct; once the buddy system is set up they are managed
    /// pages that it does not consider free.
    pub open spec fn inv(self) -> bool {
        &&& self.pages.len() <= 64
        &&& self.pages.no_duplicates()
        &&& forall|i: int| 0 <= i < self.pages.len() ==> 0 <= (#[trigger] self.pages[i]) <= usize::MAX
        &&& self.buddy is Some ==> {
            let m = self.buddy->0;
            &&& m.inv()
            &&& m.total <= 0x10_0000
            &&& forall|i: int|
                0 <= i < self.pages.len() ==> 0 <= (#[trigger] self.pages[i]) < m.total
                    && !m.is_free_page(self.pages[i])
        }
    }

    /// Page `x` can still be handed out.
    pub open spec fn available(self, x: int) -> bool {
        self.pages.contains(x) || (self.buddy is Some && self.buddy->0.is_free_page(x))
    }

    /// The state in which a page is taken: an empty cache refills first.
    pub open spec fn ready(self) -> MemModel {
        if self.pages.len() == 0 && self.buddy is Some {
            let (pages, m) = refilled(self.pages, self.buddy->0, 16);
            MemModel { pages, buddy: Some(m) }
        } else {
            self
        }
    }

    /// Outcome of taking one page.
    pub open spec fn taken(self) -> (Option<int>, MemModel) {
        let r = self.ready();
        if r.pages.len() > 0 {
            (Some(r.pages.last()), MemModel { pages: r.pages.drop_last(), ..r })
        } else {
            (None, r)
        }
    }

    /// Outcome of giving one page back: a full cache drains first.
    pub open spec fn given(self, pfn: int) -> MemModel {
        if self.pages.len() >= 64 && self.buddy is Some {
            let (pages, m) = drained(self.pages, self.buddy->0, 16);
            MemModel { pages: pages.push(pfn), buddy: Some(m) }
        } else {
            MemModel { pages: self.pages.push(pfn), ..self }
        }
    }
}

proof fn lemma_apart_one(m: BuddyModel, x: int)
    ensures
        m.apart(x, 1) <==> !m.is_free_page(x),
{
    if m.apart(x, 1) && m.is_free_page(x) {
        let (k, q) = choose|k: int, q: int| #[trigger] m.has(k, q) && q <= x < q + block_pages(k);
        assert(q + block_pages(k) <= x || x + 1 <= q);
    }
    if !m.is_free_page(x) {
        assert forall|k: int, q: int| #[trigger] m.has(k, q) implies q + block_pages(k) <= x || x + 1
            <= q by {}
    }
}

proof fn lemma_refilled(s: MemModel, n: nat)
    requires
        s.inv(),
        s.buddy is Some,
        s.pages.len() + n <= 64,
    ensures
        ({
            let (pages, m) = refilled(s.pages, s.buddy->0, n);
            let t = MemModel { pages, buddy: Some(m) };
            &&& t.inv()
            &&& m.total == s.buddy->0.total
            &&& s.pages.len() <= pages.len() <= s.pages.len() + n
            &&& forall|x: int| #[trigger] t.available(x) <==> s.available(x)
            &&& n > 0 && pages.len() == s.pages.len() ==> m == s.buddy->0 && s.buddy->0.allocated(0)
                is None
        }),
    decreases n,
{
    let m0 = s.buddy->0;
    if n > 0 {
        law_alloc_takes_one_block(m0, 0);
        match m0.allocated(0) {
            None => {},
            Some((pfn, m2)) => {
                let s2 = MemModel { pages: s.pages.push(pfn), buddy: Some(m2) };
                assert(m0.is_free_page(pfn));
                assert forall|i: int| 0 <= i < s2.pages.len() implies 0 <= (#[trigger] s2.pages[i])
                    < m2.total && !m2.is_free_page(s2.pages[i]) by {
                    if i < s.pages.len() {
                        assert(s2.pages[i] == s.pages[i]);
                    }
                }
                assert(s2.pages.no_duplicates()) by {
                    assert forall|i: int, j: int|
                        0 <= i < s2.pages.len() && 0 <= j < s2.pages.len() && i != j implies s2.pages[i]
                        != s2.pages[j] by {
                        if i < s.pages.len() {
                            assert(!m0.is_free_page(s.pages[i]));
                        }
                        if j < s.pages.len() {
                            assert(!m0.is_free_page(s.pages[j]));
                        }
                    }
                }
                assert forall|x: int| #[trigger] s2.available(x) <==> s.available(x) by {
                    if s.pages.contains(x) {
                        let i = choose|i: int| 0 <= i < s.pages.len() && s.pages[i] == x;
                        assert(s2.pages[i] == x);
                    }
                    if x == pfn {
                        assert(s2.pages[s.pages.len() as int] == x);
                    }
                    if s2.pages.contains(x) && x != pfn {
                        let i = choose|i: int| 0 <= i < s2.pages.len() && s2.pages[i] == x;
                        assert(s.pages[i] == x);
                    }
                }
                lemma_refilled(s2, (n - 1) as nat);
                let (pages, m) = refilled(s.pages, m0, n);
                let t = MemModel { pages, buddy: Some(m) };
                assert forall|x: int| #[trigger] t.available(x) <==> s.available(x) by {
                    assert(s2.available(x) <==> s.available(x));
                }
            },
        }
    }
}

proof fn lemma_drained(s: MemModel, n: nat)
    requires
        s.inv(),
        s.buddy is Some,
    ensures
        ({
            let (pages, m) = drained(s.pages, s.buddy->0, n);
            let t = MemModel { pages, buddy: Some(m) };
            &&& t.inv()
            &&& m.total == s.buddy->0.total
            &&& pages.len() == (if n <= s.pages.len() {
                s.pages.len() - n
            } else {
                0
            })
            &&& forall|x: int| #[trigger] t.available(x) <==> s.available(x)
        }),
    decreases n,
{
    let m0 = s.buddy->0;
    if n > 0 && s.pages.len() > 0 {
        let pfn = s.pages.last();
        assert(pfn == s.pages[s.pages.len() - 1]);
        lemma_apart_one(m0, pfn);
        law_free_returns_the_block(m0, pfn, 0);
        let m2 = m0.merge_up(pfn, 0);
        let s2 = MemModel { pages: s.pages.drop_last(), buddy: Some(m2) };
        assert forall|i: int| 0 <= i < s2.pages.len() implies 0 <= (#[trigger] s2.pages[i]) < m2.total
            && !m2.is_free_page(s2.pages[i]) by {
            assert(s2.pages[i] == s.pages[i]);
            assert(s.pages[i] != pfn);
        }
        assert forall|x: int| #[trigger] s2.available(x) <==> s.available(x) by {
            if s.pages.contains(x) && x != pfn {
                let i = choose|i: int| 0 <= i < s.pages.len() && s.pages[i] == x;
                assert(s2.pages[i] == x);
            }
            if s2.pages.contains(x) {
                let i = choose|i: int| 0 <= i < s2.pages.len() && s2.pages[i] == x;
                assert(s.pages[i] == x);
            }
        }
        lemma_drained(s2, (n - 1) as nat);
        let (pages, m) = drained(s.pages, m0, n);
        let t = MemModel { pages, buddy: Some(m) };
        assert forall|x: int| #[trigger] t.available(x) <==> s.available(x) by {
            assert(s2.available(x) <==> s.available(x));
        }
    }
}

/// Taking a page hands out one that was available, exactly once, and fails only
/// when no page is available.
pub proof fn law_take_hands_out_each_page_once(s: MemModel)
    requires
        s.inv(),
    ensures
        s.taken().1.inv(),
        s.taken().1.buddy is Some == s.buddy is Some,
        s.buddy is Some ==> s.taken().1.buddy->0.total == s.buddy->0.total,
        match s.taken().0 {
            Some(p) => {
                &&& s.available(p)
                &&& 0 <= p <= usize::MAX
                &&& s.buddy is Some ==> p < s.buddy->0.total
                &&& forall|x: int| #[trigger] s.taken().1.available(x) <==> s.available(x) && x != p
            },
            None => {
                &&& forall|x: int| !#[trigger] s.available(x)
                &&& forall|x: int| !#[trigger] s.taken().1.available(x)
            },
        },
{
    if s.pages.len() == 0 && s.buddy is Some {
        lemma_refilled(s, 16);
    }
    let r = s.ready();
    let (res, t) = s.taken();
    assert(forall|x: int| #[trigger] r.available(x) <==> s.available(x));
    match res {
        Some(p) => {
            assert(r.pages[r.pages.len() - 1] == p);
            assert(r.pages.contains(p));
            assert(r.available(p));
            assert forall|x: int| #[trigger] t.available(x) <==> s.available(x) && x != p by {
                assert(r.available(x) <==> s.available(x));
                if r.pages.contains(x) && x != p {
                    let i = choose|i: int| 0 <= i < r.pages.len() && r.pages[i] == x;
                    assert(t.pages[i] == x);
                }
                if t.pages.contains(x) {
                    let i = choose|i: int| 0 <= i < t.pages.len() && t.pages[i] == x;
                    assert(r.pages[i] == x);
                }
            }
        },
        None => {
            let m = s.buddy->0;
            if s.buddy is Some {
                law_alloc_takes_one_block(m, 0);
                assert(m.allocated(0) is None);
            }
            assert forall|x: int| !#[trigger] s.available(x) by {
                if s.buddy is Some && m.is_free_page(x) {
                    reveal(BuddyModel::inv);
                    let (k, q) = choose|k: int, q: int| #[trigger]
                        m.has(k, q) && q <= x < q + block_pages(k);
                    assert(m.lists[k].len() == 0);
                }
            }
        },
    }
}

/// Giving a page back makes it available, and changes no other page.
pub proof fn law_give_returns_the_page(s: MemModel, pfn: int)
    requires
        s.inv(),
        match s.buddy {
            Some(m) => 0 <= pfn < m.total,
            None => 0 <= pfn <= usize::MAX && s.pages.len() < 64,
        },
        !s.available(pfn),
    ensures
        s.given(pfn).inv(),
        forall|x: int| #[trigger] s.given(pfn).available(x) <==> s.available(x) || x == pfn,
{
    if s.pages.len() >= 64 {
        lemma_drained(s, 16);
    }
    let r = if s.pages.len() >= 64 && s.buddy is Some {
        let (pages, m) = drained(s.pages, s.buddy->0, 16);
        MemModel { pages, buddy: Some(m) }
    } else {
        s
    };
    let t = s.given(pfn);
    assert(!r.available(pfn));
    assert forall|i: int| 0 <= i < t.pages.len() implies 0 <= (#[trigger] t.pages[i]) <= usize::MAX && (
    t.buddy is Some ==> t.pages[i] < t.buddy->0.total && !t.buddy->0.is_free_page(t.pages[i])) by {
        if i < r.pages.len() {
            assert(t.pages[i] == r.pages[i]);
        }
    }
    assert forall|i: int, j: int|
        0 <= i < t.pages.len() && 0 <= j < t.pages.len() && i != j implies t.pages[i] != t.pages[j] by {
        if i < r.pages.len() {
            assert(r.pages.contains(r.pages[i]));
        }
        if j < r.pages.len() {
            assert(r.pages.contains(r.pages[j]));
        }
    }
    assert forall|x: int| #[trigger] t.available(x) <==> s.available(x) || x == pfn by {
        assert(r.available(x) <==> s.available(x));
        if x == pfn {
            assert(t.pages[r.pages.len() as int] == x);
        }
        if r.pages.contains(x) {
            let i = choose|i: int| 0 <= i < r.pages.len() && r.pages[i] == x;
            assert(t.pages[i] == x);
        }
        if t.pages.contains(x) && x != pfn {
            let i = choose|i: int| 0 <= i < t.pages.len() && t.pages[i] == x;
            assert(r.pages[i] == x);
        }
    }
}

/// Front-end cache that batches single-page allocations.
pub struct PcpCache {
    /// Cached free pages.
    pages: [usize; PCP_HIGH],
    /// Number of pages currently cached.
    count: usize,
}

impl View for PcpCache {
    type V = Seq<int>;

    /// The cached pages; the last one is handed out first.
    closed spec fn view(&self) -> Seq<int> {
        Seq::new(self.count as nat, |i: int| self.pages@[i] as int)
    }
}

/// The model of a cache in front of `buddy`.
pub open spec fn mem_model(pages: Seq<int>, buddy: Option<BuddyAllocator>) -> MemModel {
    MemModel {
        pages,
        buddy: match buddy {
            Some(b) => Some(b@),
            None => None,
        },
    }
}

/// The cache and the buddy system behind it are in order.
pub open spec fn mem_wf(pages: Seq<int>, buddy: Option<BuddyAllocator>) -> bool {
    &&& mem_model(pages, buddy).inv()
    &&& buddy is Some ==> buddy->0.wf()
}

impl PcpCache {
    /// The count stays within the array.
    pub closed spec fn wf(self) -> bool {
        self.count <= PCP_HIGH
    }

    pub fn new() -> (r: Self)
        ensures
            r.wf(),
            r@ == Seq::<int>::empty(),
    {
        let r = PcpCache { pages: [0;PCP_HIGH], count: 0 };
        assert(r@ =~= Seq::<int>::empty());
        r
    }

    /// Allocate a single page from the cache, refilling from buddy if empty.
    pub fn alloc_page(&mut self, buddy: &mut Option<BuddyAllocator>) -> (r: Option<usize>)
        requires
            old(self).wf(),
            mem_wf(old(self)@, *old(buddy)),
        ensures
            final(self).wf(),
            mem_wf(final(self)@, *final(buddy)),
            mem_model(final(self)@, *final(buddy)) == mem_model(old(self)@, *old(buddy)).taken().1,
            match mem_model(old(self)@, *old(buddy)).taken().0 {
                Some(p) => r == Some(p as usize) && 0 <= p <= usize::MAX,
                None => r is None,
            },
    {
        let ghost s = mem_model(self@, *buddy);
        proof {
            law_take_hands_out_each_page_once(s);
            if s.buddy is Some && s.pages.len() == 0 {
                lemma_refilled(s, 16);
            }
        }
        if self.count == 0 {
            self.refill(buddy);
        }
        assert(mem_model(self@, *buddy) =~= s.ready());
        if self.count > 0 {
            let ghost before = self@;
            self.count = self.count - 1;
            assert(self@ =~= before.drop_last());
            assert(mem_model(self@, *buddy) =~= s.taken().1);
            Some(self.pages[self.count])
        } else {
            None
        }
    }

    /// Free a single page into the cache, draining to buddy when full.
    pub fn free_page(&mut self, buddy: &mut Option<BuddyAllocator>, pfn: usize)
        requires
            old(self).wf(),
            mem_wf(old(self)@, *old(buddy)),
            match *old(buddy) {
                Some(b) => pfn < b@.total,
                None => old(self)@.len() < 64,
            },
            !mem_model(old(self)@, *old(buddy)).available(pfn as int),
        ensures
            final(self).wf(),
            mem_wf(final(self)@, *final(buddy)),
            mem_model(final(self)@, *final(buddy)) == mem_model(old(self)@, *old(buddy)).given(
                pfn as int,
            ),
    {
        let ghost s = mem_model(self@, *buddy);
        proof {
            law_give_returns_the_page(s, pfn as int);
            if s.buddy is Some {
                lemma_drained(s, 16);
            }
        }
        if self.count >= PCP_HIGH {
            self.drain(buddy);
        }
        let ghost before = self@;
        self.pages[self.count] = pfn;
        self.count = self.count + 1;
        assert(self@ =~= before.push(pfn as int));
        assert(mem_model(self@, *buddy) =~= s.given(pfn as int));
    }

    /// Refill the empty cache from the buddy allocator.
    fn refill(&mut self, buddy: &mut Option<BuddyAllocator>)
        requires
            old(self).wf(),
            old(self)@.len() == 0,
            mem_wf(old(self)@, *old(buddy)),
        ensures
            final(self).wf(),
            mem_wf(final(self)@, *final(buddy)),
            mem_model(final(self)@, *final(buddy)) == mem_model(old(self)@, *old(buddy)).ready(),
    {
        let ghost s = mem_model(self@, *buddy);
        match buddy {
            None => {
                assert(mem_model(self@, *buddy) =~= s.ready());
            },
            Some(b) => {
                let ghost m0 = b@;
                let ghost p0 = self@;
                proof {
                    lemma_refilled(s, 16);
                }
                let mut n: usize = 0;
                while n < PCP_BATCH
                    invariant_except_break
                        self.count == n,
                        refilled(self@, b@, (16 - n) as nat) == refilled(p0, m0, 16),
                    invariant
                        n <= PCP_BATCH,
                        self.count <= PCP_BATCH,
                        b.wf(),
                    ensures
                        (self@, b@) == refilled(p0, m0, 16),
                    decreases PCP_BATCH - n,
                {
                    match b.alloc_page() {
                        Some(pfn) => {
                            let ghost before = self@;
                            self.pages[self.count] = pfn;
                            self.count = self.count + 1;
                            assert(self@ =~= before.push(pfn as int));
                        },
                        None => {
                            break;
                        },
                    }
                    n += 1;
                }
            },
        }
    }

    /// Drain a batch of pages back to the buddy allocator.
    fn drain(&mut self, buddy: &mut Option<BuddyAllocator>)
        requires
            old(self).wf(),
            old(self)@.len() >= 16,
            mem_wf(old(self)@, *old(buddy)),
            *old(buddy) is Some,
        ensures
            final(self).wf(),
            mem_wf(final(self)@, *final(buddy)),
            *final(buddy) is Some,
            (final(self)@, (*final(buddy))->0@) == drained(old(self)@, (*old(buddy))->0@, 16),
    {
        let ghost s = mem_model(self@, *buddy);
        proof {
            lemma_drained(s, 16);
        }
        match buddy {
            None => {},
            Some(b) => {
                let ghost m0 = b@;
                let ghost p0 = self@;
                let mut n: usize = 0;
                while n < PCP_BATCH
                    invariant
                        n <= PCP_BATCH,
                        self.wf(),
                        self.count == p0.len() - n,
                        p0.len() >= 16,
                        b.wf(),
                        (MemModel { pages: self@, buddy: Some(b@) }).inv(),
                        drained(self@, b@, (16 - n) as nat) == drained(p0, m0, 16),
                    decreases PCP_BATCH - n,
                {
                    let ghost before = self@;
                    let ghost cur = MemModel { pages: self@, buddy: Some(b@) };
                    self.count = self.count - 1;
                    let pfn: usize = self.pages[self.count];
                    proof {
                        assert(before.last() == pfn);
                        assert(before[before.len() - 1] == pfn);
                        assert(self@ =~= before.drop_last());
                        lemma_apart_one(b@, pfn as int);
                        lemma_drained(cur, 1);
                        reveal_with_fuel(drained, 2);
                    }
                    b.free_page(pfn);
                    n += 1;
                }
            },
        }
    }
}

// ---------------------------------------------------------------------------
// Physical memory
// ---------------------------------------------------------------------------

/// The physical-memory subsystem: the page cache in front of the buddy
/// allocator, which is absent until `init`.
pub struct PhysMem {
    pub buddy: Option<BuddyAllocator>,
    pub pcp: PcpCache,
}

impl View for PhysMem {
    type V = MemModel;

    open spec fn view(&self) -> MemModel {
        mem_model(self.pcp@, self.buddy)
    }
}

impl PhysMem {
    /// Well-formed.
    pub open spec fn wf(self) -> bool {
        &&& self.pcp.wf()
        &&& mem_wf(self.pcp@, self.buddy)
    }

    /// A subsystem that has not been initialised: it has no page to give.
    pub fn new() -> (r: Self)
        ensures
            r.wf(),
            r@ == (MemModel { pages: Seq::empty(), buddy: None }),
    {
        PhysMem { buddy: None, pcp: PcpCache::new() }
    }
}

/// Initialise the physical-memory subsystem.
///
/// `base_paddr`: start of usable physical RAM.
/// `total_bytes`: size of usable physical RAM.
///
/// The result is well-formed when the cache holds no page yet.
pub fn init(mem: &mut PhysMem, base_paddr: usize, total_bytes: usize)
    requires
        old(mem).pcp.wf(),
    ensures
        final(mem)@ == (MemModel {
            pages: old(mem)@.pages,
            buddy: Some(
                (BuddyModel {
                    lists: initial_lists(managed_pages(total_bytes as int)),
                    total: managed_pages(total_bytes as int),
                }),
            ),
        }),
        old(mem)@.pages.len() == 0 ==> final(mem).wf(),
{
    BuddyAllocator::init(&mut mem.buddy, base_paddr, total_bytes);
}

/// Allocate a single physical page from the cache or, through it, from the
/// buddy allocator.
pub fn alloc_page(mem: &mut PhysMem) -> (r: Option<usize>)
    requires
        old(mem).wf(),
    ensures
        final(mem).wf(),
        final(mem)@ == old(mem)@.taken().1,
        match old(mem)@.taken().0 {
            Some(p) => r == Some(p as usize) && 0 <= p <= usize::MAX,
            None => r is None,
        },
{
    let ghost s = mem@;
    let r = mem.pcp.alloc_page(&mut mem.buddy);
    if r.is_some() {
        return r;
    }
    // The refill failed: try the buddy allocator directly as a last resort.
    match &mut mem.buddy {
        Some(b) => {
            proof {
                if s.pages.len() == 0 {
                    lemma_refilled(s, 16);
                }
            }
            let last = b.alloc_page();
            last
        },
        None => None,
    }
}

/// Free a single physical page.
pub fn free_page(mem: &mut PhysMem, pfn: usize)
    requires
        old(mem).wf(),
        match old(mem)@.buddy {
            Some(m) => pfn < m.total,
            None => old(mem)@.pages.len() < 64,
        },
        !old(mem)@.available(pfn as int),
    ensures
        final(mem).wf(),
        final(mem)@ == old(mem)@.given(pfn as int),
{
    mem.pcp.free_page(&mut mem.buddy, pfn);
}

/// Allocate `2^order` contiguous pages directly from buddy.
pub fn alloc_pages(mem: &mut PhysMem, order: usize) -> (r: Option<usize>)
    requires
        old(mem).wf(),
    ensures
        final(mem).wf(),
        final(mem)@.pages == old(mem)@.pages,
        match old(mem)@.buddy {
            None => r is None && final(mem)@ == old(mem)@,
            Some(m) => if order > MAX_ORDER {
                r is None && final(mem)@ == old(mem)@
            } else {
                match m.allocated(order as int) {
                    None => r is None && final(mem)@ == old(mem)@,
                    Some((pfn, m2)) => r == Some(pfn as usize) && 0 <= pfn < m.total && final(mem)@.buddy == Some(m2),
                }
            },
        },
{
    match &mut mem.buddy {
        None => None,
        Some(b) => {
            proof {
                if order <= MAX_ORDER {
                    law_alloc_takes_one_block(b@, order as int);
                }
            }
            b.alloc_block(order)
        },
    }
}

/// Free `2^order` contiguous pages directly to buddy.
pub fn free_pages(mem: &mut PhysMem, pfn: usize, order: usize)
    requires
        old(mem).wf(),
        old(mem)@.buddy is Some && order <= MAX_ORDER ==> {
            &&& old(mem)@.buddy->0.fits(pfn as int, order as int)
            &&& forall|x: int|
                pfn <= x < pfn + block_pages(order as int) ==> !#[trigger] old(mem)@.available(x)
        },
    ensures
        final(mem).wf(),
        final(mem)@.pages == old(mem)@.pages,
        final(mem)@.buddy == (match old(mem)@.buddy {
            Some(m) if order <= MAX_ORDER => Some(m.merge_up(pfn as int, order as int)),
            other => other,
        }),
{
    let ghost s = mem@;
    match &mut mem.buddy {
        None => {},
        Some(b) => {
            proof {
                if order <= MAX_ORDER {
                    let m = b@;
                    assert(m.apart(pfn as int, block_pages(order as int))) by {
                        assert forall|k: int, q: int| #[trigger] m.has(k, q) implies q + block_pages(k)
                            <= pfn || pfn + block_pages(order as int) <= q by {
                            lemma_block_pages(k);
                            lemma_block_pages(order as int);
                            let x = if q >= pfn { q } else { pfn as int };
                            if q < pfn + block_pages(order as int) && pfn < q + block_pages(k) {
                                assert(m.is_free_page(x));
                                assert(s.available(x));
                            }
                        }
                    }
                    law_free_returns_the_block(m, pfn as int, order as int);
                    assert forall|i: int| 0 <= i < s.pages.len() implies !m.merge_up(
                        pfn as int,
                        order as int,
                    ).is_free_page(#[trigger] s.pages[i]) by {
                        assert(s.pages.contains(s.pages[i]));
                        assert(s.available(s.pages[i]));
                    }
                }
            }
            b.free(pfn, order);
        },
    }
}

/// Return the number of free physical pages (from buddy).
pub fn free_count(mem: &PhysMem) -> (r: usize)
    requires
        mem.wf(),
    ensures
        r == (match mem@.buddy {
            Some(m) => m.free_pages(),
            None => 0,
        }),
{
    match &mem.buddy {
        Some(b) => b.free_count(),
        None => 0,
    }
}

/// Return the total number of managed physical pages.
pub fn total_pages(mem: &PhysMem) -> (r: usize)
    requires
        mem.wf(),
    ensures
        r == (match mem@.buddy {
            Some(m) => m.total,
            None => 0,
        }),
{
    match &mem.buddy {
        Some(b) => b.total_pages(),
        None => 0,
    }
}

/// All whole pages are managed, up to as many as can be.
pub proof fn law_managed_pages(total: int)
    requires
        total >= 0,
    ensures
        0 <= managed_pages(total) <= 0x10_0000,
        managed_pages(total) * 4096 <= total,
        managed_pages(total) < 0x10_0000 ==> total < (managed_pages(total) + 1) * 4096,
{
}

} // verus!
