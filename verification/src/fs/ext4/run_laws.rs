//! What an allocation of several blocks does to the blocks of a file system.
use vstd::prelude::*;
use crate::bytes;
use crate::fs::ext4::bitmap;
use crate::fs::ext4::bitmap::bit_set;
use crate::fs::ext4::block_group;
use crate::fs::ext4::extent_tree;
use crate::fs::ext4::fs;
use crate::fs::ext4::fs::FsModel;
use crate::fs::ext4::fs_laws;
use crate::fs::ext4::fs_laws::{
    bitmap_block, bitmap_of, block_limit, clear_count, group_sound, in_use, sound,
};
use crate::fs::ext4::io;

verus! {

/// `x` lies in the run.
pub open spec fn in_run(p: (int, int), x: int) -> bool {
    p.0 <= x < p.0 + p.1
}

/// `x` lies in one of the runs.
pub open spec fn in_runs(runs: Seq<(int, int)>, x: int) -> bool {
    exists|k: int| 0 <= k < runs.len() && in_run(#[trigger] runs[k], x)
}

/// No two runs overlap.
pub open spec fn disjoint(runs: Seq<(int, int)>) -> bool {
    forall|k: int, l: int, x: int|
        0 <= k < l < runs.len() ==> !(#[trigger] in_run(runs[k], x) && #[trigger] in_run(runs[l], x))
}

/// Every run holds something, and lies below `n`.
pub open spec fn runs_below(runs: Seq<(int, int)>, n: int) -> bool {
    forall|k: int|
        0 <= k < runs.len() ==> 0 <= (#[trigger] runs[k]).0 && runs[k].1 > 0 && runs[k].0 + runs[k].1
            <= n
}

/// The runs were free in `b`, and are all that is new in `b2`.
spec fn runs_taken(b: Seq<u8>, b2: Seq<u8>, runs: Seq<(int, int)>, n: int) -> bool {
    &&& b2.len() == b.len()
    &&& runs_below(runs, n)
    &&& disjoint(runs)
    &&& forall|x: int| #[trigger] in_runs(runs, x) ==> !bit_set(b, x)
    &&& forall|x: int|
        0 <= x < 8 * b.len() ==> #[trigger] bit_set(b2, x) == (in_runs(runs, x) || bit_set(b, x))
    &&& clear_count(b2, n) == clear_count(b, n) - block_group::total(runs)
}

proof fn lemma_in_runs_concat(a: Seq<(int, int)>, b: Seq<(int, int)>, x: int)
    ensures
        in_runs(a + b, x) == (in_runs(a, x) || in_runs(b, x)),
{
    if in_runs(a, x) {
        let k = choose|k: int| 0 <= k < a.len() && in_run(#[trigger] a[k], x);
        assert((a + b)[k] == a[k]);
    }
    if in_runs(b, x) {
        let k = choose|k: int| 0 <= k < b.len() && in_run(#[trigger] b[k], x);
        assert((a + b)[a.len() + k] == b[k]);
    }
    if in_runs(a + b, x) {
        let k = choose|k: int| 0 <= k < (a + b).len() && in_run(#[trigger] (a + b)[k], x);
        if k < a.len() {
            assert(in_run(a[k], x));
        } else {
            assert(in_run(b[k - a.len()], x));
        }
    }
}

proof fn lemma_disjoint_concat(a: Seq<(int, int)>, b: Seq<(int, int)>)
    requires
        disjoint(a),
        disjoint(b),
        forall|x: int| !(#[trigger] in_runs(a, x) && in_runs(b, x)),
    ensures
        disjoint(a + b),
{
    let c = a + b;
    assert forall|k: int, l: int, x: int| 0 <= k < l < c.len() implies !(#[trigger] in_run(c[k], x)
        && #[trigger] in_run(c[l], x)) by {
        let n = a.len() as int;
        if l < n {
            assert(c[k] == a[k] && c[l] == a[l]);
        } else if k >= n {
            assert(c[k] == b[k - n] && c[l] == b[l - n]);
            assert(!(in_run(b[k - n], x) && in_run(b[l - n], x)));
        } else if in_run(c[k], x) && in_run(c[l], x) {
            assert(in_run(a[k], x));
            assert(in_run(b[l - n], x));
            assert(in_runs(a, x) && in_runs(b, x));
        }
    }
}

proof fn lemma_count_with_range(b: Seq<u8>, from: int, c: int, n: int)
    requires
        0 <= c,
        0 <= n <= 8 * b.len(),
        bitmap::free_run(b, n, from, c),
    ensures
        clear_count(bitmap::with_range(b, from, c), n) == clear_count(b, n) - c,
    decreases c,
{
    if c > 0 {
        lemma_count_with_range(b, from, c - 1, n);
        bitmap::law_ranges(b, from, c - 1, from + c - 1);
        assert(!bit_set(b, from + c - 1));
        fs_laws::lemma_count_with_bit(bitmap::with_range(b, from, c - 1), from + c - 1, n);
    }
}

proof fn lemma_take_runs(b: Seq<u8>, size: int, count: int)
    requires
        0 <= size <= b.len(),
    ensures
        runs_taken(
            b,
            block_group::take_runs(b, size, count).0,
            block_group::take_runs(b, size, count).1,
            8 * size,
        ),
    decreases count,
{
    let n = 8 * size;
    let t = bitmap::taken_run(b, size, count);
    if count <= 0 || t.1 is None || !(0 < (t.1->0).1 <= count) {
    } else {
        let p = t.1->0;
        bitmap::lemma_widest_in(b, n, count);
        assert(bitmap::item_count(b.len() as int, size) == n);
        assert(bitmap::free_run(b, n, p.0, p.1));
        let b1 = t.0;
        bitmap::law_ranges(b, p.0, p.1, 0);
        lemma_take_runs(b1, size, count - p.1);
        lemma_count_with_range(b, p.0, p.1, n);
        let rest = block_group::take_runs(b1, size, count - p.1);
        let one = seq![p];
        let runs = one + rest.1;
        assert forall|x: int| in_runs(one, x) == #[trigger] in_run(p, x) by {
            if in_run(p, x) {
                assert(in_run(one[0], x));
            }
        }
        assert forall|x: int| #[trigger] in_runs(one, x) implies !in_runs(rest.1, x) && !bit_set(b, x) by {
            assert(in_run(p, x));
            bitmap::law_ranges(b, p.0, p.1, x);
        }
        lemma_disjoint_concat(one, rest.1);
        assert forall|k: int| 0 <= k < runs.len() implies 0 <= (#[trigger] runs[k]).0 && runs[k].1 > 0
            && runs[k].0 + runs[k].1 <= n by {
            if k > 0 {
                assert(runs[k] == rest.1[k - 1]);
            }
        }
        assert forall|x: int| #[trigger] in_runs(runs, x) implies !bit_set(b, x) by {
            lemma_in_runs_concat(one, rest.1, x);
            if in_runs(rest.1, x) {
                let k = choose|k: int| 0 <= k < rest.1.len() && in_run(#[trigger] rest.1[k], x);
                assert(rest.1[k].0 <= x < rest.1[k].0 + rest.1[k].1);
                bitmap::law_ranges(b, p.0, p.1, x);
            }
        }
        assert forall|x: int| 0 <= x < 8 * b.len() implies #[trigger] bit_set(rest.0, x) == (
        in_runs(runs, x) || bit_set(b, x)) by {
            lemma_in_runs_concat(one, rest.1, x);
            bitmap::law_ranges(b, p.0, p.1, x);
            assert(in_runs(one, x) == in_run(p, x));
        }
        block_group::lemma_total_concat(one, rest.1);
        assert(one.drop_first() =~= seq![]);
        reveal_with_fuel(block_group::total, 2);
    }
}

/// Filling runs with zeros changes no bitmap that lies outside them.
proof fn lemma_zeroed(fs: FsModel, runs: Seq<(int, int)>, n: int)
    requires
        fs::zeroed(fs, runs) is Some,
        fs.bs() > 0,
        runs_below(runs, n),
        forall|h: int|
            0 <= h < fs.groups.len() ==> {
                &&& 0 <= #[trigger] bitmap_block(fs, h) * fs.bs()
                &&& bitmap_block(fs, h) * fs.bs() + fs.bs() <= fs.disk.len()
                &&& !in_runs(runs, bitmap_block(fs, h))
            },
    ensures
        ({
            let after = fs::zeroed(fs, runs)->0;
            &&& after.groups == fs.groups
            &&& after.disk.len() == fs.disk.len()
            &&& after.sb == fs::with_free_blocks(
                fs,
                fs.sb.free_blocks_count - block_group::total(runs),
            ).sb
            &&& forall|h: int|
                0 <= h < fs.groups.len() ==> #[trigger] bitmap_of(after, h) == bitmap_of(fs, h)
        }),
    decreases runs.len(),
{
    if runs.len() > 0 {
        let p = runs[0];
        let bs = fs.bs();
        let fs1 = FsModel {
            disk: bytes::splice(fs.disk, p.0 * bs, bytes::zeros(p.1 * bs)),
            ..fs::with_free_blocks(fs, fs.sb.free_blocks_count - p.1)
        };
        let rest = runs.drop_first();
        assert(0 <= p.0 && p.1 > 0);
        assert(p.1 * bs >= 0) by (nonlinear_arith)
            requires
                p.1 > 0,
                bs > 0,
        ;
        assert forall|h: int| 0 <= h < fs.groups.len() implies #[trigger] bitmap_of(fs1, h)
            == bitmap_of(fs, h) by {
            let b = bitmap_block(fs, h);
            assert(0 <= b * bs);
            assert(!in_run(runs[0], b));
            assert(b * bs + bs <= p.0 * bs || p.0 * bs + p.1 * bs <= b * bs) by (nonlinear_arith)
                requires
                    b + 1 <= p.0 || p.0 + p.1 <= b,
                    bs > 0,
            ;
            assert(bitmap_of(fs1, h) =~= bitmap_of(fs, h));
        }
        assert forall|h: int| 0 <= h < fs1.groups.len() implies {
            &&& 0 <= #[trigger] bitmap_block(fs1, h) * fs1.bs()
            &&& bitmap_block(fs1, h) * fs1.bs() + fs1.bs() <= fs1.disk.len()
            &&& !in_runs(rest, bitmap_block(fs1, h))
        } by {
            let b = bitmap_block(fs, h);
            assert(0 <= b * bs);
            if in_runs(rest, b) {
                let k = choose|k: int| 0 <= k < rest.len() && in_run(#[trigger] rest[k], b);
                assert(in_run(runs[k + 1], b));
            }
        }
        assert forall|k: int| 0 <= k < rest.len() implies 0 <= (#[trigger] rest[k]).0 && rest[k].1 > 0
            && rest[k].0 + rest[k].1 <= n by {
            assert(rest[k] == runs[k + 1]);
        }
        lemma_zeroed(fs1, rest, n);
        assert forall|h: int| 0 <= h < fs.groups.len() implies #[trigger] bitmap_of(
            fs::zeroed(fs, runs)->0,
            h,
        ) == bitmap_of(fs, h) by {
            assert(bitmap_of(fs1, h) == bitmap_of(fs, h));
        }
    }
}

proof fn lemma_same_count(a: Seq<u8>, b: Seq<u8>, n: int)
    requires
        forall|x: int| 0 <= x < n ==> #[trigger] bit_set(a, x) == bit_set(b, x),
    ensures
        clear_count(a, n) == clear_count(b, n),
    decreases n,
{
    if n > 0 {
        lemma_same_count(a, b, n - 1);
        assert(bit_set(a, n - 1) == bit_set(b, n - 1));
    }
}

/// What a sound group hands out: runs that were free in its bitmap.
proof fn lemma_group_takes_runs(fs: FsModel, g: int, count: int)
    requires
        sound(fs),
        0 <= g < fs.groups.len(),
        count > 0,
        block_group::blocks_taken(
            fs.disk,
            fs.groups[g],
            fs.bs(),
            fs.sb.blocks_per_group / 8,
            count,
        ) is Some,
    ensures
        ({
            let t = block_group::blocks_taken(
                fs.disk,
                fs.groups[g],
                fs.bs(),
                fs.sb.blocks_per_group / 8,
                count,
            )->0;
            let fs1 = fs.with_group(g, t.1, t.0);
            &&& t.0.len() == fs.disk.len()
            &&& t.1 == block_group::with_free_blocks(
                fs.groups[g],
                fs.groups[g].inner.free_blocks_count - block_group::total(t.2),
            )
            &&& 0 <= block_group::total(t.2) <= fs.groups[g].inner.free_blocks_count
            &&& runs_taken(bitmap_of(fs, g), bitmap_of(fs1, g), t.2, 8 * fs.bs())
            &&& forall|h: int|
                0 <= h < fs.groups.len() && h != g ==> #[trigger] bitmap_of(fs1, h) == bitmap_of(fs, h)
        }),
{
    let bs = fs.bs();
    let block = bitmap_block(fs, g);
    let node = extent_tree::node_at(fs.disk, bs, block);
    let bits = bitmap_of(fs, g);
    let t = block_group::blocks_taken(
        fs.disk,
        fs.groups[g],
        bs,
        fs.sb.blocks_per_group / 8,
        count,
    )->0;
    let fs1 = fs.with_group(g, t.1, t.0);
    assert(group_sound(fs, g));
    assert(fs.sb.blocks_per_group / 8 == bs);
    assert(bs / bs == 1) by (nonlinear_arith)
        requires
            bs > 0,
    ;
    let r = block_group::take_runs(node, bs, count);
    lemma_take_runs(node, bs, count);
    reveal_with_fuel(block_group::take_many, 2);
    assert(0 * bs * 8 == 0);
    assert(block_group::shifted(r.1, 0) + Seq::<(int, int)>::empty() =~= r.1);
    assert(t.2 == r.1);
    lemma_total_positive(r.1, 8 * bs);
    assert(bits =~= node.take(bs));
    assert forall|x: int| 0 <= x < 8 * bs implies #[trigger] bit_set(node, x) == bit_set(bits, x) by {
        assert(node[x / 8] == bits[x / 8]);
    }
    let bits1 = bitmap_of(fs1, g);
    if r.1.len() > 0 {
        assert(bits1 =~= r.0.take(bs));
    } else {
        assert(bits1 == bits);
    }
    assert forall|x: int| 0 <= x < 8 * bs implies #[trigger] bit_set(bits1, x) == (in_runs(r.1, x)
        || bit_set(bits, x)) by {
        assert(bit_set(node, x) == bit_set(bits, x));
        if r.1.len() > 0 {
            assert(r.0[x / 8] == bits1[x / 8]);
            assert(bit_set(r.0, x) == (in_runs(r.1, x) || bit_set(node, x)));
        }
    }
    assert forall|x: int| #[trigger] in_runs(r.1, x) implies !bit_set(bits, x) by {
        let k = choose|k: int| 0 <= k < r.1.len() && in_run(#[trigger] r.1[k], x);
        assert(0 <= r.1[k].0 && r.1[k].0 + r.1[k].1 <= 8 * bs);
        assert(bit_set(node, x) == bit_set(bits, x));
    }
    lemma_same_count(node, bits, 8 * bs);
    assert forall|x: int| 0 <= x < 8 * bs implies #[trigger] bit_set(r.0, x) == bit_set(bits1, x) by {
        assert(bit_set(node, x) == bit_set(bits, x));
        assert(bit_set(bits1, x) == (in_runs(r.1, x) || bit_set(bits, x)));
    }
    lemma_same_count(r.0, bits1, 8 * bs);
    assert forall|h: int| 0 <= h < fs.groups.len() && h != g implies #[trigger] bitmap_of(fs1, h)
        == bitmap_of(fs, h) by {
        assert(group_sound(fs, h));
        if h < g {
            assert(bitmap_block(fs, h) != bitmap_block(fs, g));
        } else {
            assert(bitmap_block(fs, g) != bitmap_block(fs, h));
        }
        fs_laws::lemma_apart(bitmap_block(fs, h), bitmap_block(fs, g), bs);
        assert(bitmap_of(fs1, h) =~= bitmap_of(fs, h));
    }
}

proof fn lemma_total_positive(runs: Seq<(int, int)>, n: int)
    requires
        runs_below(runs, n),
    ensures
        block_group::total(runs) >= 0,
    decreases runs.len(),
{
    if runs.len() > 0 {
        let rest = runs.drop_first();
        assert forall|k: int| 0 <= k < rest.len() implies 0 <= (#[trigger] rest[k]).0 && rest[k].1 > 0
            && rest[k].0 + rest[k].1 <= n by {
            assert(rest[k] == runs[k + 1]);
        }
        lemma_total_positive(rest, n);
        assert(runs[0].1 > 0);
    }
}

/// The runs were free, do not overlap, and are all that is marked in addition
/// afterwards; the bitmaps stay sound.
pub open spec fn allocated(fs: FsModel, after: FsModel, runs: Seq<(int, int)>) -> bool {
    &&& sound(after)
    &&& after.groups.len() == fs.groups.len()
    &&& after.sb.blocks_per_group == fs.sb.blocks_per_group
    &&& runs_below(runs, block_limit(fs))
    &&& disjoint(runs)
    &&& forall|x: int| #[trigger] in_runs(runs, x) ==> !in_use(fs, x)
    &&& forall|x: int|
        0 <= x < block_limit(fs) ==> #[trigger] in_use(after, x) == (in_runs(runs, x) || in_use(fs, x))
}

proof fn lemma_in_shifted(runs: Seq<(int, int)>, by: int, x: int)
    ensures
        in_runs(block_group::shifted(runs, by), x) == in_runs(runs, x - by),
{
    let s = block_group::shifted(runs, by);
    if in_runs(s, x) {
        let k = choose|k: int| 0 <= k < s.len() && in_run(#[trigger] s[k], x);
        assert(in_run(runs[k], x - by));
    }
    if in_runs(runs, x - by) {
        let k = choose|k: int| 0 <= k < runs.len() && in_run(#[trigger] runs[k], x - by);
        assert(in_run(s[k], x));
    }
}

/// The numbers of group `g`.
proof fn lemma_group_numbers(fs: FsModel, g: int, x: int)
    requires
        sound(fs),
        0 <= g < fs.groups.len(),
        0 <= x < block_limit(fs),
    ensures
        0 <= x / fs.sb.blocks_per_group < fs.groups.len(),
        0 <= x % fs.sb.blocks_per_group < 8 * fs.bs(),
        0 <= fs.sb.blocks_per_group * g,
        fs.sb.blocks_per_group * g + fs.sb.blocks_per_group <= block_limit(fs),
        (0 <= x - fs.sb.blocks_per_group * g < 8 * fs.bs()) == (x / fs.sb.blocks_per_group == g),
        x / fs.sb.blocks_per_group == g ==> x % fs.sb.blocks_per_group == x
            - fs.sb.blocks_per_group * g,
{
    let per = fs.sb.blocks_per_group;
    let h = x / per;
    let k = x % per;
    vstd::arithmetic::div_mod::lemma_fundamental_div_mod(x, per);
    assert(0 <= h < fs.groups.len()) by (nonlinear_arith)
        requires
            x == per * h + k,
            0 <= k < per,
            0 <= x < per * fs.groups.len(),
    ;
    assert(per * g + per <= per * fs.groups.len()) by (nonlinear_arith)
        requires
            g + 1 <= fs.groups.len(),
            per > 0,
    ;
    assert(per * g >= 0) by (nonlinear_arith)
        requires
            g >= 0,
            per > 0,
    ;
    if 0 <= x - per * g < per {
        assert(per * g == g * per) by (nonlinear_arith);
        vstd::arithmetic::div_mod::lemma_fundamental_div_mod_converse(x, per, g, x - per * g);
    }
}

proof fn lemma_group_step(fs: FsModel, g: int, count: int)
    requires
        sound(fs),
        0 <= g < fs.groups.len(),
        count > 0,
        block_group::blocks_taken(
            fs.disk,
            fs.groups[g],
            fs.bs(),
            fs.sb.blocks_per_group / 8,
            count,
        ) is Some,
    ensures
        ({
            let t = block_group::blocks_taken(
                fs.disk,
                fs.groups[g],
                fs.bs(),
                fs.sb.blocks_per_group / 8,
                count,
            )->0;
            let runs = block_group::shifted(t.2, fs.sb.blocks_per_group * g);
            let after = fs::zeroed(fs.with_group(g, t.1, t.0), runs);
            after is Some ==> allocated(fs, after->0, runs)
        }),
{
    let bs = fs.bs();
    let per = fs.sb.blocks_per_group;
    let t = block_group::blocks_taken(fs.disk, fs.groups[g], bs, per / 8, count)->0;
    let runs = block_group::shifted(t.2, per * g);
    let fs1 = fs.with_group(g, t.1, t.0);
    if fs::zeroed(fs1, runs) is Some {
        let after = fs::zeroed(fs1, runs)->0;
        lemma_group_takes_runs(fs, g, count);
        assert(group_sound(fs, g));
        lemma_group_numbers(fs, g, bitmap_block(fs, g));
        assert(runs_below(runs, block_limit(fs))) by {
            assert forall|k: int| 0 <= k < runs.len() implies 0 <= (#[trigger] runs[k]).0 && runs[k].1
                > 0 && runs[k].0 + runs[k].1 <= block_limit(fs) by {
                assert(0 <= t.2[k].0 && t.2[k].1 > 0 && t.2[k].0 + t.2[k].1 <= 8 * bs);
            }
        }
        assert forall|x: int| #[trigger] in_runs(runs, x) implies 0 <= x < block_limit(fs) && x / per
            == g && !in_use(fs, x) by {
            lemma_in_shifted(t.2, per * g, x);
            let k = choose|k: int| 0 <= k < t.2.len() && in_run(#[trigger] t.2[k], x - per * g);
            assert(0 <= t.2[k].0 && t.2[k].0 + t.2[k].1 <= 8 * bs);
            lemma_group_numbers(fs, g, x);
        }
        assert forall|k: int, l: int, x: int| 0 <= k < l < runs.len() implies !(#[trigger] in_run(
            runs[k],
            x,
        ) && #[trigger] in_run(runs[l], x)) by {
            assert(!(in_run(t.2[k], x - per * g) && in_run(t.2[l], x - per * g)));
        }
        assert forall|h: int| 0 <= h < fs1.groups.len() implies {
            &&& 0 <= #[trigger] bitmap_block(fs1, h) * fs1.bs()
            &&& bitmap_block(fs1, h) * fs1.bs() + fs1.bs() <= fs1.disk.len()
            &&& !in_runs(runs, bitmap_block(fs1, h))
        } by {
            assert(group_sound(fs, h));
            assert(bitmap_block(fs1, h) == bitmap_block(fs, h));
        }
        lemma_zeroed(fs1, runs, block_limit(fs));
        assert forall|x: int| 0 <= x < block_limit(fs) implies #[trigger] in_use(after, x) == (
        in_runs(runs, x) || in_use(fs, x)) by {
            let h = x / per;
            lemma_group_numbers(fs, g, x);
            lemma_in_shifted(t.2, per * g, x);
            assert(bitmap_of(after, h) == bitmap_of(fs1, h));
            if h != g {
                assert(bitmap_of(fs1, h) == bitmap_of(fs, h));
                if in_runs(runs, x) {
                    assert(x / per == g);
                }
            } else {
                assert(bit_set(bitmap_of(fs1, g), x % per) == (in_runs(t.2, x % per) || bit_set(
                    bitmap_of(fs, g),
                    x % per,
                )));
            }
        }
        assert forall|h: int| 0 <= h < after.groups.len() implies #[trigger] group_sound(after, h) by {
            assert(group_sound(fs, h));
            assert(bitmap_block(after, h) == bitmap_block(fs, h));
            assert(in_use(after, bitmap_block(fs, h)));
            assert(bitmap_of(after, h) == bitmap_of(fs1, h));
            if h != g {
                assert(bitmap_of(fs1, h) == bitmap_of(fs, h));
            }
        }
        assert forall|h: int, k: int| 0 <= h < k < after.groups.len() implies #[trigger] bitmap_block(
            after,
            h,
        ) != #[trigger] bitmap_block(after, k) by {
            assert(bitmap_block(fs, h) != bitmap_block(fs, k));
        }
    }
}

proof fn lemma_blocks_taken(fs: FsModel, gi: int, count: int)
    requires
        sound(fs),
        0 <= gi,
        fs::blocks_taken(fs, gi, count) is Some,
    ensures
        allocated(
            fs,
            (fs::blocks_taken(fs, gi, count)->0).0,
            (fs::blocks_taken(fs, gi, count)->0).1,
        ),
    decreases fs.groups.len() - gi,
{
    reveal(fs::blocks_taken);
    let (after, all) = fs::blocks_taken(fs, gi, count)->0;
    if gi >= fs.groups.len() || count <= 0 {
    } else {
        let per = fs.sb.blocks_per_group;
        let t = block_group::blocks_taken(fs.disk, fs.groups[gi], fs.bs(), per / 8, count)->0;
        let runs = block_group::shifted(t.2, per * gi);
        let fs2 = fs::zeroed(fs.with_group(gi, t.1, t.0), runs)->0;
        lemma_group_step(fs, gi, count);
        let left = count - block_group::total(t.2);
        lemma_blocks_taken(fs2, gi + 1, left);
        let rest = (fs::blocks_taken(fs2, gi + 1, left)->0).1;
        assert(all == runs + rest);
        assert(block_limit(fs2) == block_limit(fs));
        assert forall|x: int| #[trigger] in_runs(rest, x) implies 0 <= x < block_limit(fs)
            && !in_use(fs, x) && !in_runs(runs, x) by {
            let k = choose|k: int| 0 <= k < rest.len() && in_run(#[trigger] rest[k], x);
            assert(0 <= rest[k].0 && rest[k].0 + rest[k].1 <= block_limit(fs));
            assert(in_use(fs2, x) == (in_runs(runs, x) || in_use(fs, x)));
        }
        assert forall|x: int| !(#[trigger] in_runs(runs, x) && in_runs(rest, x)) by {}
        lemma_disjoint_concat(runs, rest);
        assert forall|k: int| 0 <= k < all.len() implies 0 <= (#[trigger] all[k]).0 && all[k].1 > 0
            && all[k].0 + all[k].1 <= block_limit(fs) by {
            if k < runs.len() {
                assert(all[k] == runs[k]);
            } else {
                assert(all[k] == rest[k - runs.len()]);
            }
        }
        assert forall|x: int| #[trigger] in_runs(all, x) implies !in_use(fs, x) by {
            lemma_in_runs_concat(runs, rest, x);
        }
        assert forall|x: int| 0 <= x < block_limit(fs) implies #[trigger] in_use(after, x) == (
        in_runs(all, x) || in_use(fs, x)) by {
            lemma_in_runs_concat(runs, rest, x);
            assert(in_use(fs2, x) == (in_runs(runs, x) || in_use(fs, x)));
        }
    }
}

/// Filling runs with zeros keeps the content of a block outside them.
proof fn lemma_zeroed_keeps(fs: FsModel, runs: Seq<(int, int)>, n: int, x: int)
    requires
        fs::zeroed(fs, runs) is Some,
        fs.bs() > 0,
        runs_below(runs, n),
        io::block_on(fs.disk, fs.bs(), x),
        !in_runs(runs, x),
    ensures
        io::block_at((fs::zeroed(fs, runs)->0).disk, fs.bs(), x) == io::block_at(
            fs.disk,
            fs.bs(),
            x,
        ),
    decreases runs.len(),
{
    if runs.len() > 0 {
        let p = runs[0];
        let bs = fs.bs();
        let rest = runs.drop_first();
        let fs1 = FsModel {
            disk: bytes::splice(fs.disk, p.0 * bs, bytes::zeros(p.1 * bs)),
            ..fs::with_free_blocks(fs, fs.sb.free_blocks_count - p.1)
        };
        assert(0 <= p.0 && p.1 > 0);
        assert(!in_run(runs[0], x));
        assert(p.1 * bs >= 0) by (nonlinear_arith)
            requires
                p.1 > 0,
                bs > 0,
        ;
        assert(x * bs + bs <= p.0 * bs || p.0 * bs + p.1 * bs <= x * bs) by (nonlinear_arith)
            requires
                x + 1 <= p.0 || p.0 + p.1 <= x,
                bs > 0,
        ;
        assert(io::block_at(fs1.disk, bs, x) =~= io::block_at(fs.disk, bs, x));
        assert forall|k: int| 0 <= k < rest.len() implies 0 <= (#[trigger] rest[k]).0 && rest[k].1 > 0
            && rest[k].0 + rest[k].1 <= n by {
            assert(rest[k] == runs[k + 1]);
        }
        if in_runs(rest, x) {
            let k = choose|k: int| 0 <= k < rest.len() && in_run(#[trigger] rest[k], x);
            assert(in_run(runs[k + 1], x));
        }
        lemma_zeroed_keeps(fs1, rest, n, x);
    }
}

/// An allocation of several blocks changes the content of no block that is in
/// use, but for the bitmaps.
pub proof fn law_allocation_of_runs_keeps_used_blocks(fs: FsModel, gi: int, count: int, x: int)
    requires
        sound(fs),
        0 <= gi,
        fs::blocks_taken(fs, gi, count) is Some,
        0 <= x < block_limit(fs),
        in_use(fs, x),
        io::block_on(fs.disk, fs.bs(), x),
        forall|h: int| 0 <= h < fs.groups.len() ==> #[trigger] bitmap_block(fs, h) != x,
    ensures
        io::block_at((fs::blocks_taken(fs, gi, count)->0).0.disk, fs.bs(), x) == io::block_at(
            fs.disk,
            fs.bs(),
            x,
        ),
    decreases fs.groups.len() - gi,
{
    reveal(fs::blocks_taken);
    if gi < fs.groups.len() && count > 0 {
        let bs = fs.bs();
        let per = fs.sb.blocks_per_group;
        let t = block_group::blocks_taken(fs.disk, fs.groups[gi], bs, per / 8, count)->0;
        let runs = block_group::shifted(t.2, per * gi);
        let fs1 = fs.with_group(gi, t.1, t.0);
        let fs2 = fs::zeroed(fs1, runs)->0;
        lemma_group_step(fs, gi, count);
        lemma_group_takes_runs(fs, gi, count);
        assert(group_sound(fs, gi));
        fs_laws::lemma_apart(bitmap_block(fs, gi), x, bs);
        lemma_group_disk(fs, gi, count);
        assert(io::block_at(fs1.disk, bs, x) =~= io::block_at(fs.disk, bs, x));
        lemma_zeroed_keeps(fs1, runs, block_limit(fs), x);
        assert forall|h: int| 0 <= h < fs1.groups.len() implies {
            &&& 0 <= #[trigger] bitmap_block(fs1, h) * fs1.bs()
            &&& bitmap_block(fs1, h) * fs1.bs() + fs1.bs() <= fs1.disk.len()
            &&& !in_runs(runs, bitmap_block(fs1, h))
        } by {
            assert(group_sound(fs, h));
            assert(bitmap_block(fs1, h) == bitmap_block(fs, h));
        }
        lemma_zeroed(fs1, runs, block_limit(fs));
        assert(in_use(fs2, x) == (in_runs(runs, x) || in_use(fs, x)));
        assert forall|h: int| 0 <= h < fs2.groups.len() implies #[trigger] bitmap_block(fs2, h) != x by {
            assert(bitmap_block(fs2, h) == bitmap_block(fs, h));
        }
        law_allocation_of_runs_keeps_used_blocks(
            fs2,
            gi + 1,
            count - block_group::total(t.2),
            x,
        );
    }
}

/// A group's allocation writes to nothing but its bitmap.
proof fn lemma_group_disk(fs: FsModel, g: int, count: int)
    requires
        sound(fs),
        0 <= g < fs.groups.len(),
        count > 0,
        block_group::blocks_taken(
            fs.disk,
            fs.groups[g],
            fs.bs(),
            fs.sb.blocks_per_group / 8,
            count,
        ) is Some,
    ensures
        ({
            let disk = (block_group::blocks_taken(
                fs.disk,
                fs.groups[g],
                fs.bs(),
                fs.sb.blocks_per_group / 8,
                count,
            )->0).0;
            &&& disk.len() == fs.disk.len()
            &&& forall|i: int|
                0 <= i < disk.len() && !(bitmap_block(fs, g) * fs.bs() <= i < bitmap_block(fs, g)
                    * fs.bs() + fs.bs()) ==> #[trigger] disk[i] == fs.disk[i]
        }),
{
    let bs = fs.bs();
    assert(group_sound(fs, g));
    assert(fs.sb.blocks_per_group / 8 == bs);
    assert(bs / bs == 1) by (nonlinear_arith)
        requires
            bs > 0,
    ;
    lemma_take_runs(extent_tree::node_at(fs.disk, bs, bitmap_block(fs, g)), bs, count);
    reveal_with_fuel(block_group::take_many, 2);
}

/// Blocks that are allocated together were free, are all different, and are
/// marked as used afterwards; no other block's mark changes, and the bitmaps
/// stay sound.
pub proof fn law_allocated_runs_were_free(fs: FsModel, count: int)
    requires
        sound(fs),
        fs::blocks_taken(fs, 0, count) is Some,
    ensures
        allocated(
            fs,
            (fs::blocks_taken(fs, 0, count)->0).0,
            (fs::blocks_taken(fs, 0, count)->0).1,
        ),
{
    lemma_blocks_taken(fs, 0, count);
}

} // verus!
