//! Little-endian integers in byte buffers, and copying between buffers.
use vstd::prelude::*;

verus! {

/// The 16-bit integer stored at `at`, least significant byte first.
pub open spec fn le16(b: Seq<u8>, at: int) -> int {
    b[at] + 0x100 * b[at + 1]
}

/// The 32-bit integer stored at `at`, least significant byte first.
pub open spec fn le32(b: Seq<u8>, at: int) -> int {
    le16(b, at) + 0x1_0000 * le16(b, at + 2)
}

/// The 64-bit integer stored at `at`, least significant byte first.
pub open spec fn le64(b: Seq<u8>, at: int) -> int {
    le32(b, at) + 0x1_0000_0000 * le32(b, at + 4)
}

/// The two bytes of a 16-bit integer.
pub open spec fn enc16(v: int) -> Seq<u8> {
    seq![(v % 0x100) as u8, (v / 0x100 % 0x100) as u8]
}

/// The four bytes of a 32-bit integer.
pub open spec fn enc32(v: int) -> Seq<u8> {
    enc16(v) + enc16(v / 0x1_0000)
}

/// The eight bytes of a 64-bit integer.
pub open spec fn enc64(v: int) -> Seq<u8> {
    enc32(v) + enc32(v / 0x1_0000_0000)
}

/// `s` with `part` written over it from `at` on.
pub open spec fn splice(s: Seq<u8>, at: int, part: Seq<u8>) -> Seq<u8> {
    Seq::new(
        s.len(),
        |i: int|
            if at <= i < at + part.len() {
                part[i - at]
            } else {
                s[i]
            },
    )
}

/// `n` bytes of value 0.
pub open spec fn zeros(n: int) -> Seq<u8> {
    Seq::new(n as nat, |i: int| 0u8)
}

/// Values read back are in range.
pub proof fn lemma_le_bounds(b: Seq<u8>, at: int)
    ensures
        0 <= le16(b, at) < 0x1_0000,
        0 <= le32(b, at) < 0x1_0000_0000,
        0 <= le64(b, at) < 0x1_0000_0000_0000_0000,
{
}

/// `part` stands in `b` at `at`.
pub open spec fn stands_at(b: Seq<u8>, at: int, part: Seq<u8>) -> bool {
    &&& 0 <= at
    &&& at + part.len() <= b.len()
    &&& forall|k: int| 0 <= k < part.len() ==> b[at + k] == #[trigger] part[k]
}

/// Encoded integers are read back.
pub proof fn lemma_decode(b: Seq<u8>, at: int, v: int)
    ensures
        0 <= v < 0x1_0000 && stands_at(b, at, enc16(v)) ==> le16(b, at) == v,
        0 <= v < 0x1_0000_0000 && stands_at(b, at, enc32(v)) ==> le32(b, at) == v,
        0 <= v < 0x1_0000_0000_0000_0000 && stands_at(b, at, enc64(v)) ==> le64(b, at) == v,
{
    if 0 <= v < 0x1_0000 && stands_at(b, at, enc16(v)) {
        lemma_decode16(b, at, v);
    }
    if 0 <= v < 0x1_0000_0000 && stands_at(b, at, enc32(v)) {
        lemma_decode32(b, at, v);
    }
    if 0 <= v < 0x1_0000_0000_0000_0000 && stands_at(b, at, enc64(v)) {
        let lo = v % 0x1_0000_0000;
        let hi = v / 0x1_0000_0000;
        lemma_enc_low(v);
        lemma_stands_parts(b, at, enc32(v), enc32(hi));
        lemma_decode32(b, at, lo);
        lemma_decode32(b, at + 4, hi);
    }
}

proof fn lemma_decode16(b: Seq<u8>, at: int, v: int)
    requires
        0 <= v < 0x1_0000,
        stands_at(b, at, enc16(v)),
    ensures
        le16(b, at) == v,
{
    assert(b[at + 0] == enc16(v)[0] && b[at + 1] == enc16(v)[1]);
}

proof fn lemma_decode32(b: Seq<u8>, at: int, v: int)
    requires
        0 <= v < 0x1_0000_0000,
        stands_at(b, at, enc32(v)),
    ensures
        le32(b, at) == v,
{
    let lo = v % 0x1_0000;
    let hi = v / 0x1_0000;
    lemma_enc_low(v);
    lemma_stands_parts(b, at, enc16(v), enc16(hi));
    lemma_decode16(b, at, lo);
    lemma_decode16(b, at + 2, hi);
}

/// Where a whole stands, its parts stand one after the other.
pub proof fn lemma_stands_parts(b: Seq<u8>, at: int, x: Seq<u8>, y: Seq<u8>)
    requires
        stands_at(b, at, x + y),
    ensures
        stands_at(b, at, x),
        stands_at(b, at + x.len(), y),
{
    assert forall|k: int| 0 <= k < x.len() implies b[at + k] == #[trigger] x[k] by {
        assert((x + y)[k] == x[k]);
    }
    assert forall|k: int| 0 <= k < y.len() implies b[at + x.len() + k] == #[trigger] y[k] by {
        assert((x + y)[x.len() + k] == y[k]);
        assert(b[at + (x.len() + k)] == (x + y)[x.len() + k]);
    }
}

/// `stands_at` as a closed fact, for long chains of fields.
#[verifier::opaque]
pub open spec fn holds_at(b: Seq<u8>, at: int, part: Seq<u8>) -> bool {
    stands_at(b, at, part)
}

/// The last field of a chain, a 16-bit integer, is read back.
pub proof fn lemma_peel16(b: Seq<u8>, at: int, n: int, pre: Seq<u8>, v: u16)
    requires
        holds_at(b, at, pre + enc16(v as int)),
        pre.len() == n,
    ensures
        holds_at(b, at, pre),
        le16(b, at + n) == v,
{
    reveal(holds_at);
    lemma_stands_parts(b, at, pre, enc16(v as int));
    lemma_decode(b, at + n, v as int);
}

/// The last field of a chain, a 32-bit integer, is read back.
pub proof fn lemma_peel32(b: Seq<u8>, at: int, n: int, pre: Seq<u8>, v: u32)
    requires
        holds_at(b, at, pre + enc32(v as int)),
        pre.len() == n,
    ensures
        holds_at(b, at, pre),
        le32(b, at + n) == v,
{
    reveal(holds_at);
    lemma_stands_parts(b, at, pre, enc32(v as int));
    lemma_decode(b, at + n, v as int);
}

/// What was written stands where it was written.
pub proof fn lemma_splice_stands(s: Seq<u8>, at: int, part: Seq<u8>)
    requires
        0 <= at,
        at + part.len() <= s.len(),
    ensures
        stands_at(splice(s, at, part), at, part),
        splice(s, at, part).len() == s.len(),
        forall|i: int|
            0 <= i < s.len() && !(at <= i < at + part.len()) ==> #[trigger] splice(s, at, part)[i]
                == s[i],
{
}

/// Integers depend on their own bytes only.
pub proof fn lemma_same_int(a: Seq<u8>, b: Seq<u8>, at: int, bt: int, n: int)
    requires
        forall|k: int| 0 <= k < n ==> a[at + k] == #[trigger] b[bt + k],
    ensures
        n >= 2 ==> le16(a, at) == le16(b, bt),
        n >= 4 ==> le32(a, at) == le32(b, bt),
        n >= 8 ==> le64(a, at) == le64(b, bt),
{
    if n >= 2 {
        assert(a[at + 0] == b[bt + 0] && a[at + 1] == b[bt + 1]);
    }
    if n >= 4 {
        assert(a[at + 2] == b[bt + 2] && a[at + 3] == b[bt + 3]);
    }
    if n >= 8 {
        assert(a[at + 4] == b[bt + 4] && a[at + 5] == b[bt + 5] && a[at + 6] == b[bt + 6] && a[at
            + 7] == b[bt + 7]);
    }
}

/// An integer that was written is read back.
pub proof fn law_read_back(s: Seq<u8>, at: int, v: int)
    requires
        0 <= at,
    ensures
        0 <= v < 0x1_0000 && at + 2 <= s.len() ==> le16(splice(s, at, enc16(v)), at) == v,
        0 <= v < 0x1_0000_0000 && at + 4 <= s.len() ==> le32(splice(s, at, enc32(v)), at) == v,
        0 <= v < 0x1_0000_0000_0000_0000 && at + 8 <= s.len() ==> le64(splice(s, at, enc64(v)), at)
            == v,
{
    if at + 2 <= s.len() {
        lemma_splice_stands(s, at, enc16(v));
        lemma_decode(splice(s, at, enc16(v)), at, v);
    }
    if at + 4 <= s.len() {
        lemma_splice_stands(s, at, enc32(v));
        lemma_decode(splice(s, at, enc32(v)), at, v);
    }
    if at + 8 <= s.len() {
        lemma_splice_stands(s, at, enc64(v));
        lemma_decode(splice(s, at, enc64(v)), at, v);
    }
}

/// Only the low bits of a value are encoded.
proof fn lemma_enc_low(v: int)
    requires
        0 <= v,
    ensures
        enc16(v % 0x1_0000) == enc16(v),
        enc32(v % 0x1_0000_0000) == enc32(v),
{
    lemma_low(v, 0x100, 0x100);
    lemma_low(v, 0x1_0000, 0x1_0000);
    let l = v % 0x1_0000_0000;
    let m = v / 0x1_0000;
    assert(l / 0x1_0000 == m % 0x1_0000);
    assert(l % 0x1_0000 == v % 0x1_0000);
    lemma_low(l, 0x100, 0x100);
    lemma_low(m, 0x100, 0x100);
    lemma_enc16_low(v % 0x1_0000, v);
    lemma_enc16_low(l, v);
    lemma_enc16_low(l / 0x1_0000, m);
}

proof fn lemma_enc16_low(a: int, b: int)
    requires
        a >= 0,
        b >= 0,
        a % 0x1_0000 == b % 0x1_0000,
    ensures
        enc16(a) == enc16(b),
{
    lemma_low(a, 0x100, 0x100);
    lemma_low(b, 0x100, 0x100);
}

proof fn lemma_low(v: int, a: int, b: int)
    requires
        v >= 0,
        a > 0,
        b > 0,
    ensures
        (v % (a * b)) / a == (v / a) % b,
        (v % (a * b)) % a == v % a,
{
    vstd::arithmetic::div_mod::lemma_mod_breakdown(v, a, b);
    let q = (v / a) % b;
    assert(v % (a * b) == q * a + v % a) by (nonlinear_arith)
        requires
            v % (a * b) == a * q + v % a,
    ;
    vstd::arithmetic::div_mod::lemma_fundamental_div_mod_converse(v % (a * b), a, q, v % a);
}

/// Encoding what was read gives the bytes that it was read from.
pub proof fn lemma_enc_of_le(b: Seq<u8>, at: int)
    ensures
        forall|k: int| 0 <= k < 8 ==> #[trigger] enc64(le64(b, at))[k] == b[at + k],
{
    let lo = le32(b, at);
    let hi = le32(b, at + 4);
    let v = le64(b, at);
    assert(v / 0x1_0000_0000 == hi && v % 0x1_0000_0000 == lo);
    lemma_enc_low(v);
    lemma_enc32_of_le(b, at);
    lemma_enc32_of_le(b, at + 4);
    assert forall|k: int| 0 <= k < 8 implies #[trigger] enc64(v)[k] == b[at + k] by {
        if k < 4 {
            assert(enc64(v)[k] == enc32(lo)[k]);
        } else {
            assert(enc64(v)[k] == enc32(hi)[k - 4]);
        }
    }
}

proof fn lemma_enc32_of_le(b: Seq<u8>, at: int)
    ensures
        forall|k: int| 0 <= k < 4 ==> #[trigger] enc32(le32(b, at))[k] == b[at + k],
{
    let lo = le16(b, at);
    let hi = le16(b, at + 2);
    let v = le32(b, at);
    assert(v / 0x1_0000 == hi && v % 0x1_0000 == lo);
    lemma_enc_low(v);
    lemma_enc16_of_le(b, at);
    lemma_enc16_of_le(b, at + 2);
}

proof fn lemma_enc16_of_le(b: Seq<u8>, at: int)
    ensures
        enc16(le16(b, at))[0] == b[at],
        enc16(le16(b, at))[1] == b[at + 1],
{
    let v = le16(b, at);
    assert(v / 0x100 == b[at + 1] && v % 0x100 == b[at]);
}

/// Two adjacent writes are one write.
pub proof fn lemma_splice_join(s: Seq<u8>, at: int, a: Seq<u8>, b: Seq<u8>)
    requires
        0 <= at,
        at + a.len() + b.len() <= s.len(),
    ensures
        splice(splice(s, at, a), at + a.len(), b) == splice(s, at, a + b),
{
    assert(splice(splice(s, at, a), at + a.len(), b) =~= splice(s, at, a + b));
}

/// Changing bytes of a stretch and putting the stretch back changes these bytes.
pub proof fn lemma_splice_within(s: Seq<u8>, start: int, len: int, at: int, part: Seq<u8>)
    requires
        0 <= start,
        start + len <= s.len(),
        0 <= at,
        at + part.len() <= len,
    ensures
        splice(s, start, splice(s.subrange(start, start + len), at, part)) == splice(
            s,
            start + at,
            part,
        ),
{
    assert(splice(s, start, splice(s.subrange(start, start + len), at, part)) =~= splice(
        s,
        start + at,
        part,
    ));
}

/// Reads the 16-bit integer at `at`.
pub fn get_u16(b: &[u8], at: usize) -> (r: u16)
    requires
        at + 2 <= b@.len(),
    ensures
        r == le16(b@, at as int),
{
    b[at] as u16 + 0x100 * (b[at + 1] as u16)
}

/// Reads the 32-bit integer at `at`.
pub fn get_u32(b: &[u8], at: usize) -> (r: u32)
    requires
        at + 4 <= b@.len(),
    ensures
        r == le32(b@, at as int),
{
    let _len: usize = b.len();
    get_u16(b, at) as u32 + 0x1_0000 * (get_u16(b, at + 2) as u32)
}

/// Reads the 64-bit integer at `at`.
pub fn get_u64(b: &[u8], at: usize) -> (r: u64)
    requires
        at + 8 <= b@.len(),
    ensures
        r == le64(b@, at as int),
{
    let _len: usize = b.len();
    get_u32(b, at) as u64 + 0x1_0000_0000 * (get_u32(b, at + 4) as u64)
}

/// Writes a 16-bit integer at `at`.
pub fn put_u16(b: &mut [u8], at: usize, v: u16)
    requires
        at + 2 <= old(b)@.len(),
    ensures
        final(b)@ == splice(old(b)@, at as int, enc16(v as int)),
{
    b[at] = (v % 0x100) as u8;
    b[at + 1] = (v / 0x100) as u8;
    assert(b@ =~= splice(old(b)@, at as int, enc16(v as int)));
}

/// Writes a 32-bit integer at `at`.
pub fn put_u32(b: &mut [u8], at: usize, v: u32)
    requires
        at + 4 <= old(b)@.len(),
    ensures
        final(b)@ == splice(old(b)@, at as int, enc32(v as int)),
{
    let _len: usize = b.len();
    put_u16(b, at, (v % 0x1_0000) as u16);
    put_u16(b, at + 2, (v / 0x1_0000) as u16);
    proof {
        lemma_enc_low(v as int);
        lemma_splice_join(old(b)@, at as int, enc16(v as int), enc16(v as int / 0x1_0000));
    }
}

/// Writes a 64-bit integer at `at`.
pub fn put_u64(b: &mut [u8], at: usize, v: u64)
    requires
        at + 8 <= old(b)@.len(),
    ensures
        final(b)@ == splice(old(b)@, at as int, enc64(v as int)),
{
    let _len: usize = b.len();
    put_u32(b, at, (v % 0x1_0000_0000) as u32);
    put_u32(b, at + 4, (v / 0x1_0000_0000) as u32);
    proof {
        lemma_enc_low(v as int);
        lemma_splice_join(old(b)@, at as int, enc32(v as int), enc32(v as int / 0x1_0000_0000));
    }
}

/// Copies `src` into `dst` from `at` on.
pub fn copy_into(dst: &mut [u8], at: usize, src: &[u8])
    requires
        at + src@.len() <= old(dst)@.len(),
    ensures
        final(dst)@ == splice(old(dst)@, at as int, src@),
{
    let n: usize = src.len();
    let len: usize = dst.len();
    let mut i: usize = 0;
    while i < n
        invariant
            n == src@.len(),
            len == dst@.len(),
            i <= n,
            at + n <= dst@.len(),
            dst@.len() == old(dst)@.len(),
            forall|j: int| 0 <= j < i ==> dst@[at + j] == src@[j],
            forall|j: int|
                0 <= j < dst@.len() && !(at <= j < at + i) ==> dst@[j] == old(dst)@[j],
        decreases n - i,
    {
        dst[at + i] = src[i];
        i += 1;
    }
    proof {
        assert forall|j: int| 0 <= j < dst@.len() implies dst@[j] == splice(
            old(dst)@,
            at as int,
            src@,
        )[j] by {
            if at <= j < at + n {
                assert(dst@[at + (j - at)] == src@[j - at]);
            }
        }
        assert(dst@ =~= splice(old(dst)@, at as int, src@));
    }
}

/// Clears `len` bytes of `dst` from `at` on.
pub fn clear_range(dst: &mut [u8], at: usize, len: usize)
    requires
        at + len <= old(dst)@.len(),
    ensures
        final(dst)@ == splice(old(dst)@, at as int, zeros(len as int)),
{
    let all: usize = dst.len();
    let mut i: usize = 0;
    while i < len
        invariant
            i <= len,
            all == dst@.len(),
            at + len <= dst@.len(),
            dst@.len() == old(dst)@.len(),
            forall|j: int| at <= j < at + i ==> dst@[j] == 0,
            forall|j: int|
                0 <= j < dst@.len() && !(at <= j < at + i) ==> dst@[j] == old(dst)@[j],
        decreases len - i,
    {
        dst[at + i] = 0;
        i += 1;
    }
    assert(dst@ =~= splice(old(dst)@, at as int, zeros(len as int)));
}

/// The bytes of `src` from `from` up to `to`, as a vector of their own.
pub fn to_vec(src: &[u8], from: usize, to: usize) -> (r: Vec<u8>)
    requires
        from <= to <= src@.len(),
    ensures
        r@ == src@.subrange(from as int, to as int),
{
    let mut out: Vec<u8> = Vec::new();
    let mut i: usize = from;
    while i < to
        invariant
            from <= i <= to <= src@.len(),
            out@ == src@.subrange(from as int, i as int),
        decreases to - i,
    {
        out.push(src[i]);
        assert(out@ =~= src@.subrange(from as int, i + 1));
        i += 1;
    }
    out
}

} // verus!
