//! ls: print the names in a directory.
use vstd::prelude::*;
use crate::bytes;
use crate::fs::ext4::block_op;
use crate::fs::ext4::block_op::DirentModel;
use crate::fs::protocol;
use crate::text;

verus! {

/// Operation of the file system server that lists a directory.
pub const OP_GETDENTS: u8 = 7;

/// Bytes of a message.
pub const LS_IPC_MAX: usize = 256;

/// The directory to list: the first argument, or the present one.
pub fn make_dir_path(arg: Option<Vec<u8>>) -> (r: Vec<u8>)
    ensures
        r@ == (match arg {
            Some(a) => a@,
            None => seq![46u8],
        }),
{
    match arg {
        Some(a) => a,
        None => {
            let dot: Vec<u8> = vec![46u8];
            assert(dot@ =~= seq![46u8]);
            dot
        },
    }
}

/// Distance from the dirent at `at` to the next one.
pub open spec fn reclen_at(b: Seq<u8>, at: int) -> int {
    bytes::le16(b, at + 16)
}

/// There is a dirent at `at` that lies inside the buffer.
pub open spec fn has_dirent(b: Seq<u8>, at: int) -> bool {
    at + 19 <= b.len() && reclen_at(b, at) != 0 && at + reclen_at(b, at) <= b.len()
}

/// The name of the dirent at `at`: up to a zero, or to the end of the dirent.
pub open spec fn name_at(b: Seq<u8>, at: int) -> Seq<u8> {
    protocol::until_zero(b.subrange(at + 19, at + reclen_at(b, at)))
}

/// The dirents from `at` on have room for their heads.
pub open spec fn dirents_ok(b: Seq<u8>, at: int) -> bool
    decreases b.len() - at,
{
    has_dirent(b, at) ==> reclen_at(b, at) >= 19 && (0 <= at && dirents_ok(b, at + reclen_at(b, at)))
}

/// The names from `at` on, with two spaces behind each; the directory itself
/// and its parent are left out.
pub open spec fn names_text(b: Seq<u8>, at: int) -> Seq<u8>
    decreases b.len() - at,
{
    if !has_dirent(b, at) || reclen_at(b, at) < 0 {
        seq![]
    } else {
        let name = name_at(b, at);
        let rest = names_text(b, at + reclen_at(b, at));
        if name == seq![46u8] || name == seq![46u8, 46u8] {
            rest
        } else {
            name + seq![32u8, 32u8] + rest
        }
    }
}

/// True when every dirent of the listing has room for its head.
pub fn is_listing(buf: &[u8]) -> (r: bool)
    ensures
        r == dirents_ok(buf@, 0),
{
    let len: usize = buf.len();
    let mut offset: usize = 0;
    loop
        invariant
            len == buf@.len(),
            offset <= len,
            dirents_ok(buf@, 0) == dirents_ok(buf@, offset as int),
        decreases len - offset,
    {
        if len < 19 || offset > len - 19 {
            return true;
        }
        let reclen: usize = bytes::get_u16(buf, offset + 16) as usize;
        if reclen == 0 || reclen > len - offset {
            return true;
        }
        if reclen < 19 {
            return false;
        }
        offset += reclen;
    }
}

/// The name of the dirent at `offset`, and where the next one starts.
pub fn parse_dirent(buf: &[u8], offset: usize) -> (r: Option<(Vec<u8>, usize)>)
    requires
        has_dirent(buf@, offset as int) ==> reclen_at(buf@, offset as int) >= 19,
    ensures
        match r {
            Some(p) => {
                &&& has_dirent(buf@, offset as int)
                &&& p.0@ == name_at(buf@, offset as int)
                &&& p.1 == offset + reclen_at(buf@, offset as int)
            },
            None => !has_dirent(buf@, offset as int),
        },
{
    let len: usize = buf.len();
    if len < 19 || offset > len - 19 {
        return None;
    }
    let reclen: usize = bytes::get_u16(buf, offset + 16) as usize;
    if reclen == 0 || reclen > len - offset {
        return None;
    }
    let part = vstd::slice::slice_subrange(buf, offset + 19, offset + reclen);
    let name = protocol::bytes_until_zero(part, 0);
    assert(part@.skip(0) =~= part@);
    Some((name, offset + reclen))
}

/// What is printed for a listing.
pub fn ls_main(buf: &[u8]) -> (r: Vec<u8>)
    requires
        dirents_ok(buf@, 0),
    ensures
        r@ == names_text(buf@, 0).push(10),
{
    let mut out: Vec<u8> = Vec::new();
    let mut offset: usize = 0;
    let dot: Vec<u8> = vec![46u8];
    let dotdot: Vec<u8> = vec![46u8, 46u8];
    assert(dot@ =~= seq![46u8]);
    assert(dotdot@ =~= seq![46u8, 46u8]);
    assert(out@ + names_text(buf@, 0) =~= names_text(buf@, 0));
    while offset < buf.len()
        invariant_except_break
            dirents_ok(buf@, offset as int),
            names_text(buf@, 0) == out@ + names_text(buf@, offset as int),
        invariant
            dot@ == seq![46u8],
            dotdot@ == seq![46u8, 46u8],
            offset <= buf@.len(),
        ensures
            names_text(buf@, 0) == out@,
        decreases buf@.len() - offset,
    {
        match parse_dirent(buf, offset) {
            Some((name, next)) => {
                let ghost rest = names_text(buf@, next as int);
                let ghost before = out@;
                if !text::same_bytes(name.as_slice(), dot.as_slice()) && !text::same_bytes(
                    name.as_slice(),
                    dotdot.as_slice(),
                ) {
                    let ghost n = name@;
                    let mut copy = name;
                    out.append(&mut copy);
                    out.push(32);
                    out.push(32);
                    assert(out@ =~= before + n + seq![32u8, 32u8]);
                    assert(before + (n + seq![32u8, 32u8] + rest) =~= out@ + rest);
                }
                offset = next;
            },
            None => {
                assert(out@ + Seq::<u8>::empty() =~= out@);
                break ;
            },
        }
    }
    proof {
        if offset >= buf@.len() {
            assert(out@ + Seq::<u8>::empty() =~= out@);
        }
    }
    out.push(10);
    out
}

proof fn lemma_dirent_parts(
    s: Seq<u8>,
    at: int,
    head: Seq<u8>,
    reclen: int,
    ty: u8,
    name: Seq<u8>,
)
    requires
        head.len() == 16,
        0 <= reclen <= u16::MAX,
        bytes::stands_at(s, at, head + bytes::enc16(reclen) + seq![ty] + name),
    ensures
        bytes::le16(s, at + 16) == reclen,
        forall|k: int| 0 <= k < name.len() ==> s[at + 19 + k] == #[trigger] name[k],
{
    let e2 = bytes::enc16(reclen);
    let e3 = seq![ty];
    bytes::lemma_stands_parts(s, at, head + e2 + e3, name);
    bytes::lemma_stands_parts(s, at, head + e2, e3);
    bytes::lemma_stands_parts(s, at, head, e2);
    bytes::lemma_decode(s, at + 16, reclen);
}

/// A name that was put into a listing is the one that is found there.
#[verifier::rlimit(40)]
pub proof fn law_listed_name_is_found(buf: Seq<u8>, at: int, d: DirentModel)
    requires
        0 <= at,
        d.d_reclen == block_op::dirent_len(d.d_name.len() as int),
        d.d_reclen <= u16::MAX,
        at + d.d_reclen <= buf.len(),
        forall|i: int| 0 <= i < d.d_name.len() ==> d.d_name[i] != 0,
    ensures
        ({
            let b = block_op::with_dirent(buf, at, d.d_reclen, d);
            &&& has_dirent(b, at)
            &&& reclen_at(b, at) == d.d_reclen
            &&& name_at(b, at) == d.d_name
        }),
{
    let n = d.d_name.len() as int;
    let head = bytes::enc64(d.d_ino) + bytes::enc64(d.d_off);
    let s = bytes::splice(buf, at, block_op::enc_dirent(d));
    let b = block_op::with_dirent(buf, at, d.d_reclen, d);
    assert(head.len() == 16);
    bytes::lemma_splice_stands(buf, at, block_op::enc_dirent(d));
    lemma_dirent_parts(s, at, head, d.d_reclen, d.d_type, d.d_name);
    assert(19 + n < d.d_reclen);
    assert forall|k: int| 0 <= k < 2 implies b[at + 16 + k] == #[trigger] s[at + 16 + k] by {}
    bytes::lemma_same_int(b, s, at + 16, at + 16, 2);
    let part = b.subrange(at + 19, at + d.d_reclen);
    let rest = b.subrange(at + 19 + n, at + d.d_reclen);
    assert(part =~= d.d_name + rest) by {
        assert forall|k: int| 0 <= k < n implies part[k] == #[trigger] d.d_name[k] by {
            assert(s[at + 19 + k] == d.d_name[k]);
        }
    }
    protocol::lemma_until_zero(d.d_name, rest);
}

/// The listing that holds the names `names`, one record behind the other, from
/// `at` to its end.
pub open spec fn lists(b: Seq<u8>, at: int, names: Seq<Seq<u8>>) -> bool
    decreases names.len(),
{
    if names.len() == 0 {
        at == b.len()
    } else {
        &&& 0 <= at
        &&& has_dirent(b, at)
        &&& reclen_at(b, at) >= 19
        &&& name_at(b, at) == names.first()
        &&& lists(b, at + reclen_at(b, at), names.drop_first())
    }
}

/// "Is printed": the directory itself and its parent are not.
pub open spec fn is_printed() -> spec_fn(Seq<u8>) -> bool {
    |name: Seq<u8>| !(name == seq![46u8]) && !(name == seq![46u8, 46u8])
}

/// Names with two spaces behind each.
pub open spec fn spaced(names: Seq<Seq<u8>>) -> Seq<u8>
    decreases names.len(),
{
    if names.len() == 0 {
        seq![]
    } else {
        spaced(names.drop_last()) + names.last() + seq![32u8, 32u8]
    }
}

proof fn lemma_spaced(name: Seq<u8>, names: Seq<Seq<u8>>)
    ensures
        spaced(seq![name] + names) == name + seq![32u8, 32u8] + spaced(names),
    decreases names.len(),
{
    let all = seq![name] + names;
    if names.len() == 0 {
        assert(all.drop_last() =~= seq![]);
        assert(spaced(all) =~= name + seq![32u8, 32u8] + spaced(names));
    } else {
        assert(all.drop_last() =~= seq![name] + names.drop_last());
        lemma_spaced(name, names.drop_last());
        assert(all.last() == names.last());
        assert(spaced(all) == spaced(all.drop_last()) + names.last() + seq![32u8, 32u8]);
        assert(spaced(all) =~= name + seq![32u8, 32u8] + spaced(names));
    }
}

/// A listing of names is well formed, and all its names are printed in order but
/// for the directory itself and its parent.
pub proof fn law_all_names_are_printed(b: Seq<u8>, at: int, names: Seq<Seq<u8>>)
    requires
        lists(b, at, names),
    ensures
        dirents_ok(b, at),
        names_text(b, at) == spaced(names.filter(is_printed())),
    decreases names.len(),
{
    let kept = names.filter(is_printed());
    if names.len() == 0 {
        reveal(Seq::filter);
        assert(kept =~= seq![]);
    } else {
        let rest = names.drop_first();
        law_all_names_are_printed(b, at + reclen_at(b, at), rest);
        let first = seq![names.first()];
        assert(names =~= first + rest);
        Seq::<Seq<u8>>::filter_distributes_over_add(first, rest, is_printed());
        assert(first.filter(is_printed()) =~= if is_printed()(names.first()) {
            first
        } else {
            seq![]
        }) by {
            reveal(Seq::filter);
            assert(first.drop_last() =~= seq![]);
            assert(first.drop_last().filter(is_printed()) =~= seq![]);
        }
        lemma_spaced(names.first(), rest.filter(is_printed()));
        if !is_printed()(names.first()) {
            assert(kept =~= rest.filter(is_printed()));
        }
    }
}

} // verus!
