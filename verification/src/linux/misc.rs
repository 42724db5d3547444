//! Miscellaneous system calls.
use vstd::prelude::*;
use crate::bytes;

verus! {

/// Bytes of the names that uname reports: five of 65 bytes each.
pub const UTSNAME_SIZE: usize = 325;

/// "Linux", with a zero behind it.
pub open spec fn sysname() -> Seq<u8> {
    seq![76u8, 105u8, 110u8, 117u8, 120u8, 0u8]
}

/// "quackos", with a zero behind it.
pub open spec fn nodename() -> Seq<u8> {
    seq![113u8, 117u8, 97u8, 99u8, 107u8, 111u8, 115u8, 0u8]
}

/// "5.0.0", with a zero behind it.
pub open spec fn release() -> Seq<u8> {
    seq![53u8, 46u8, 48u8, 46u8, 48u8, 0u8]
}

/// "aarch64", with a zero behind it.
pub open spec fn machine() -> Seq<u8> {
    seq![97u8, 97u8, 114u8, 99u8, 104u8, 54u8, 52u8, 0u8]
}

/// A buffer after uname: system, node, release and machine are filled in; the
/// version and what stands behind the names stay.
pub open spec fn with_names(b: Seq<u8>) -> Seq<u8> {
    bytes::splice(
        bytes::splice(bytes::splice(bytes::splice(b, 0, sysname()), 65, nodename()), 130, release()),
        260,
        machine(),
    )
}

/// "quackos", with a zero behind it.
pub fn node_name() -> (r: Vec<u8>)
    ensures
        r@ == nodename(),
{
    let r: Vec<u8> = vec![113u8, 117u8, 97u8, 99u8, 107u8, 111u8, 115u8, 0u8];
    assert(r@ =~= nodename());
    r
}

/// uname(buf)
pub fn sys_uname(buf: &mut [u8]) -> (r: u64)
    requires
        old(buf)@.len() >= UTSNAME_SIZE,
    ensures
        r == 0,
        final(buf)@ == with_names(old(buf)@),
{
    let sys: Vec<u8> = vec![76u8, 105u8, 110u8, 117u8, 120u8, 0u8];
    assert(sys@ =~= sysname());
    let rel: Vec<u8> = vec![53u8, 46u8, 48u8, 46u8, 48u8, 0u8];
    assert(rel@ =~= release());
    let mach: Vec<u8> = vec![97u8, 97u8, 114u8, 99u8, 104u8, 54u8, 52u8, 0u8];
    assert(mach@ =~= machine());
    let node = node_name();
    bytes::copy_into(buf, 0, sys.as_slice());
    bytes::copy_into(buf, 65, node.as_slice());
    bytes::copy_into(buf, 130, rel.as_slice());
    bytes::copy_into(buf, 260, mach.as_slice());
    0
}

/// getrandom(buf, len, flags): gives no bytes.
pub fn sys_getrandom(_buf: u64, _len: u64, _flags: u64) -> (r: u64)
    ensures
        r == 0,
{
    0
}

/// getcwd(buf, size): the result, and the bytes to store; the directory is
/// always the root.
pub fn sys_getcwd(buf: u64, size: u64) -> (r: (u64, Vec<u8>))
    ensures
        r.0 == buf,
        r.1@ == (if size > 0 {
            seq![47u8, 0u8]
        } else {
            seq![]
        }),
{
    if size > 0 {
        let b: Vec<u8> = vec![47u8, 0u8];
        assert(b@ =~= seq![47u8, 0u8]);
        (buf, b)
    } else {
        let b: Vec<u8> = Vec::new();
        assert(b@ =~= seq![]);
        (buf, b)
    }
}

/// The text of the name that stands at `at`: one character for each byte, up to a
/// zero.
pub open spec fn name_field(b: Seq<u8>, at: int) -> Seq<char> {
    crate::fs::protocol::until_zero(b.subrange(at, at + 65)).map_values(|x: u8| x as char)
}

proof fn lemma_name_field(b: Seq<u8>, at: int, text: Seq<u8>)
    requires
        0 <= at,
        at + 65 <= b.len(),
        text.len() <= 64,
        forall|i: int| 0 <= i < text.len() ==> text[i] != 0,
        b.subrange(at, at + text.len()) == text,
        b[at + text.len()] == 0,
    ensures
        name_field(b, at) == text.map_values(|x: u8| x as char),
{
    let rest = b.subrange(at + text.len(), at + 65);
    assert(b.subrange(at, at + 65) =~= text + rest) by {
        assert forall|i: int| 0 <= i < text.len() implies b[at + i] == text[i] by {
            assert(b.subrange(at, at + text.len())[i] == text[i]);
        }
    }
    crate::fs::protocol::lemma_until_zero(text, rest);
}

/// The names that uname tells are those of the system, the node, its release and
/// its machine, each in its field; the version stays as it was.
pub proof fn law_names(b: Seq<u8>)
    requires
        b.len() >= UTSNAME_SIZE,
    ensures
        with_names(b).len() == b.len(),
        name_field(with_names(b), 0) == "Linux"@,
        name_field(with_names(b), 65) == "quackos"@,
        name_field(with_names(b), 130) == "5.0.0"@,
        with_names(b).subrange(195, 260) == b.subrange(195, 260),
        name_field(with_names(b), 260) == "aarch64"@,
{
    let n = with_names(b);
    let (s, o, r, m) = (sysname().drop_last(), nodename().drop_last(), release().drop_last(), machine().drop_last());
    assert(n.subrange(0, 5) =~= s);
    assert(n.subrange(65, 72) =~= o);
    assert(n.subrange(130, 135) =~= r);
    assert(n.subrange(260, 267) =~= m);
    lemma_name_field(n, 0, s);
    lemma_name_field(n, 65, o);
    lemma_name_field(n, 130, r);
    lemma_name_field(n, 260, m);
    reveal_strlit("Linux");
    reveal_strlit("quackos");
    reveal_strlit("5.0.0");
    reveal_strlit("aarch64");
    assert(s.map_values(|x: u8| x as char) =~= "Linux"@);
    assert(o.map_values(|x: u8| x as char) =~= "quackos"@);
    assert(r.map_values(|x: u8| x as char) =~= "5.0.0"@);
    assert(m.map_values(|x: u8| x as char) =~= "aarch64"@);
    assert(n.subrange(195, 260) =~= b.subrange(195, 260));
}

} // verus!
