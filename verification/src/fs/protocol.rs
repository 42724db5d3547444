//! Messages between the file system server and its clients.
//!
//! A request is a byte that says what is to be done, followed by its
//! arguments; integers are little-endian.  A reply begins with 0, or with a
//! negative error number, in 8 bytes.
use vstd::prelude::*;
use crate::bytes;
use crate::fs::types::{Errno, SeekWhence};

verus! {

/// Well-known channel for file system requests.
pub const FS_CHANNEL: u32 = 1;

/// Bytes of a short message.
pub const IPC_MAX: usize = 64;

pub const OP_OPEN: u8 = 1;

pub const OP_READ: u8 = 2;

pub const OP_CLOSE: u8 = 3;

pub const OP_FSTAT: u8 = 4;

pub const OP_LSEEK: u8 = 5;

pub const OP_WRITE: u8 = 6;

/// Most data bytes that a reply carries.
pub const REPLY_DATA: usize = 48;

/// A request.
pub enum FsRequest {
    /// No bytes at all.
    Empty,
    /// Open the file with this path.
    Open { flags: u32, path: Vec<u8> },
    Read { fd: u64, count: u64 },
    Close { fd: u64 },
    Fstat { fd: u64 },
    Lseek { fd: u64, offset: i64, whence: SeekWhence },
    Write { fd: u64, data: Vec<u8> },
    /// Not a known operation.
    Unknown,
}

/// Mathematical content of an `FsRequest`.
pub enum RequestModel {
    Empty,
    Open { flags: u32, path: Seq<u8> },
    Read { fd: int, count: int },
    Close { fd: int },
    Fstat { fd: int },
    Lseek { fd: int, offset: i64, whence: SeekWhence },
    Write { fd: int, data: Seq<u8> },
    Unknown,
}

impl View for FsRequest {
    type V = RequestModel;

    open spec fn view(&self) -> RequestModel {
        match self {
            FsRequest::Empty => RequestModel::Empty,
            FsRequest::Open { flags, path } => RequestModel::Open { flags: *flags, path: path@ },
            FsRequest::Read { fd, count } => RequestModel::Read {
                fd: *fd as int,
                count: *count as int,
            },
            FsRequest::Close { fd } => RequestModel::Close { fd: *fd as int },
            FsRequest::Fstat { fd } => RequestModel::Fstat { fd: *fd as int },
            FsRequest::Lseek { fd, offset, whence } => RequestModel::Lseek {
                fd: *fd as int,
                offset: *offset,
                whence: *whence,
            },
            FsRequest::Write { fd, data } => RequestModel::Write { fd: *fd as int, data: data@ },
            FsRequest::Unknown => RequestModel::Unknown,
        }
    }
}

/// What a reply says.
pub enum FsReply {
    /// To a request of no bytes.
    Nothing,
    /// It was done.
    Done,
    /// It was done, with this result.
    Value(u64),
    /// These bytes were read.
    Data(Vec<u8>),
    /// It failed.
    Failed(Errno),
}

/// Mathematical content of an `FsReply`.
pub enum ReplyModel {
    Nothing,
    Done,
    Value(int),
    Data(Seq<u8>),
    Failed(Errno),
}

impl View for FsReply {
    type V = ReplyModel;

    open spec fn view(&self) -> ReplyModel {
        match self {
            FsReply::Nothing => ReplyModel::Nothing,
            FsReply::Done => ReplyModel::Done,
            FsReply::Value(v) => ReplyModel::Value(*v as int),
            FsReply::Data(d) => ReplyModel::Data(d@),
            FsReply::Failed(e) => ReplyModel::Failed(*e),
        }
    }
}

/// The integer at `at`; 0 when the message ends before it does.
pub open spec fn word_at(b: Seq<u8>, at: int) -> int {
    if at + 8 <= b.len() {
        bytes::le64(b, at)
    } else {
        0
    }
}

/// The signed integer with the same 64 bits.
pub open spec fn signed(v: int) -> int {
    if v >= 0x8000_0000_0000_0000 {
        v - 0x1_0000_0000_0000_0000
    } else {
        v
    }
}

/// The 64 bits of a signed integer, as an unsigned one.
pub open spec fn unsigned(v: int) -> int {
    if v < 0 {
        v + 0x1_0000_0000_0000_0000
    } else {
        v
    }
}

/// The bytes before the first zero.
pub open spec fn until_zero(b: Seq<u8>) -> Seq<u8>
    decreases b.len(),
{
    if b.len() == 0 || b[0] == 0 {
        seq![]
    } else {
        seq![b[0]] + until_zero(b.drop_first())
    }
}

/// What an offset counts from.
pub open spec fn whence_of(b: u8) -> SeekWhence {
    if b == 1 {
        SeekWhence::Cur
    } else if b == 2 {
        SeekWhence::End
    } else {
        SeekWhence::Start
    }
}

/// The byte at `at`; 0 when the message ends before it.
pub open spec fn byte_at(b: Seq<u8>, at: int) -> u8 {
    if at < b.len() {
        b[at]
    } else {
        0
    }
}

/// The data of a write request: what follows its head, at most as many bytes as
/// it says.
pub open spec fn write_data(b: Seq<u8>) -> Seq<u8> {
    let have = if b.len() > 17 {
        b.len() - 17
    } else {
        0
    };
    let n = if word_at(b, 9) < have {
        word_at(b, 9)
    } else {
        have
    };
    if b.len() > 17 {
        b.subrange(17, 17 + n)
    } else {
        seq![]
    }
}

/// What a request asks for.
pub open spec fn decoded(b: Seq<u8>) -> RequestModel {
    if b.len() == 0 {
        RequestModel::Empty
    } else if b[0] == OP_OPEN {
        RequestModel::Open { flags: byte_at(b, 1) as u32, path: until_zero(b.skip(2)) }
    } else if b[0] == OP_READ {
        RequestModel::Read { fd: word_at(b, 1), count: word_at(b, 9) }
    } else if b[0] == OP_CLOSE {
        RequestModel::Close { fd: word_at(b, 1) }
    } else if b[0] == OP_FSTAT {
        RequestModel::Fstat { fd: word_at(b, 1) }
    } else if b[0] == OP_LSEEK {
        RequestModel::Lseek {
            fd: word_at(b, 1),
            offset: signed(word_at(b, 9)) as i64,
            whence: whence_of(byte_at(b, 17)),
        }
    } else if b[0] == OP_WRITE {
        RequestModel::Write { fd: word_at(b, 1), data: write_data(b) }
    } else {
        RequestModel::Unknown
    }
}

/// The bytes of a reply.
pub open spec fn encoded(r: ReplyModel) -> Seq<u8> {
    let blank = bytes::zeros(64);
    match r {
        ReplyModel::Nothing => bytes::zeros(8),
        ReplyModel::Done => blank,
        ReplyModel::Value(v) => bytes::splice(blank, 8, bytes::enc64(v)),
        ReplyModel::Data(d) => bytes::splice(
            bytes::splice(blank, 8, bytes::enc64(d.len() as int)),
            16,
            d,
        ),
        ReplyModel::Failed(e) => bytes::splice(blank, 0, bytes::enc64(unsigned(-e.num()))),
    }
}

fn get_word(b: &[u8], at: usize) -> (r: u64)
    requires
        at <= 64,
    ensures
        r == word_at(b@, at as int),
{
    if b.len() >= at + 8 {
        bytes::get_u64(b, at)
    } else {
        0
    }
}

fn get_byte(b: &[u8], at: usize) -> (r: u8)
    ensures
        r == byte_at(b@, at as int),
{
    if at < b.len() {
        b[at]
    } else {
        0
    }
}

/// The signed integer with the same 64 bits.
pub fn to_signed(v: u64) -> (r: i64)
    ensures
        r == signed(v as int),
{
    if v >= 0x8000_0000_0000_0000 {
        let low: u64 = v - 0x8000_0000_0000_0000;
        low as i64 - 0x7FFF_FFFF_FFFF_FFFF - 1
    } else {
        v as i64
    }
}

/// The 64 bits of a signed integer.
pub fn to_unsigned(v: i64) -> (r: u64)
    ensures
        r == unsigned(v as int),
{
    if v < 0 {
        let up: i64 = v + 0x7FFF_FFFF_FFFF_FFFF + 1;
        up as u64 + 0x8000_0000_0000_0000
    } else {
        v as u64
    }
}

/// The bytes of `b` from `from` on that stand before a zero.
pub fn bytes_until_zero(b: &[u8], from: usize) -> (r: Vec<u8>)
    requires
        from <= b@.len(),
    ensures
        r@ == until_zero(b@.skip(from as int)),
{
    let n: usize = b.len();
    let mut out: Vec<u8> = Vec::new();
    let mut i: usize = from;
    assert(out@ + until_zero(b@.skip(from as int)) =~= until_zero(b@.skip(from as int)));
    while i < n && b[i] != 0
        invariant
            from <= i <= n == b@.len(),
            until_zero(b@.skip(from as int)) == out@ + until_zero(b@.skip(i as int)),
        decreases n - i,
    {
        let ghost before = out@;
        out.push(b[i]);
        proof {
            let rest = b@.skip(i as int);
            assert(rest[0] == b@[i as int]);
            assert(rest.drop_first() =~= b@.skip(i + 1));
            assert(before + (seq![rest[0]] + until_zero(b@.skip(i + 1))) =~= out@ + until_zero(
                b@.skip(i + 1),
            ));
        }
        i += 1;
    }
    assert(until_zero(b@.skip(i as int)) =~= seq![]);
    assert(out@ + Seq::<u8>::empty() =~= out@);
    out
}

/// Take a request apart.
pub fn decode(b: &[u8]) -> (r: FsRequest)
    requires
        b@.len() == 1 ==> b@[0] != OP_OPEN,
    ensures
        r@ == decoded(b@),
{
    if b.len() == 0 {
        return FsRequest::Empty;
    }
    let op: u8 = b[0];
    if op == OP_OPEN {
        FsRequest::Open { flags: get_byte(b, 1) as u32, path: bytes_until_zero(b, 2) }
    } else if op == OP_READ {
        FsRequest::Read { fd: get_word(b, 1), count: get_word(b, 9) }
    } else if op == OP_CLOSE {
        FsRequest::Close { fd: get_word(b, 1) }
    } else if op == OP_FSTAT {
        FsRequest::Fstat { fd: get_word(b, 1) }
    } else if op == OP_LSEEK {
        let w: u8 = get_byte(b, 17);
        FsRequest::Lseek {
            fd: get_word(b, 1),
            offset: to_signed(get_word(b, 9)),
            whence: if w == 1 {
                SeekWhence::Cur
            } else if w == 2 {
                SeekWhence::End
            } else {
                SeekWhence::Start
            },
        }
    } else if op == OP_WRITE {
        let said: u64 = get_word(b, 9);
        let data = if b.len() > 17 {
            let have: usize = b.len() - 17;
            let n: usize = if said < have as u64 {
                said as usize
            } else {
                have
            };
            bytes::to_vec(b, 17, 17 + n)
        } else {
            Vec::new()
        };
        assert(data@ =~= write_data(b@));
        FsRequest::Write { fd: get_word(b, 1), data }
    } else {
        FsRequest::Unknown
    }
}

/// Put a reply together.
pub fn encode(reply: &FsReply) -> (r: Vec<u8>)
    requires
        reply@ is Data ==> reply@->Data_0.len() <= REPLY_DATA,
    ensures
        r@ == encoded(reply@),
{
    let mut out: Vec<u8> = vec![0u8;IPC_MAX];
    assert(out@ =~= bytes::zeros(64));
    match reply {
        FsReply::Nothing => {
            out = vec![0u8;8];
            assert(out@ =~= bytes::zeros(8));
        },
        FsReply::Done => {},
        FsReply::Value(v) => {
            bytes::put_u64(out.as_mut_slice(), 8, *v);
        },
        FsReply::Data(d) => {
            bytes::put_u64(out.as_mut_slice(), 8, d.len() as u64);
            bytes::copy_into(out.as_mut_slice(), 16, d.as_slice());
        },
        FsReply::Failed(e) => {
            let code: i64 = e.code();
            bytes::put_u64(out.as_mut_slice(), 0, to_unsigned(-code));
        },
    }
    out
}

// ---------------------------------------------------------------------------
// Short messages: eight words
// ---------------------------------------------------------------------------

/// How many of `n` bytes fit into a short message.
pub open spec fn short_len(n: int) -> int {
    if n < 64 {
        n
    } else {
        64
    }
}

/// The bytes of a short message, with zeros behind them.
pub open spec fn padded(data: Seq<u8>) -> Seq<u8> {
    bytes::splice(bytes::zeros(64), 0, data.take(short_len(data.len() as int)))
}

/// The words of a short message.
pub open spec fn packed(data: Seq<u8>) -> Seq<u64> {
    Seq::new(8, |i: int| bytes::le64(padded(data), 8 * i) as u64)
}

/// The first `n` bytes of the words of a short message.
pub open spec fn unpacked(words: Seq<u64>, n: int) -> Seq<u8> {
    Seq::new(short_len(n) as nat, |k: int| bytes::enc64(words[k / 8] as int)[k % 8])
}

/// What is put into words is what is taken out of them.
pub proof fn law_words_carry_bytes(data: Seq<u8>)
    ensures
        unpacked(packed(data), data.len() as int) == data.take(short_len(data.len() as int)),
{
    let n = short_len(data.len() as int);
    let p = padded(data);
    assert forall|k: int| 0 <= k < n implies unpacked(packed(data), data.len() as int)[k]
        == #[trigger] data.take(n)[k] by {
        let i = k / 8;
        bytes::lemma_le_bounds(p, 8 * i);
        bytes::lemma_enc_of_le(p, 8 * i);
        assert(p[8 * i + k % 8] == bytes::enc64(bytes::le64(p, 8 * i))[k % 8]);
        assert(8 * i + k % 8 == k);
    }
    assert(unpacked(packed(data), data.len() as int) =~= data.take(n));
}

/// Put bytes into the words of a short message; those that do not fit are left
/// out.
pub fn pack_words(data: &[u8]) -> (r: ([u64; 8], u8))
    ensures
        r.0@ == packed(data@),
        r.1 == short_len(data@.len() as int),
{
    let n: usize = if data.len() < IPC_MAX {
        data.len()
    } else {
        IPC_MAX
    };
    let part = vstd::slice::slice_subrange(data, 0, n);
    assert(part@ =~= data@.take(n as int));
    let mut buf: [u8; 64] = [0u8;64];
    assert(buf@ =~= bytes::zeros(64));
    bytes::copy_into(&mut buf, 0, part);
    let mut words: [u64; 8] = [0u64;8];
    let mut i: usize = 0;
    while i < 8
        invariant
            i <= 8,
            buf@ == padded(data@),
            forall|k: int| 0 <= k < i ==> words@[k] == bytes::le64(buf@, 8 * k),
        decreases 8 - i,
    {
        words[i] = bytes::get_u64(&buf, 8 * i);
        i += 1;
    }
    assert(words@ =~= packed(data@));
    (words, n as u8)
}

/// Take bytes out of the words of a short message.
pub fn unpack_words(words: &[u64; 8], len: u8) -> (r: Vec<u8>)
    ensures
        r@ == unpacked(words@, len as int),
{
    let n: usize = if len < 64 {
        len as usize
    } else {
        64
    };
    let mut buf: [u8; 64] = [0u8;64];
    let mut i: usize = 0;
    while i < 8
        invariant
            i <= 8,
            forall|k: int| 0 <= k < 8 * i ==> #[trigger] buf@[k] == bytes::enc64(
                words@[k / 8] as int,
            )[k % 8],
        decreases 8 - i,
    {
        bytes::put_u64(&mut buf, 8 * i, words[i]);
        i += 1;
    }
    let r = bytes::to_vec(&buf, 0, n);
    assert(r@ =~= unpacked(words@, len as int));
    r
}

// ---------------------------------------------------------------------------
// What clients send
// ---------------------------------------------------------------------------

/// How many of `n` bytes fit behind a head of `head` bytes.
pub open spec fn fitting(n: int, head: int, size: int) -> int {
    if n < size - head {
        n
    } else {
        size - head
    }
}

/// A message of `size` bytes that begins with an operation.
pub open spec fn op_message(op: u8, size: int) -> Seq<u8> {
    bytes::zeros(size).update(0, op)
}

/// A request to open a file for reading.
pub open spec fn open_message(path: Seq<u8>, size: int) -> Seq<u8> {
    bytes::splice(
        op_message(OP_OPEN, size),
        2,
        path.take(fitting(path.len() as int, 2, size)),
    )
}

/// A request on an open file.
pub open spec fn file_message(op: u8, fid: int, size: int) -> Seq<u8> {
    bytes::splice(op_message(op, size), 1, bytes::enc64(fid))
}

/// A request on an open file with an integer.
pub open spec fn count_message(op: u8, fid: int, count: int, size: int) -> Seq<u8> {
    bytes::splice(file_message(op, fid, size), 9, bytes::enc64(count))
}

/// A request to write.
pub open spec fn write_message(fid: int, data: Seq<u8>) -> Seq<u8> {
    let n = fitting(data.len() as int, 17, 64);
    bytes::splice(count_message(OP_WRITE, fid, n, 64), 17, data.take(n))
}

/// A request to move within a file.
pub open spec fn lseek_message(fid: int, offset: int, whence: u8) -> Seq<u8> {
    count_message(OP_LSEEK, fid, unsigned(offset), 64).update(17, whence)
}

fn blank_message(op: u8, size: usize) -> (r: Vec<u8>)
    requires
        size > 0,
    ensures
        r@ == op_message(op, size as int),
{
    let mut m: Vec<u8> = vec![0u8;size];
    m.set(0, op);
    assert(m@ =~= op_message(op, size as int));
    m
}

/// A request to open a file for reading; a path that does not fit is cut.
pub fn encode_open(path: &[u8], size: usize) -> (r: Vec<u8>)
    requires
        size >= 2,
    ensures
        r@ == open_message(path@, size as int),
{
    let mut m = blank_message(OP_OPEN, size);
    let n: usize = if path.len() < size - 2 {
        path.len()
    } else {
        size - 2
    };
    let part = vstd::slice::slice_subrange(path, 0, n);
    assert(part@ =~= path@.take(n as int));
    bytes::copy_into(m.as_mut_slice(), 2, part);
    m
}

/// A request on an open file.
pub fn encode_file_op(op: u8, fid: u64, size: usize) -> (r: Vec<u8>)
    requires
        size >= 9,
    ensures
        r@ == file_message(op, fid as int, size as int),
{
    let mut m = blank_message(op, size);
    bytes::put_u64(m.as_mut_slice(), 1, fid);
    m
}

/// A request on an open file with an integer.
pub fn encode_count_op(op: u8, fid: u64, count: u64, size: usize) -> (r: Vec<u8>)
    requires
        size >= 17,
    ensures
        r@ == count_message(op, fid as int, count as int, size as int),
{
    let mut m = encode_file_op(op, fid, size);
    bytes::put_u64(m.as_mut_slice(), 9, count);
    m
}

/// A request to write; data that does not fit is left out.
pub fn encode_write(fid: u64, data: &[u8]) -> (r: Vec<u8>)
    ensures
        r@ == write_message(fid as int, data@),
{
    let n: usize = if data.len() < IPC_MAX - 17 {
        data.len()
    } else {
        IPC_MAX - 17
    };
    let mut m = encode_count_op(OP_WRITE, fid, n as u64, IPC_MAX);
    let part = vstd::slice::slice_subrange(data, 0, n);
    assert(part@ =~= data@.take(n as int));
    bytes::copy_into(m.as_mut_slice(), 17, part);
    m
}

/// A request to move within a file.
pub fn encode_lseek(fid: u64, offset: i64, whence: u8) -> (r: Vec<u8>)
    ensures
        r@ == lseek_message(fid as int, offset as int, whence),
{
    let mut m = encode_count_op(OP_LSEEK, fid, to_unsigned(offset), IPC_MAX);
    m.set(17, whence);
    m
}

proof fn lemma_file_message(op: u8, fid: int, size: int)
    requires
        size >= 9,
        0 <= fid <= u64::MAX,
    ensures
        file_message(op, fid, size).len() == size,
        file_message(op, fid, size)[0] == op,
        word_at(file_message(op, fid, size), 1) == fid,
{
    let m = op_message(op, size);
    bytes::law_read_back(m, 1, fid);
}

proof fn lemma_count_message(op: u8, fid: int, count: int, size: int)
    requires
        size >= 17,
        0 <= fid <= u64::MAX,
        0 <= count <= u64::MAX,
    ensures
        count_message(op, fid, count, size).len() == size,
        count_message(op, fid, count, size)[0] == op,
        word_at(count_message(op, fid, count, size), 1) == fid,
        word_at(count_message(op, fid, count, size), 9) == count,
{
    let m = file_message(op, fid, size);
    let c = count_message(op, fid, count, size);
    lemma_file_message(op, fid, size);
    bytes::law_read_back(m, 9, count);
    assert forall|k: int| 0 <= k < 8 implies c[1 + k] == #[trigger] m[1 + k] by {}
    bytes::lemma_same_int(c, m, 1, 1, 8);
}

/// The server reads from a request on an open file what the client put into it.
pub proof fn law_file_requests_are_understood(fid: int, count: int, size: int)
    requires
        size >= 17,
        0 <= fid <= u64::MAX,
        0 <= count <= u64::MAX,
    ensures
        decoded(file_message(OP_CLOSE, fid, size)) == (RequestModel::Close { fd: fid }),
        decoded(file_message(OP_FSTAT, fid, size)) == (RequestModel::Fstat { fd: fid }),
        decoded(count_message(OP_READ, fid, count, size)) == (RequestModel::Read {
            fd: fid,
            count,
        }),
{
    lemma_file_message(OP_CLOSE, fid, size);
    lemma_file_message(OP_FSTAT, fid, size);
    lemma_count_message(OP_READ, fid, count, size);
}

/// The server reads from a request to move what the client put into it.
pub proof fn law_lseek_request_is_understood(fid: int, offset: i64, whence: u8)
    requires
        0 <= fid <= u64::MAX,
    ensures
        decoded(lseek_message(fid, offset as int, whence)) == (RequestModel::Lseek {
            fd: fid,
            offset,
            whence: whence_of(whence),
        }),
{
    let c = count_message(OP_LSEEK, fid, unsigned(offset as int), 64);
    let m = lseek_message(fid, offset as int, whence);
    lemma_count_message(OP_LSEEK, fid, unsigned(offset as int), 64);
    assert forall|k: int| 0 <= k < 8 implies m[1 + k] == #[trigger] c[1 + k] by {}
    bytes::lemma_same_int(m, c, 1, 1, 8);
    assert forall|k: int| 0 <= k < 8 implies m[9 + k] == #[trigger] c[9 + k] by {}
    bytes::lemma_same_int(m, c, 9, 9, 8);
}

/// The server is given the data to write that fits into a message.
pub proof fn law_write_request_is_understood(fid: int, data: Seq<u8>)
    requires
        0 <= fid <= u64::MAX,
    ensures
        decoded(write_message(fid, data)) == (RequestModel::Write {
            fd: fid,
            data: data.take(fitting(data.len() as int, 17, 64)),
        }),
{
    let n = fitting(data.len() as int, 17, 64);
    let c = count_message(OP_WRITE, fid, n, 64);
    let m = write_message(fid, data);
    lemma_count_message(OP_WRITE, fid, n, 64);
    assert forall|k: int| 0 <= k < 8 implies m[1 + k] == #[trigger] c[1 + k] by {}
    bytes::lemma_same_int(m, c, 1, 1, 8);
    assert forall|k: int| 0 <= k < 8 implies m[9 + k] == #[trigger] c[9 + k] by {}
    bytes::lemma_same_int(m, c, 9, 9, 8);
    assert(write_data(m) =~= data.take(n));
}

/// The server is given the path that the client asked for: without zero bytes,
/// and as far as it fits into a message.
pub proof fn law_open_request_is_understood(path: Seq<u8>, size: int)
    requires
        size >= 2,
        forall|i: int| 0 <= i < path.len() ==> path[i] != 0,
    ensures
        decoded(open_message(path, size)) == (RequestModel::Open {
            flags: 0,
            path: path.take(fitting(path.len() as int, 2, size)),
        }),
{
    let n = fitting(path.len() as int, 2, size);
    let m = open_message(path, size);
    let p = path.take(n);
    assert(m[0] == OP_OPEN && m[1] == 0);
    assert(m.skip(2) =~= p + bytes::zeros(size - 2 - n));
    lemma_until_zero(p, bytes::zeros(size - 2 - n));
}

/// Bytes that are not zero, followed by zeros or the end.
pub proof fn lemma_until_zero(p: Seq<u8>, rest: Seq<u8>)
    requires
        forall|i: int| 0 <= i < p.len() ==> p[i] != 0,
        rest.len() > 0 ==> rest[0] == 0,
    ensures
        until_zero(p + rest) == p,
    decreases p.len(),
{
    if p.len() == 0 {
        assert(p + rest =~= rest);
        assert(p =~= seq![]);
    } else {
        assert((p + rest).drop_first() =~= p.drop_first() + rest);
        lemma_until_zero(p.drop_first(), rest);
        assert(seq![p[0]] + p.drop_first() =~= p);
    }
}

// ---------------------------------------------------------------------------
// What clients make of a reply
// ---------------------------------------------------------------------------

/// A number with the opposite sign; the least one has none and stays.
pub open spec fn negated(v: int) -> int {
    if v == i64::MIN {
        v
    } else {
        -v
    }
}

/// What a reply comes to: an error, or the integer in it.  `ret` is what the
/// exchange itself returned.
pub open spec fn reply_value(ret: int, reply: Seq<u8>) -> Result<int, int> {
    let status = signed(bytes::le64(reply, 0));
    if ret < 0 {
        Err(negated(ret))
    } else if status < 0 {
        Err(negated(status))
    } else {
        Ok(bytes::le64(reply, 8))
    }
}

/// What a reply to a request to open comes to: any status but 0 is an error.
pub open spec fn open_value(ret: int, reply: Seq<u8>) -> Result<int, int> {
    if ret < 0 {
        Err(negated(ret))
    } else if bytes::le64(reply, 0) == 0 {
        Ok(bytes::le64(reply, 8))
    } else {
        Err(negated(signed(bytes::le64(reply, 0))))
    }
}

fn negate(v: i64) -> (r: i64)
    ensures
        r == negated(v as int),
{
    if v == i64::MIN {
        v
    } else {
        -v
    }
}

/// What a reply comes to.
pub fn finish(ret: i64, reply: &[u8]) -> (r: Result<u64, i64>)
    requires
        reply@.len() >= 16,
    ensures
        same_value(r, reply_value(ret as int, reply@)),
{
    if ret < 0 {
        return Err(negate(ret));
    }
    let status: i64 = to_signed(bytes::get_u64(reply, 0));
    if status < 0 {
        return Err(negate(status));
    }
    Ok(bytes::get_u64(reply, 8))
}

/// What a reply to a request to open comes to.
pub fn finish_open(ret: i64, reply: &[u8]) -> (r: Result<u64, i64>)
    requires
        reply@.len() >= 16,
    ensures
        same_value(r, open_value(ret as int, reply@)),
{
    if ret < 0 {
        return Err(negate(ret));
    }
    let status: u64 = bytes::get_u64(reply, 0);
    if status == 0 {
        Ok(bytes::get_u64(reply, 8))
    } else {
        Err(negate(to_signed(status)))
    }
}

/// An executable result says the same as its model.
pub open spec fn same_value(r: Result<u64, i64>, m: Result<int, int>) -> bool {
    match m {
        Ok(v) => r is Ok && r->Ok_0 == v,
        Err(e) => r is Err && r->Err_0 == e,
    }
}

/// How many bytes of a reply go into a buffer of `len` bytes.
pub open spec fn copied(n: int, len: int) -> int {
    if n < len {
        n
    } else {
        len
    }
}

/// Take the data of a reply.  Returns how many bytes the reply says it has; no
/// more than the buffer holds are copied.
pub fn finish_read(ret: i64, reply: &[u8], buf: &mut [u8]) -> (r: Result<u64, i64>)
    requires
        reply@.len() >= 16,
        reply_value(ret as int, reply@) is Ok ==> 16 + copied(
            bytes::le64(reply@, 8),
            old(buf)@.len() as int,
        ) <= reply@.len(),
    ensures
        same_value(r, reply_value(ret as int, reply@)),
        final(buf)@ == (match reply_value(ret as int, reply@) {
            Ok(n) => bytes::splice(
                old(buf)@,
                0,
                reply@.subrange(16, 16 + copied(n, old(buf)@.len() as int)),
            ),
            Err(_) => old(buf)@,
        }),
{
    let r = finish(ret, reply);
    match r {
        Ok(n) => {
            let copy: usize = if n < buf.len() as u64 {
                n as usize
            } else {
                buf.len()
            };
            let _len: usize = reply.len();
            let part = vstd::slice::slice_subrange(reply, 16, 16 + copy);
            bytes::copy_into(buf, 0, part);
        },
        Err(_) => {},
    }
    r
}

/// A client makes of a reply what the server put into it.
pub proof fn law_replies_are_understood(r: ReplyModel)
    requires
        !(r is Nothing),
        r is Value ==> 0 <= r->Value_0 <= u64::MAX,
        r is Data ==> r->Data_0.len() <= 48,
    ensures
        match r {
            ReplyModel::Failed(e) => reply_value(0, encoded(r)) == Err::<int, int>(e.num())
                && open_value(0, encoded(r)) == Err::<int, int>(e.num()),
            ReplyModel::Value(v) => reply_value(0, encoded(r)) == Ok::<int, int>(v) && open_value(
                0,
                encoded(r),
            ) == Ok::<int, int>(v),
            ReplyModel::Data(d) => reply_value(0, encoded(r)) == Ok::<int, int>(d.len() as int)
                && encoded(r).subrange(16, 16 + d.len() as int) == d,
            _ => reply_value(0, encoded(r)) == Ok::<int, int>(0),
        },
{
    let blank = bytes::zeros(64);
    let m = encoded(r);
    match r {
        ReplyModel::Failed(e) => {
            bytes::law_read_back(blank, 0, unsigned(-e.num()));
        },
        ReplyModel::Value(v) => {
            bytes::law_read_back(blank, 8, v);
        },
        ReplyModel::Data(d) => {
            let one = bytes::splice(blank, 8, bytes::enc64(d.len() as int));
            bytes::law_read_back(blank, 8, d.len() as int);
            assert forall|k: int| 0 <= k < 8 implies m[8 + k] == #[trigger] one[8 + k] by {}
            bytes::lemma_same_int(m, one, 8, 8, 8);
            assert(m.subrange(16, 16 + d.len() as int) =~= d);
        },
        _ => {},
    }
}

} // verus!
