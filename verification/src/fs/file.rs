//! Open files and the descriptor table of a process.
use vstd::prelude::*;
use crate::fs::inode::InodeOp;
use crate::fs::types::{OpenFlags, SeekWhence};
use crate::search;

verus! {

/// An open file: its entry in the directory cache, the position of the next
/// read or write, and how it was opened.
#[derive(Debug, Clone, Copy, PartialEq, Eq, Structural)]
pub struct File {
    pub dentry: usize,
    pub pos: usize,
    pub flags: OpenFlags,
}

/// Number of values of a position.
pub open spec fn positions() -> int {
    usize::MAX + 1
}

/// A position moved by `by`; positions wrap around.
pub open spec fn moved(base: int, by: int) -> usize {
    ((base + by) % positions()) as usize
}

/// Where a seek leads: the start, the present position or the end of the file,
/// moved by the offset.
pub open spec fn sought(pos: usize, size: usize, offset: i64, whence: SeekWhence) -> usize {
    match whence {
        SeekWhence::Start => moved(0, offset as int),
        SeekWhence::Cur => moved(pos as int, offset as int),
        SeekWhence::End => moved(size as int, offset as int),
    }
}

/// A position moved by `by`.
pub fn move_by(base: usize, by: i64) -> (r: usize)
    ensures
        r == moved(base as int, by as int),
{
    let m: i128 = usize::MAX as i128 + 1;
    let t: i128 = base as i128 + by as i128;
    if t >= 0 {
        (t % m) as usize
    } else {
        let n: i128 = -(t + 1);
        proof {
            let q = n as int / (m as int);
            let k = n as int % (m as int);
            vstd::arithmetic::div_mod::lemma_fundamental_div_mod(n as int, m as int);
            vstd::arithmetic::div_mod::lemma_mod_bound(n as int, m as int);
            assert(t == (-q - 1) * m + (m - 1 - k)) by (nonlinear_arith)
                requires
                    n == m * q + k,
                    t == -n - 1,
            ;
            vstd::arithmetic::div_mod::lemma_fundamental_div_mod_converse(
                t as int,
                m as int,
                -q - 1,
                m - 1 - k,
            );
        }
        (m - 1 - n % m) as usize
    }
}

fn advance(base: usize, by: usize) -> (r: usize)
    ensures
        r == moved(base as int, by as int),
{
    let m: u128 = usize::MAX as u128 + 1;
    ((base as u128 + by as u128) % m) as usize
}

impl File {
    #[verifier::allow_in_spec]
    pub fn new(dentry: usize, flags: OpenFlags) -> Self
        returns
            (File { dentry, pos: 0, flags }),
    {
        File { dentry, pos: 0, flags }
    }

    /// The file at another position.
    pub open spec fn at(self, pos: usize) -> File {
        File { pos, ..self }
    }

    /// Read from the present position on, and move behind what was read.  An
    /// entry without an inode gives nothing.
    pub fn read<I: InodeOp>(&mut self, inode: &Option<I>, buf: &mut [u8]) -> (n: usize)
        ensures
            n <= old(buf)@.len(),
            final(buf)@.len() == old(buf)@.len(),
            *final(self) == old(self).at(moved(old(self).pos as int, n as int)),
            match inode {
                Some(i) => i.read_answer(old(self).pos, old(buf)@, final(buf)@, n),
                None => n == 0 && final(buf)@ == old(buf)@,
            },
    {
        match inode {
            Some(i) => {
                let n: usize = i.read(self.pos, buf);
                self.pos = advance(self.pos, n);
                n
            },
            None => {
                proof {
                    vstd::arithmetic::div_mod::lemma_small_mod(
                        self.pos as nat,
                        positions() as nat,
                    );
                }
                0
            },
        }
    }

    /// Write from the present position on, and move behind what was written.
    pub fn write<I: InodeOp>(&mut self, inode: &Option<I>, buf: &[u8]) -> (n: usize)
        ensures
            n <= buf@.len(),
            *final(self) == old(self).at(moved(old(self).pos as int, n as int)),
            match inode {
                Some(i) => i.write_answer(old(self).pos, buf@, n),
                None => n == 0,
            },
    {
        match inode {
            Some(i) => {
                let n: usize = i.write(self.pos, buf);
                self.pos = advance(self.pos, n);
                n
            },
            None => {
                proof {
                    vstd::arithmetic::div_mod::lemma_small_mod(
                        self.pos as nat,
                        positions() as nat,
                    );
                }
                0
            },
        }
    }

    /// Move to another position, and return it.
    pub fn seek<I: InodeOp>(&mut self, inode: &Option<I>, offset: i64, whence: SeekWhence) -> (r:
        usize)
        ensures
            *final(self) == old(self).at(r),
            match inode {
                Some(i) => exists|size: usize| #[trigger]
                    i.size_answer(size) && r == sought(old(self).pos, size, offset, whence),
                None => r == sought(old(self).pos, 0, offset, whence),
            },
    {
        let size: usize = match inode {
            Some(i) => i.get_size(),
            None => 0,
        };
        let r: usize = match whence {
            SeekWhence::Start => move_by(0, offset),
            SeekWhence::Cur => move_by(self.pos, offset),
            SeekWhence::End => move_by(size, offset),
        };
        self.pos = r;
        r
    }

    /// List directory entries from the present position on, and move to where
    /// the listing goes on.  Returns the bytes written and the new position.
    pub fn getdents<I: InodeOp>(&mut self, inode: &Option<I>, buf: &mut [u8]) -> (r: (
        usize,
        usize,
    ))
        ensures
            r.0 <= old(buf)@.len(),
            final(buf)@.len() == old(buf)@.len(),
            match inode {
                Some(i) => i.getdents_answer(old(self).pos, old(buf)@, final(buf)@, r)
                    && *final(self) == old(self).at(r.1),
                None => r == (0usize, 0usize) && final(buf)@ == old(buf)@ && *final(self) == *old(
                    self,
                ),
            },
    {
        match inode {
            Some(i) => {
                let r = i.getdents(self.pos, buf);
                self.pos = r.1;
                r
            },
            None => (0, 0),
        }
    }
}

/// Moving forth and back leads to where one was.
pub proof fn law_seek_back(pos: usize, by: int)
    ensures
        moved(moved(pos as int, by) as int, -by) == pos,
{
    let m = positions();
    let x = pos + by;
    let y = x % m;
    let q = x / m;
    vstd::arithmetic::div_mod::lemma_fundamental_div_mod(x, m);
    vstd::arithmetic::div_mod::lemma_mod_bound(x, m);
    assert(y - by == (-q) * m + pos) by (nonlinear_arith)
        requires
            x == m * q + y,
            x == pos + by,
    ;
    vstd::arithmetic::div_mod::lemma_fundamental_div_mod_converse(y - by, m, -q, pos as int);
}

/// Number of descriptors of a process.
pub const FD_TABLE_SIZE: usize = 256;

/// "Is free", as a predicate on descriptors.
pub open spec fn is_free() -> spec_fn(Option<File>) -> bool {
    |f: Option<File>| f is None
}

/// A table without open files.
pub open spec fn empty_table() -> Seq<Option<File>> {
    Seq::new(256, |i: int| None)
}

/// The file of a descriptor.
pub open spec fn file_at(files: Seq<Option<File>>, fd: int) -> Option<File> {
    if 0 <= fd < files.len() {
        files[fd]
    } else {
        None
    }
}

/// The open files of a process.
pub struct FdTable {
    files: [Option<File>; FD_TABLE_SIZE],
}

impl View for FdTable {
    type V = Seq<Option<File>>;

    closed spec fn view(&self) -> Seq<Option<File>> {
        self.files@
    }
}

impl FdTable {
    pub fn new() -> (r: Self)
        ensures
            r@ == empty_table(),
    {
        let r = FdTable { files: [None;FD_TABLE_SIZE] };
        assert(r@ =~= empty_table());
        r
    }

    /// The same table once more.
    pub fn copy(&self) -> (r: Self)
        ensures
            r@ == self@,
    {
        FdTable { files: self.files }
    }

    /// The size of a table does not change.
    pub proof fn lemma_len(self)
        ensures
            self@.len() == 256,
    {
    }

    /// Open a file under the lowest free descriptor.
    pub fn alloc_fd(&mut self, file: File) -> (r: Option<usize>)
        ensures
            match search::first_index(old(self)@, is_free(), 0) {
                Some(i) => r == Some(i as usize) && final(self)@ == old(self)@.update(
                    i,
                    Some(file),
                ),
                None => r is None && final(self)@ == old(self)@,
            },
    {
        let mut i: usize = 0;
        while i < FD_TABLE_SIZE
            invariant
                i <= FD_TABLE_SIZE,
                *self == *old(self),
                search::first_index(self@, is_free(), 0) == search::first_index(
                    self@,
                    is_free(),
                    i as int,
                ),
            decreases FD_TABLE_SIZE - i,
        {
            if self.files[i].is_none() {
                self.files[i] = Some(file);
                return Some(i);
            }
            i += 1;
        }
        None
    }

    /// The file of a descriptor.
    pub fn get_file(&self, fd: usize) -> (r: Option<File>)
        ensures
            r == file_at(self@, fd as int),
    {
        if fd < FD_TABLE_SIZE {
            self.files[fd]
        } else {
            None
        }
    }

    /// Put back the file of a descriptor that is in use.
    pub fn set_file(&mut self, fd: usize, file: File)
        requires
            file_at(old(self)@, fd as int) is Some,
        ensures
            final(self)@ == old(self)@.update(fd as int, Some(file)),
    {
        self.files[fd] = Some(file);
    }

    /// Close a descriptor.  Returns whether it was in use.
    pub fn close(&mut self, fd: usize) -> (r: bool)
        ensures
            r == file_at(old(self)@, fd as int) is Some,
            final(self)@ == (if r {
                old(self)@.update(fd as int, None)
            } else {
                old(self)@
            }),
    {
        if fd < FD_TABLE_SIZE && self.files[fd].is_some() {
            self.files[fd] = None;
            true
        } else {
            false
        }
    }
}

/// A descriptor that was opened gives the file, and the others stay.
pub proof fn law_opened_descriptor(files: Seq<Option<File>>, file: File, other: int)
    requires
        search::first_index(files, is_free(), 0) is Some,
    ensures
        ({
            let fd = search::first_index(files, is_free(), 0)->0;
            let after = files.update(fd, Some(file));
            &&& file_at(files, fd) is None
            &&& file_at(after, fd) == Some(file)
            &&& other != fd ==> file_at(after, other) == file_at(files, other)
        }),
{
    search::lemma_first_index(files, is_free(), 0);
}

} // verus!
