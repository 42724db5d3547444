//! How a program is started: the boot information that the kernel passes on,
//! and the stack that the program finds.
use vstd::prelude::*;
use crate::bytes;

verus! {

/// Address at which the boot information is passed.
pub const BOOTINFO_ADDR: u64 = 0x204028;

/// Bytes of the boot information.
pub const BOOTINFO_SIZE: usize = 48;

/// What the kernel tells of the program.
#[derive(Debug, Clone, Copy, PartialEq, Eq, Structural)]
pub struct BootInfo {
    pub program_entry: u64,
    pub stack_top: u64,
    pub brk: u64,
    pub phdr_addr: u64,
    pub phent_size: u64,
    pub phnum: u64,
}

/// The bytes of a word.
#[verifier::opaque]
pub open spec fn word(v: u64) -> Seq<u8> {
    bytes::enc64(v as int)
}

proof fn lemma_word_len(v: u64)
    ensures
        word(v).len() == 8,
{
    reveal(word);
}

/// The bytes of the boot information.
pub open spec fn enc_boot(b: BootInfo) -> Seq<u8> {
    word(b.program_entry) + word(b.stack_top) + word(b.brk) + word(b.phdr_addr) + word(
        b.phent_size,
    ) + word(b.phnum)
}

/// The boot information that bytes hold.
pub open spec fn boot_at(b: Seq<u8>, at: int) -> BootInfo {
    BootInfo {
        program_entry: bytes::le64(b, at) as u64,
        stack_top: bytes::le64(b, at + 8) as u64,
        brk: bytes::le64(b, at + 16) as u64,
        phdr_addr: bytes::le64(b, at + 24) as u64,
        phent_size: bytes::le64(b, at + 32) as u64,
        phnum: bytes::le64(b, at + 40) as u64,
    }
}

fn push_word(v: &mut Vec<u8>, w: u64)
    ensures
        final(v)@ == old(v)@ + word(w),
{
    reveal(word);
    let mut part: Vec<u8> = vec![0u8;8];
    bytes::put_u64(part.as_mut_slice(), 0, w);
    assert(part@ =~= bytes::enc64(w as int));
    v.append(&mut part);
}

impl BootInfo {
    pub fn to_bytes(&self) -> (r: Vec<u8>)
        ensures
            r@ == enc_boot(*self),
    {
        let mut v: Vec<u8> = Vec::new();
        push_word(&mut v, self.program_entry);
        assert(v@ =~= word(self.program_entry));
        push_word(&mut v, self.stack_top);
        push_word(&mut v, self.brk);
        push_word(&mut v, self.phdr_addr);
        push_word(&mut v, self.phent_size);
        push_word(&mut v, self.phnum);
        v
    }

    pub fn from_bytes(b: &[u8]) -> (r: Self)
        requires
            b@.len() >= BOOTINFO_SIZE,
        ensures
            r == boot_at(b@, 0),
    {
        BootInfo {
            program_entry: bytes::get_u64(b, 0),
            stack_top: bytes::get_u64(b, 8),
            brk: bytes::get_u64(b, 16),
            phdr_addr: bytes::get_u64(b, 24),
            phent_size: bytes::get_u64(b, 32),
            phnum: bytes::get_u64(b, 40),
        }
    }
}

proof fn lemma_peel64(b: Seq<u8>, at: int, n: int, pre: Seq<u8>, v: u64)
    requires
        bytes::holds_at(b, at, pre + word(v)),
        pre.len() == n,
    ensures
        bytes::holds_at(b, at, pre),
        bytes::le64(b, at + n) == v,
{
    reveal(bytes::holds_at);
    reveal(word);
    bytes::lemma_stands_parts(b, at, pre, bytes::enc64(v as int));
    bytes::lemma_decode(b, at + n, v as int);
}

proof fn lemma_boot(s: Seq<u8>, b: BootInfo)
    requires
        bytes::holds_at(s, 0, enc_boot(b)),
    ensures
        boot_at(s, 0) == b,
{
    let e0 = word(b.program_entry);
    let e1 = word(b.stack_top);
    let e2 = word(b.brk);
    let e3 = word(b.phdr_addr);
    let e4 = word(b.phent_size);
    lemma_word_len(b.program_entry);
    lemma_word_len(b.stack_top);
    lemma_word_len(b.brk);
    lemma_word_len(b.phdr_addr);
    lemma_word_len(b.phent_size);
    lemma_peel64(s, 0, 40, e0 + e1 + e2 + e3 + e4, b.phnum);
    lemma_peel64(s, 0, 32, e0 + e1 + e2 + e3, b.phent_size);
    lemma_peel64(s, 0, 24, e0 + e1 + e2, b.phdr_addr);
    lemma_peel64(s, 0, 16, e0 + e1, b.brk);
    lemma_peel64(s, 0, 8, e0, b.stack_top);
    assert(Seq::<u8>::empty() + e0 =~= e0);
    lemma_peel64(s, 0, 0, Seq::<u8>::empty(), b.program_entry);
}

/// The program is told what the kernel wrote.
pub proof fn law_boot_info_is_passed_on(b: BootInfo)
    ensures
        boot_at(enc_boot(b), 0) == b,
{
    let s = enc_boot(b);
    assert(bytes::holds_at(s, 0, s)) by {
        reveal(bytes::holds_at);
    }
    lemma_boot(s, b);
}

/// Words that a program finds on its stack.
pub const STACK_WORDS: usize = 16;

/// The words that a program finds on its stack: no arguments, no environment,
/// and the auxiliary vector: the program headers (3, 4 and 5), the page size
/// (6), the entry (9) and its end (0).
pub open spec fn stack_words(b: BootInfo) -> Seq<u64> {
    seq![
        0u64,
        0u64,
        0u64,
        3u64,
        b.phdr_addr,
        4u64,
        b.phent_size,
        5u64,
        b.phnum,
        6u64,
        4096u64,
        9u64,
        b.program_entry,
        0u64,
        0u64,
        0u64,
    ]
}

/// The stack pointer that a program starts with: one page below the top.
pub fn initial_sp(boot: &BootInfo) -> (r: u64)
    requires
        boot.stack_top >= 4096,
    ensures
        r == boot.stack_top - 4096,
{
    boot.stack_top - 4096
}

/// The words that a program finds on its stack.
pub fn initial_stack(boot: &BootInfo) -> (r: Vec<u64>)
    ensures
        r@ == stack_words(*boot),
{
    let v: Vec<u64> = vec![
        0u64,
        0u64,
        0u64,
        3u64,
        boot.phdr_addr,
        4u64,
        boot.phent_size,
        5u64,
        boot.phnum,
        6u64,
        4096u64,
        9u64,
        boot.program_entry,
        0u64,
        0u64,
        0u64,
    ];
    assert(v@ =~= stack_words(*boot));
    v
}

} // verus!
