use quackos::linux::console::{
    console_ioctl, deliver_line, echo_raw, set_termios, translate_raw, IoctlStep, LineEditor,
    LineEvent, TCGETS, TCSETS, TIOCGPGRP, TIOCGWINSZ,
};
use quackos::linux::errno::{failure, EBADF, EINVAL, EIO, EMFILE, ENOENT, ENOEXEC, ENOMEM, ENOSYS, ENOTTY};
use quackos::linux::fd_table::{FdKind, FdTable};
use quackos::linux::fs::{
    finish_console_write, finish_file, finish_fstat, finish_openat, sys_close, sys_dup, sys_fcntl,
    sys_fstat, sys_ioctl, sys_lseek, sys_openat, sys_read, sys_write, sys_writev, ReadStep,
    SeekStep, StatStep, WriteStep,
};
use quackos::linux::futex::sys_futex;
use quackos::linux::misc::{sys_getcwd, sys_getrandom, sys_uname};
use quackos::linux::mm::{
    finish_brk, finish_mmap, finish_mprotect, sys_brk, sys_mmap, sys_munmap, MmapStep, PageRange,
};
use quackos::linux::proc::{
    exec_boot, exec_map_failed, exec_read_more, finish_execve, plan_exec_buffer, sys_clone, sys_execve, sys_exit, sys_prctl,
    sys_set_tid_address, sys_wait4, WaitStep,
};
use quackos::linux::start::{initial_sp, initial_stack, BootInfo};
use quackos::linux::syscall::{dispatch, linux_syscall_handler, Call};
use quackos::linux::task::{BrkStep, TaskStruct};
use quackos::linux::time::{sys_clock_gettime, sys_gettimeofday};
use quackos::user::echo::echo_main;
use quackos::user::ls::{make_dir_path, parse_dirent};

fn task() -> TaskStruct {
    TaskStruct::new(0x10_0000)
}

#[test]
fn failures_are_negative() {
    assert_eq!(failure(9) as i64, -9);
    assert_eq!(finish_file(Err(2)) as i64, -2);
    assert_eq!(finish_file(Ok(7)), 7);
    assert_eq!(finish_file(Err(i64::MIN)), 0x8000_0000_0000_0000);
}

#[test]
fn writes_go_to_console_or_file() {
    let mut t = task();
    assert_eq!(sys_write(&t, 0, 5), WriteStep::Done(failure(EBADF)));
    assert_eq!(sys_write(&t, 1, 5000), WriteStep::Console { len: 4096 });
    assert_eq!(sys_write(&t, 3, 5), WriteStep::Done(failure(EBADF)));
    assert_eq!(finish_openat(&mut t, Ok(77), 0), (3, None));
    assert_eq!(sys_write(&t, 3, 5), WriteStep::File { fid: 77, len: 5 });
    assert_eq!(finish_console_write(-1), failure(EIO));
    assert_eq!(finish_console_write(4), 4);
    assert_eq!(sys_writev(10, 4), Ok(14));
    assert_eq!(sys_writev(10, failure(EIO)), Err(failure(EIO)));
}

#[test]
fn reads_deliver_lines() {
    let mut t = task();
    assert!(matches!(sys_read(&mut t, 0, 0), ReadStep::Done(0)));
    assert!(matches!(sys_read(&mut t, 0, 4), ReadStep::Line));
    assert_eq!(deliver_line(&mut t, b"hello\n", 2), b"he");
    match sys_read(&mut t, 0, 3) {
        ReadStep::Deliver(b) => assert_eq!(b, b"llo"),
        _ => panic!("no rest"),
    }
    match sys_read(&mut t, 0, 3) {
        ReadStep::Deliver(b) => assert_eq!(b, b"\n"),
        _ => panic!("no rest"),
    }
    assert!(matches!(sys_read(&mut t, 0, 3), ReadStep::Line));
    let mut raw = t.termios;
    raw[12] = 0x09;
    set_termios(&mut t, raw);
    assert!(matches!(sys_read(&mut t, 0, 9000), ReadStep::Raw { len: 4096 }));
    match sys_read(&mut t, 9, 1) {
        ReadStep::Done(r) => assert_eq!(r, failure(EBADF)),
        _ => panic!("not refused"),
    }
    finish_openat(&mut t, Ok(5), 0);
    assert!(matches!(sys_read(&mut t, 3, 10), ReadStep::File { fid: 5, len: 10 }));
}

#[test]
fn lines_are_edited() {
    let mut e = LineEditor::new();
    assert_eq!(e.feed(b'a', true), (LineEvent::More, vec![b'a']));
    assert_eq!(e.feed(b'b', true), (LineEvent::More, vec![b'b']));
    assert_eq!(e.feed(0x7F, true), (LineEvent::More, vec![8, 32, 8]));
    assert_eq!(e.feed(8, true), (LineEvent::More, vec![8, 32, 8]));
    assert_eq!(e.feed(8, true), (LineEvent::More, vec![]));
    assert_eq!(e.feed(4, true), (LineEvent::Eof, vec![]));
    assert_eq!(e.feed(b'c', true), (LineEvent::More, vec![b'c']));
    assert_eq!(e.feed(13, true), (LineEvent::Complete, vec![10]));
    assert_eq!(e.into_line(), b"c\n");
    let mut f = LineEditor::new();
    assert_eq!(f.feed(13, false), (LineEvent::More, vec![13]));
    assert_eq!(f.feed(4, false), (LineEvent::Complete, vec![]));
    let mut g = LineEditor::new();
    for _ in 0..4095 {
        g.feed(b'x', true);
    }
    assert_eq!(g.feed(b'y', true), (LineEvent::More, vec![]));
    assert_eq!(g.feed(10, true), (LineEvent::Complete, vec![10]));
    assert_eq!(g.into_line().len(), 4096);
}

#[test]
fn raw_input_is_translated_and_echoed() {
    assert_eq!(translate_raw(b"a\rb", true), b"a\nb");
    assert_eq!(translate_raw(b"a\rb", false), b"a\rb");
    assert_eq!(echo_raw(b"a\x7fb"), b"a\x08 \x08b");
}

#[test]
fn console_settings() {
    let t = task();
    match console_ioctl(&t, TCGETS, 1) {
        IoctlStep::Store(b) => {
            assert_eq!(b.len(), 36);
            assert_eq!(&b[12..14], &[0x3B, 0x8A]);
        }
        _ => panic!("no settings"),
    }
    assert!(matches!(console_ioctl(&t, TCSETS, 1), IoctlStep::LoadSettings));
    assert!(matches!(console_ioctl(&t, TCSETS, 0), IoctlStep::Done(0)));
    match console_ioctl(&t, TIOCGWINSZ, 1) {
        IoctlStep::Store(b) => assert_eq!(b, vec![24, 0, 80, 0, 0, 0, 0, 0]),
        _ => panic!("no size"),
    }
    match console_ioctl(&t, TIOCGPGRP, 1) {
        IoctlStep::Store(b) => assert_eq!(b, vec![1, 0, 0, 0]),
        _ => panic!("no group"),
    }
    assert!(matches!(console_ioctl(&t, 1, 1), IoctlStep::Done(25)));
    match sys_ioctl(&t, 7, TCGETS, 1) {
        IoctlStep::Done(r) => assert_eq!(r, failure(ENOTTY)),
        _ => panic!("not refused"),
    }
}

#[test]
fn paths_of_programs() {
    assert_eq!(sys_openat(b"/etc\0junk"), b"/etc");
    assert_eq!(sys_openat(&[0xFF, 0]), b"/");
    assert_eq!(sys_openat(&[b'a'; 300]).len(), 256);
    assert_eq!(sys_execve(b"/bin/ls\0"), Ok(b"/bin/ls".to_vec()));
    assert_eq!(sys_execve(b"\0"), Err(failure(ENOENT)));
}

#[test]
fn descriptors_are_opened_and_closed() {
    let mut t = task();
    assert_eq!(finish_openat(&mut t, Err(2), 0), (failure(ENOENT), None));
    for i in 3..256 {
        assert_eq!(finish_openat(&mut t, Ok(i), 0), (i, None));
    }
    assert_eq!(finish_openat(&mut t, Ok(999), 0), (failure(EMFILE), Some(999)));
    assert_eq!(sys_close(&mut t, 5), (0, Some(5)));
    assert_eq!(sys_close(&mut t, 5), (failure(EBADF), None));
    assert_eq!(sys_close(&mut t, 0), (0, None));
    assert_eq!(sys_dup(&t, 1), 1);
    assert_eq!(sys_dup(&t, 5), failure(EBADF));
    let mut table = FdTable::new();
    assert_eq!(table.alloc_kind(FdKind::PipeRead(1), 0), Some(3));
    assert_eq!(table.get_fid(3), None);
    assert!(table.close(3));
    assert!(!table.close(3));
}

#[test]
fn fcntl_duplicates() {
    let mut t = task();
    finish_openat(&mut t, Ok(50), 0);
    assert_eq!(sys_fcntl(&mut t, 3, 0, 10), 10);
    // The entry goes to the lowest free descriptor.
    assert_eq!(t.fd_table.get_fid(4), Some(50));
    assert_eq!(t.fd_table.get(10), None);
    assert_eq!(sys_fcntl(&mut t, 9, 0, 0), failure(EBADF));
    assert_eq!(sys_fcntl(&mut t, 3, 0, 256), failure(EMFILE));
    assert_eq!(sys_fcntl(&mut t, 3, 3, 0), 0);
    assert_eq!(sys_fcntl(&mut t, 99, 3, 0), failure(EBADF));
    assert_eq!(sys_fcntl(&mut t, 3, 2, 1), 0);
    assert_eq!(sys_fcntl(&mut t, 3, 77, 0), failure(EINVAL));
}

#[test]
fn metadata_and_positions() {
    let mut t = task();
    match sys_fstat(&t, 1) {
        StatStep::Store(b) => {
            assert_eq!(b.len(), 128);
            assert_eq!(&b[16..20], &(0x2000u32 | 0o620).to_le_bytes());
            assert_eq!(&b[32..40], &0x501u64.to_le_bytes());
        }
        _ => panic!("no metadata"),
    }
    finish_openat(&mut t, Ok(8), 0);
    assert!(matches!(sys_fstat(&t, 3), StatStep::File { fid: 8 }));
    match finish_fstat(Ok(1234)) {
        StatStep::Store(b) => {
            assert_eq!(&b[16..20], &(0x8000u32 | 0o644).to_le_bytes());
            assert_eq!(&b[48..56], &1234u64.to_le_bytes());
            assert_eq!(&b[56..60], &4096u32.to_le_bytes());
        }
        _ => panic!("no metadata"),
    }
    assert_eq!(sys_lseek(&t, 3, -4, 258), SeekStep::File { fid: 8, offset: -4, whence: 2 });
    assert_eq!(sys_lseek(&t, 1, 0, 0), SeekStep::Done(failure(EBADF)));
}

#[test]
fn break_grows_and_shrinks() {
    let mut t = task();
    assert_eq!(sys_brk(&t, 0), BrkStep::Done(0x10_0000));
    assert_eq!(sys_brk(&t, 5), BrkStep::Done(0x10_0000));
    let step = sys_brk(&t, 0x10_1001);
    assert_eq!(step, BrkStep::MapPages { start: 0x10_0000, end: 0x10_2000, brk: 0x10_1001 });
    assert_eq!(finish_brk(&mut t, step, Some(-12)), 0x10_0000);
    assert_eq!(t.brk, 0x10_0000);
    assert_eq!(finish_brk(&mut t, step, None), 0x10_1001);
    let back = sys_brk(&t, 0x10_0800);
    assert_eq!(back, BrkStep::UnmapPages { start: 0x10_1000, end: 0x10_2000, brk: 0x10_0800 });
    assert_eq!(finish_brk(&mut t, back, None), 0x10_0800);
    assert_eq!(sys_brk(&t, 0x10_0800), BrkStep::Done(0x10_0800));
}

#[test]
fn mappings_follow_each_other() {
    let mut t = task();
    assert_eq!(sys_mmap(&t, 0, 10, 0x02), MmapStep::Done(failure(ENOSYS)));
    let r = PageRange { start: 0x1_0000_0000, end: 0x1_0000_2000 };
    assert_eq!(sys_mmap(&t, 0x5000, 5000, 0x22), MmapStep::MapPages(r));
    let lost = PageRange { start: r.start, end: r.start + 4096 };
    assert_eq!(finish_mmap(&mut t, r, Some(r.start + 4096)), (failure(ENOMEM), Some(lost)));
    assert_eq!(finish_mmap(&mut t, r, None), (0x1_0000_0000, None));
    assert_eq!(t.mmap_base, 0x1_0000_2000);
    let fixed = PageRange { start: 0x5000, end: 0x6000 };
    assert_eq!(sys_mmap(&t, 0x5000, 1, 0x32), MmapStep::MapPages(fixed));
    assert_eq!(sys_munmap(0x1800, 0x1000), Some(PageRange { start: 0x1000, end: 0x3000 }));
    assert_eq!(sys_munmap(0, 5), None);
    assert_eq!(finish_mprotect(true), failure(ENOMEM));
}

#[test]
fn children_are_numbered() {
    let mut t = task();
    assert_eq!(t.alloc_child_pid(70), 2);
    assert_eq!(t.alloc_child_pid(71), 3);
    assert_eq!(t.alloc_child_pid(72), 4);
    assert_eq!(t.take_child_pid(70), Some(2));
    assert_eq!(t.take_child_pid(70), None);
    assert_eq!(t.take_child_pid(72), Some(4));
    for i in 0..20 {
        t.alloc_child_pid(100 + i);
    }
    assert_eq!(t.tid_to_pid_count, 16);
    assert_eq!(t.take_child_pid(119), None);
}

#[test]
fn process_calls() {
    let mut t = task();
    assert_eq!(sys_set_tid_address(&mut t, 0x44), 1);
    assert_eq!(sys_exit(&mut t, 0xFFFF_FFFF), Some(0x44));
    assert_eq!(t.exit_code, -1);
    assert_eq!(sys_prctl(&mut t, 39, 0), (0, vec![]));
    assert_eq!(sys_prctl(&mut t, 36, 0), (0, vec![]));
    assert_eq!(sys_prctl(&mut t, 39, 0), (1, vec![]));
    assert_eq!(sys_prctl(&mut t, 16, 5), (0, b"quackos\0".to_vec()));
    assert_eq!(sys_prctl(&mut t, 1, 0), (failure(EINVAL), vec![]));
    assert_eq!(sys_clone(-5) as i64, -5);
    assert_eq!(sys_wait4(-11, 0, 0, 0), WaitStep::Again);
    assert_eq!(sys_wait4(-11, 0, 0, 1), WaitStep::Done(0));
    assert_eq!(sys_wait4(-10, 0, 9, 0), WaitStep::Done(failure(10)));
    assert_eq!(sys_wait4(6, 3, 9, 0), WaitStep::Store { status: 3, result: 6 });
    assert_eq!(sys_wait4(6, 3, 0, 0), WaitStep::Done(6));
    assert_eq!(plan_exec_buffer(&t, 0), Err(failure(ENOEXEC)));
    assert_eq!(
        plan_exec_buffer(&t, 4097),
        Ok(PageRange { start: 0x1_0000_0000, end: 0x1_0000_3000 })
    );
    let range = PageRange { start: 0x5000, end: 0x8000 };
    assert_eq!(
        exec_map_failed(range, 0x7000),
        (failure(ENOMEM), PageRange { start: 0x5000, end: 0x7000 })
    );
    assert_eq!(exec_boot(b"no program", range), Err(failure(ENOEXEC)));
    assert_eq!(exec_read_more(5, 0), None);
    assert_eq!(exec_read_more(5, 48), Some(53));
    assert_eq!(finish_execve(-2), failure(ENOENT));
    assert_eq!(finish_execve(0), 0);
}

#[test]
fn names_and_times() {
    let mut buf = vec![0xEEu8; 325];
    assert_eq!(sys_uname(&mut buf), 0);
    assert_eq!(&buf[..6], b"Linux\0");
    assert_eq!(&buf[65..73], b"quackos\0");
    assert_eq!(&buf[130..136], b"5.0.0\0");
    assert_eq!(buf[195], 0xEE);
    assert_eq!(&buf[260..268], b"aarch64\0");
    assert_eq!(sys_getcwd(9, 4), (9, b"/\0".to_vec()));
    assert_eq!(sys_getcwd(9, 0), (9, vec![]));
    assert_eq!(sys_getrandom(1, 2, 3), 0);
    assert_eq!(sys_clock_gettime(1, 8), (0, vec![0u8; 16]));
    assert_eq!(sys_clock_gettime(7, 0), (failure(EINVAL), vec![]));
    assert_eq!(sys_gettimeofday(0, 0), (0, vec![]));
    assert_eq!(sys_futex(0, 129, 0, 0, 0, 0), 0);
    assert_eq!(sys_futex(0, 5, 0, 0, 0, 0), failure(ENOSYS));
}

#[test]
fn calls_have_numbers() {
    assert_eq!(dispatch(64), Ok(Call::Write));
    assert_eq!(dispatch(278), Ok(Call::Getrandom));
    assert_eq!(dispatch(1000), Err(failure(ENOSYS)));
    let mut regs = [0u64; 34];
    regs[8] = 64;
    regs[0] = 1;
    regs[5] = 6;
    let a = linux_syscall_handler(&regs);
    assert_eq!((a.nr, a.a0, a.a5), (64, 1, 6));
}

#[test]
fn boot_information_and_stack() {
    let b = BootInfo {
        program_entry: 0x40_0000,
        stack_top: 0x7FFF_0000,
        brk: 0x50_0000,
        phdr_addr: 0x40_0040,
        phent_size: 56,
        phnum: 3,
    };
    let bytes = b.to_bytes();
    assert_eq!(bytes.len(), 48);
    assert_eq!(BootInfo::from_bytes(&bytes), b);
    assert_eq!(initial_sp(&b), 0x7FFE_F000);
    let words = initial_stack(&b);
    assert_eq!(&words[3..9], &[3, 0x40_0040, 4, 56, 5, 3]);
    assert_eq!(&words[9..16], &[6, 4096, 9, 0x40_0000, 0, 0, 0]);
}

#[test]
fn echo_prints_arguments() {
    let arg = |s: &str| Some(s.as_bytes().to_vec());
    assert_eq!(echo_main(&vec![arg("echo"), arg("a"), arg("b")]), b"a b\n");
    assert_eq!(echo_main(&vec![arg("echo"), arg("-n"), arg("a")]), b"a");
    assert_eq!(echo_main(&vec![arg("echo")]), b"\n");
    assert_eq!(echo_main(&vec![]), b"\n");
    assert_eq!(echo_main(&vec![arg("echo"), arg("-n")]), b"");
    assert_eq!(echo_main(&vec![arg("echo"), None, arg("x")]), b" x\n");
}

#[test]
fn directory_records_are_parsed() {
    assert_eq!(make_dir_path(None), b".");
    assert_eq!(make_dir_path(Some(b"/x".to_vec())), b"/x");
    let mut buf = [0u8; 24];
    assert!(parse_dirent(&buf, 0).is_none());
    buf[16] = 24;
    buf[19] = b'q';
    assert_eq!(parse_dirent(&buf, 0), Some((b"q".to_vec(), 24)));
    assert!(parse_dirent(&buf, 6).is_none());
}
