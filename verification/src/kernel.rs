//! Trap handling and system calls, and the kernel state they work on.

use vstd::prelude::*;
use crate::common::{
    Console, TrapFrame, SYS_EXIT, SYS_GETCHAR, SYS_PUTCHAR, SYS_READFILE, SYS_WRITEFILE,
};
use crate::fs::{
    flushable, fs_flush, fs_lookup, lemma_flush_end_shrinks, lemma_lookup_bounds, spec_flush,
    spec_lookup, splice, File, FileSystem,
};
use crate::hart::{
    frame_of, frame_words, lemma_frame_round_trip, load_frame, sret, store_frame, zero_frame, Hart,
    SCAUSE_ECALL,
};
use crate::memory::{MemoryMap, PhysMemory, SATP_SV32};
use crate::process::{
    candidate, exit_notice, first_unused, first_unused_from, marked_exited, on_stack, pick_from,
    seeded_stack, stack_index, stack_top_of, yielded, ProcessManager, State,
};
use crate::sbi::{getchar, putchar};
use crate::space::{
    kernel_space, lemma_untouched, pages_for_create, pages_for_init, process_space, tables_placed,
};
use crate::usermem::{copy_from_user, copy_to_user, lemma_stored_visible, read_user_str, stored};

verus! {

/// Result of a file system call for a name that no file has.
pub const NOT_FOUND: u32 = 0xFFFF_FFFE;

/// The state of the kernel: memory, processes, the hart, the file store
/// and the console.
pub struct Kernel {
    pub mem: PhysMemory,
    pub pm: ProcessManager,
    pub hart: Hart,
    pub fs: FileSystem,
    pub console: Console,
}

/// How the handling of a system call ended.
#[derive(Clone, Copy, Debug, PartialEq, Eq, Structural)]
pub enum SyscallOutcome {
    /// The call is complete; its result, if it has one, is in `a0`.
    Done,
    /// The call is complete and has changed the disk image, which is to be
    /// written to the device.
    Flush,
    /// The call waits for console input: the process has yielded, and the
    /// call is taken up again when the process next runs.
    Blocked,
    /// The process has exited and the hart was given to another.
    Exited,
    /// The call named memory that is not mapped: the access traps, and
    /// nothing was changed.
    Fault,
}

impl Kernel {
    /// The parts of the state are in working order and fit together.
    pub open spec fn wf(&self) -> bool {
        &&& self.mem.wf()
        &&& self.pm.wf()
        &&& self.pm.stack_top == self.mem.map.stack_top
        &&& flushable(self.fs.files@)
    }

    /// The root page table of the running process.
    pub open spec fn root(&self) -> u32 {
        self.pm.procs@[self.pm.current as int].page_table
    }

    /// The hart runs on the kernel stack of the running process, with room
    /// for a context switch.
    pub open spec fn on_kernel_stack(&self) -> bool {
        on_stack(self.pm.stack_top, self.pm.current as int, self.hart.regs.sp as int)
    }
}

/// The low byte of `x`.
pub open spec fn low_byte(x: u32) -> u8 {
    (x & 0xff) as u8
}

/// PUTCHAR: emits the low byte of `a0` on the console.
pub fn sys_putchar(k: &mut Kernel, f: &TrapFrame)
    ensures
        final(k).console.out@ == old(k).console.out@.push(low_byte(f.a0)),
        final(k).console.input@ == old(k).console.input@,
        final(k).mem == old(k).mem,
        final(k).pm == old(k).pm,
        final(k).hart == old(k).hart,
        final(k).fs == old(k).fs,
{
    let a0 = f.a0;
    assert(a0 & 0xff < 256) by (bit_vector);
    putchar(&mut k.console, (a0 & 0xff) as u8);
}

/// GETCHAR: polls the console. Where a byte is ready it is the result in
/// `a0` and the call is done. Otherwise the process yields and the call
/// stays open.
pub fn sys_getchar(k: &mut Kernel, f: &mut TrapFrame) -> (out: SyscallOutcome)
    requires
        old(k).pm.wf(),
        old(k).pm.next() != old(k).pm.current ==> old(k).on_kernel_stack(),
    ensures
        final(k).mem == old(k).mem,
        final(k).fs == old(k).fs,
        final(k).console.out@ == old(k).console.out@,
        final(k).pm.wf(),
        old(k).console.input@.len() > 0 ==> {
            &&& out == SyscallOutcome::Done
            &&& *final(f) == (TrapFrame { a0: old(k).console.input@[0] as u32, ..*old(f) })
            &&& final(k).console.input@ == old(k).console.input@.skip(1)
            &&& final(k).pm == old(k).pm
            &&& final(k).hart == old(k).hart
        },
        old(k).console.input@.len() == 0 ==> {
            &&& out == SyscallOutcome::Blocked
            &&& *final(f) == *old(f)
            &&& final(k).console.input@ == old(k).console.input@
            &&& yielded(old(k).pm, old(k).hart, final(k).pm, final(k).hart)
        },
{
    let ch = getchar(&mut k.console);
    if ch >= 0 {
        f.a0 = ch as u32;
        SyscallOutcome::Done
    } else {
        k.pm.yield_(&mut k.hart);
        SyscallOutcome::Blocked
    }
}

/// EXIT: the exit is noted on the console, the process is marked as
/// exited, and the hart is given to the process that the scheduler picks.
pub fn sys_exit(k: &mut Kernel) -> (out: SyscallOutcome)
    requires
        old(k).pm.wf(),
        old(k).on_kernel_stack(),
    ensures
        out == SyscallOutcome::Exited,
        final(k).mem == old(k).mem,
        final(k).fs == old(k).fs,
        final(k).console.out@ == old(k).console.out@ + exit_notice(old(k).pm.current as int),
        final(k).console.input@ == old(k).console.input@,
        final(k).pm.wf(),
        final(k).pm.procs@[old(k).pm.current as int].state == State::Exited,
        exists|mid: ProcessManager|
            marked_exited(old(k).pm, mid) && yielded(mid, old(k).hart, final(k).pm, final(k).hart),
{
    k.pm.exit(&mut k.hart, &mut k.console);
    SyscallOutcome::Exited
}

/// The smaller of `a` and `b`.
pub open spec fn min(a: int, b: int) -> int {
    if a <= b {
        a
    } else {
        b
    }
}

/// The name that a file system call gives: the NUL-terminated string at the
/// user address in `a0`, where the root table of the process is a page of
/// RAM and the string is mapped.
pub open spec fn call_name(k: Kernel, f: TrapFrame) -> Option<Seq<u8>> {
    if k.mem.is_page(k.root() as int) {
        k.mem.virt_str(k.root(), f.a0 as int)
    } else {
        None
    }
}

/// What READFILE does.
///
/// Where the name in `a0` cannot be read, the call faults. Where no file
/// has the name, the result is `NOT_FOUND`. Otherwise as many bytes as
/// `a2` allows and the file holds are stored at the user address in `a1`,
/// and their number is the result; where that buffer is not mapped, the
/// call faults. Memory is changed only by those stores; nothing else is
/// changed.
pub open spec fn readfile_spec(
    pre: Kernel,
    post: Kernel,
    pre_f: TrapFrame,
    post_f: TrapFrame,
    out: SyscallOutcome,
) -> bool {
    &&& post.pm == pre.pm
    &&& post.hart == pre.hart
    &&& post.fs == pre.fs
    &&& post.console == pre.console
    &&& match call_name(pre, pre_f) {
        None => out == SyscallOutcome::Fault && post.mem == pre.mem && post_f == pre_f,
        Some(name) => match spec_lookup(pre.fs.files@, name) {
            None => {
                &&& out == SyscallOutcome::Done
                &&& post.mem == pre.mem
                &&& post_f == (TrapFrame { a0: NOT_FOUND, ..pre_f })
            },
            Some(i) => {
                let file = pre.fs.files@[i];
                let len = min(pre_f.a2 as int, file.size as int);
                match pre.mem.phys_addrs(pre.root(), pre_f.a1 as int, len) {
                    None => out == SyscallOutcome::Fault && post.mem == pre.mem && post_f == pre_f,
                    Some(addrs) => {
                        &&& out == SyscallOutcome::Done
                        &&& stored(pre.mem, post.mem, addrs, file.data@.take(len))
                        &&& post_f == (TrapFrame { a0: len as u32, ..pre_f })
                    },
                }
            },
        },
    }
}

/// `after` is the file `before` with the `bytes` written over the start of
/// its data and their number as its size.
pub open spec fn file_written(before: File, after: File, bytes: Seq<u8>) -> bool {
    &&& after.in_use == before.in_use
    &&& after.name == before.name
    &&& after.size == bytes.len()
    &&& after.data@ == splice(before.data@, 0, bytes)
}

/// What WRITEFILE does.
///
/// Where the name in `a0` cannot be read, the call faults. Where no file
/// has the name, the result is `NOT_FOUND`. Otherwise as many bytes as
/// `a2` allows and the file holds are read from the user address in `a1`;
/// where that buffer is not mapped, the call faults. The bytes become the
/// start of the file's data and their number its size, the file table is
/// flushed into the disk image, and the number is the result. Nothing else
/// is changed.
pub open spec fn writefile_spec(
    pre: Kernel,
    post: Kernel,
    pre_f: TrapFrame,
    post_f: TrapFrame,
    out: SyscallOutcome,
) -> bool {
    &&& post.pm == pre.pm
    &&& post.hart == pre.hart
    &&& post.mem == pre.mem
    &&& post.console == pre.console
    &&& match call_name(pre, pre_f) {
        None => out == SyscallOutcome::Fault && post.fs == pre.fs && post_f == pre_f,
        Some(name) => match spec_lookup(pre.fs.files@, name) {
            None => {
                &&& out == SyscallOutcome::Done
                &&& post.fs == pre.fs
                &&& post_f == (TrapFrame { a0: NOT_FOUND, ..pre_f })
            },
            Some(i) => {
                let file = pre.fs.files@[i];
                let len = min(pre_f.a2 as int, file.size as int);
                match pre.mem.virt_bytes(pre.root(), pre_f.a1 as int, len) {
                    None => out == SyscallOutcome::Fault && post.fs == pre.fs && post_f == pre_f,
                    Some(bytes) => {
                        &&& out == SyscallOutcome::Flush
                        &&& file_written(file, post.fs.files@[i], bytes)
                        &&& forall|j: int|
                            0 <= j < 2 && j != i ==> #[trigger] post.fs.files@[j]
                                == pre.fs.files@[j]
                        &&& post.fs.disk@ == spec_flush(post.fs.files@, pre.fs.disk@)
                        &&& post_f == (TrapFrame { a0: len as u32, ..pre_f })
                    },
                }
            },
        },
    }
}

/// Reads the name that a file system call gives.
fn read_call_name(k: &Kernel, f: &TrapFrame) -> (r: Option<Vec<u8>>)
    requires
        k.mem.wf(),
        k.pm.current < 8,
    ensures
        match r {
            Some(v) => call_name(*k, *f) == Some(v@),
            None => call_name(*k, *f).is_none(),
        },
{
    let root = k.pm.procs[k.pm.current].page_table;
    if root % 4096 != 0 || root < k.mem.map.free_ram || root >= k.mem.map.free_ram_end {
        return None;
    }
    read_user_str(&k.mem, root, f.a0)
}

/// The first `len` bytes of the data of `file`.
fn file_prefix(file: &File, len: usize) -> (v: Vec<u8>)
    requires
        len <= 1024,
    ensures
        v@ == file.data@.take(len as int),
{
    let mut v: Vec<u8> = Vec::new();
    let mut j: usize = 0;
    while j < len
        invariant
            j <= len <= 1024,
            v@ == file.data@.take(j as int),
        decreases len - j,
    {
        v.push(file.data[j]);
        assert(file.data@.take(j + 1) =~= file.data@.take(j as int).push(file.data@[j as int]));
        j += 1;
    }
    v
}

/// READFILE: copies the start of the file named by the string at `a0`
/// into the user buffer at `a1`, at most `a2` bytes.
pub fn sys_readfile(k: &mut Kernel, f: &mut TrapFrame) -> (out: SyscallOutcome)
    requires
        old(k).wf(),
    ensures
        final(k).wf(),
        readfile_spec(*old(k), *final(k), *old(f), *final(f), out),
{
    let name = match read_call_name(k, f) {
        Some(name) => name,
        None => {
            return SyscallOutcome::Fault;
        },
    };
    let root = k.pm.procs[k.pm.current].page_table;
    let i = match fs_lookup(&k.fs, name.as_slice()) {
        Ok(i) => i,
        Err(_) => {
            f.a0 = NOT_FOUND;
            return SyscallOutcome::Done;
        },
    };
    proof {
        lemma_lookup_bounds(k.fs.files@, name@, 0);
        assert(k.fs.files@[i as int].wf());
    }
    let size = k.fs.files[i].size;
    let len: usize = if (f.a2 as usize) < size {
        f.a2 as usize
    } else {
        size
    };
    let bytes = file_prefix(&k.fs.files[i], len);
    if !copy_to_user(&mut k.mem, root, f.a1, bytes.as_slice()) {
        return SyscallOutcome::Fault;
    }
    f.a0 = len as u32;
    SyscallOutcome::Done
}

/// WRITEFILE: overwrites the start of the file named by the string at `a0`
/// with the user buffer at `a1`, at most `a2` bytes and at most as many as
/// the file holds, and cuts the file to that length.
#[verifier::rlimit(50)]
pub fn sys_writefile(k: &mut Kernel, f: &mut TrapFrame) -> (out: SyscallOutcome)
    requires
        old(k).wf(),
    ensures
        final(k).wf(),
        writefile_spec(*old(k), *final(k), *old(f), *final(f), out),
{
    let name = match read_call_name(k, f) {
        Some(name) => name,
        None => {
            return SyscallOutcome::Fault;
        },
    };
    let root = k.pm.procs[k.pm.current].page_table;
    let i = match fs_lookup(&k.fs, name.as_slice()) {
        Ok(i) => i,
        Err(_) => {
            f.a0 = NOT_FOUND;
            return SyscallOutcome::Done;
        },
    };
    proof {
        lemma_lookup_bounds(k.fs.files@, name@, 0);
        assert(k.fs.files@[i as int].wf());
    }
    let size = k.fs.files[i].size;
    let len: usize = if (f.a2 as usize) < size {
        f.a2 as usize
    } else {
        size
    };
    let bytes = match copy_from_user(&k.mem, root, f.a1, len) {
        Some(bytes) => bytes,
        None => {
            return SyscallOutcome::Fault;
        },
    };
    let mut j: usize = 0;
    while j < len
        invariant
            j <= len == bytes@.len(),
            len <= 1024,
            i < 2,
            k.mem == old(k).mem,
            k.pm == old(k).pm,
            k.hart == old(k).hart,
            k.console == old(k).console,
            k.fs.disk == old(k).fs.disk,
            forall|m: int|
                0 <= m < 2 && m != i ==> #[trigger] k.fs.files@[m] == old(k).fs.files@[m],
            k.fs.files@[i as int].in_use == old(k).fs.files@[i as int].in_use,
            k.fs.files@[i as int].name == old(k).fs.files@[i as int].name,
            k.fs.files@[i as int].size == old(k).fs.files@[i as int].size,
            k.fs.files@[i as int].data@ == splice(
                old(k).fs.files@[i as int].data@,
                0,
                bytes@.take(j as int),
            ),
        decreases len - j,
    {
        k.fs.files[i].data[j] = bytes[j];
        j += 1;
    }
    k.fs.files[i].size = len;
    proof {
        assert(bytes@.take(len as int) =~= bytes@);
        assert forall|m: int| 0 <= m < 2 implies (#[trigger] k.fs.files@[m]).in_use == old(
            k,
        ).fs.files@[m].in_use && k.fs.files@[m].size <= old(k).fs.files@[m].size by {}
        lemma_flush_end_shrinks(k.fs.files@, old(k).fs.files@, 0, 0, 0);
        assert forall|m: int| 0 <= m < 2 implies (#[trigger] k.fs.files@[m]).wf() by {
            assert(old(k).fs.files@[m].wf());
        }
    }
    fs_flush(&mut k.fs);
    f.a0 = len as u32;
    SyscallOutcome::Flush
}

/// Whether `a3` is the number of a system call.
pub open spec fn is_syscall(a3: u32) -> bool {
    1 <= a3 <= 5
}

/// Whether the outcome ends the call, so that the process goes on behind
/// its `ecall`.
pub open spec fn completes(out: SyscallOutcome) -> bool {
    out == SyscallOutcome::Done || out == SyscallOutcome::Flush
}

/// What the system call with the number in `a3` of the frame `pre_f` does:
/// `post`, `post_f` and `out` are the kernel, the frame and the outcome
/// after the call that was made in the kernel `pre` with the frame `pre_f`.
pub open spec fn syscall_spec(
    pre: Kernel,
    post: Kernel,
    pre_f: TrapFrame,
    post_f: TrapFrame,
    out: SyscallOutcome,
) -> bool {
    if pre_f.a3 == SYS_PUTCHAR {
        &&& out == SyscallOutcome::Done
        &&& post_f == pre_f
        &&& post.console.out@ == pre.console.out@.push(low_byte(pre_f.a0))
        &&& post.console.input@ == pre.console.input@
        &&& post.mem == pre.mem
        &&& post.pm == pre.pm
        &&& post.hart == pre.hart
        &&& post.fs == pre.fs
    } else if pre_f.a3 == SYS_GETCHAR {
        &&& post.mem == pre.mem
        &&& post.fs == pre.fs
        &&& post.console.out@ == pre.console.out@
        &&& if pre.console.input@.len() > 0 {
            &&& out == SyscallOutcome::Done
            &&& post_f == (TrapFrame { a0: pre.console.input@[0] as u32, ..pre_f })
            &&& post.console.input@ == pre.console.input@.skip(1)
            &&& post.pm == pre.pm
            &&& post.hart == pre.hart
        } else {
            &&& out == SyscallOutcome::Blocked
            &&& post_f == pre_f
            &&& post.console.input@ == pre.console.input@
            &&& yielded(pre.pm, pre.hart, post.pm, post.hart)
        }
    } else if pre_f.a3 == SYS_EXIT {
        &&& out == SyscallOutcome::Exited
        &&& post_f == pre_f
        &&& post.mem == pre.mem
        &&& post.fs == pre.fs
        &&& post.console.out@ == pre.console.out@ + exit_notice(pre.pm.current as int)
        &&& post.console.input@ == pre.console.input@
        &&& exists|mid: ProcessManager|
            marked_exited(pre.pm, mid) && yielded(mid, pre.hart, post.pm, post.hart)
    } else if pre_f.a3 == SYS_READFILE {
        readfile_spec(pre, post, pre_f, post_f, out)
    } else {
        writefile_spec(pre, post, pre_f, post_f, out)
    }
}

/// Carries out the system call whose number is in `a3` of the frame, with
/// its arguments in `a0` to `a2`, and leaves its result in `a0`.
pub fn handle_syscall(k: &mut Kernel, f: &mut TrapFrame) -> (out: SyscallOutcome)
    requires
        old(k).wf(),
        is_syscall(old(f).a3),
        old(f).a3 == SYS_GETCHAR || old(f).a3 == SYS_EXIT ==> old(k).on_kernel_stack(),
    ensures
        final(k).wf(),
        syscall_spec(*old(k), *final(k), *old(f), *final(f), out),
{
    let n = f.a3;
    if n == SYS_PUTCHAR {
        sys_putchar(k, f);
        SyscallOutcome::Done
    } else if n == SYS_GETCHAR {
        sys_getchar(k, f)
    } else if n == SYS_EXIT {
        sys_exit(k)
    } else if n == SYS_READFILE {
        sys_readfile(k, f)
    } else {
        sys_writefile(k, f)
    }
}

/// Whether a trap with the cause `scause` is a system call.
pub fn is_ecall(scause: u32) -> (b: bool)
    ensures
        b == (scause == SCAUSE_ECALL),
{
    scause == SCAUSE_ECALL
}

/// Handles a trap from user mode, which must be an environment call:
/// carries out the system call, and where that ends the call, moves `sepc`
/// on by four, behind the `ecall` instruction.
pub fn handle_trap(k: &mut Kernel, f: &mut TrapFrame) -> (out: SyscallOutcome)
    requires
        old(k).wf(),
        old(k).hart.scause == SCAUSE_ECALL,
        old(k).hart.sepc + 4 <= u32::MAX,
        is_syscall(old(f).a3),
        old(f).a3 == SYS_GETCHAR || old(f).a3 == SYS_EXIT ==> old(k).on_kernel_stack(),
    ensures
        final(k).wf(),
        completes(out) ==> final(k).hart == (Hart {
            sepc: (old(k).hart.sepc + 4) as u32,
            ..old(k).hart
        }),
        syscall_spec(
            *old(k),
            Kernel {
                hart: if completes(out) {
                    old(k).hart
                } else {
                    final(k).hart
                },
                ..*final(k)
            },
            *old(f),
            *final(f),
            out,
        ),
{
    let user_pc = k.hart.sepc;
    let out = handle_syscall(k, f);
    match out {
        SyscallOutcome::Done | SyscallOutcome::Flush => {
            assert(k.hart == old(k).hart);
            k.hart.sepc = user_pc + 4;
        },
        _ => {},
    }
    out
}

/// Index in a kernel stack of the lowest word of the trap frame.
pub const FRAME_INDEX: usize = 2017;

/// Index in a kernel stack of the word in which the trap handler keeps the
/// address of the `ecall` that it serves.
pub const PC_INDEX: usize = 2016;

/// `post` is the table `pre` with the stack of slot `slot` changed only in
/// the words from index `from` on.
pub open spec fn stack_top_changed(
    pre: ProcessManager,
    post: ProcessManager,
    slot: int,
    from: int,
) -> bool {
    &&& post.current == pre.current
    &&& post.stack_top == pre.stack_top
    &&& forall|i: int| 0 <= i < 8 && i != slot ==> #[trigger] post.procs@[i] == pre.procs@[i]
    &&& post.procs@[slot].pid == pre.procs@[slot].pid
    &&& post.procs@[slot].state == pre.procs@[slot].state
    &&& post.procs@[slot].sp == pre.procs@[slot].sp
    &&& post.procs@[slot].page_table == pre.procs@[slot].page_table
    &&& forall|j: int| 0 <= j < from ==> post.procs@[slot].stack@[j] == pre.procs@[slot].stack@[j]
}

/// `post` is the kernel `pre` after the trap entry has run up to the call
/// of the handler.
///
/// The registers of the interrupted program, its stack pointer among them,
/// lie as a trap frame at the top of the kernel stack of the running
/// process, and the address of the `ecall` lies below the frame. The hart
/// is in supervisor mode on that kernel stack, below the two; `a0` points
/// to the frame, `ra` into the trap vector, and `sscratch` holds the top
/// of the kernel stack as before.
pub open spec fn trap_entered(pre: Kernel, post: Kernel) -> bool {
    let cur = pre.pm.current as int;
    let top = pre.hart.sscratch;
    &&& post.mem == pre.mem
    &&& post.fs == pre.fs
    &&& post.console == pre.console
    &&& stack_top_changed(pre.pm, post.pm, cur, 2016)
    &&& post.pm.procs@[cur].stack@[2016] == pre.hart.sepc
    &&& post.pm.procs@[cur].stack@.subrange(2017, 2048) == frame_words(pre.hart.regs)
    &&& post.hart == (Hart {
        user_mode: false,
        regs: TrapFrame {
            sp: (top - 128) as u32,
            ra: pre.mem.map.kernel_entry,
            a0: (top - 124) as u32,
            ..pre.hart.regs
        },
        ..pre.hart
    })
}

/// `post` is the kernel `pre` after the trap entry has run from the return
/// of the handler on, for a trap of the process in slot `slot` at the
/// address `user_pc` whose frame the handler left as `f`.
///
/// The frame lies at the top of the kernel stack of `slot`. Where the call
/// is complete, every register is loaded from the frame, and the hart goes
/// on in user mode behind the `ecall`. Otherwise the hart is as the
/// handler left it.
pub open spec fn trap_left(
    pre: Kernel,
    post: Kernel,
    f: TrapFrame,
    slot: int,
    user_pc: u32,
    out: SyscallOutcome,
) -> bool {
    &&& post.mem == pre.mem
    &&& post.fs == pre.fs
    &&& post.console == pre.console
    &&& stack_top_changed(pre.pm, post.pm, slot, 2017)
    &&& post.pm.procs@[slot].stack@.subrange(2017, 2048) == frame_words(f)
    &&& post.hart == if completes(out) {
        Hart {
            regs: f,
            sepc: (user_pc + 4) as u32,
            pc: (user_pc + 4) as u32,
            user_mode: true,
            ..pre.hart
        }
    } else {
        pre.hart
    }
}

/// The second half of the trap entry: puts the frame back and, where the
/// call is complete, returns to user mode.
fn leave_trap(
    k: &mut Kernel,
    f: &TrapFrame,
    slot: usize,
    Ghost(user_pc): Ghost<u32>,
    out: SyscallOutcome,
)
    requires
        slot < 8,
        old(k).wf(),
        old(k).pm.procs@[slot as int].state != State::Unused,
        completes(out) ==> old(k).hart.sepc == user_pc + 4,
    ensures
        final(k).wf(),
        trap_left(
            Kernel {
                hart: if completes(out) {
                    Hart { sepc: user_pc, ..old(k).hart }
                } else {
                    old(k).hart
                },
                ..*old(k)
            },
            *final(k),
            *f,
            slot as int,
            user_pc,
            out,
        ),
{
    store_frame(&mut k.pm.procs[slot].stack, FRAME_INDEX, f);
    match out {
        SyscallOutcome::Done | SyscallOutcome::Flush => {
            k.hart.regs = *f;
            sret(&mut k.hart);
        },
        _ => {},
    }
}

/// The first half of the trap entry: saves the registers of the
/// interrupted program and the address of the trap on the kernel stack of
/// the running process, and takes the hart onto that stack.
fn enter_trap(k: &mut Kernel)
    requires
        old(k).wf(),
        old(k).hart.sscratch == stack_top_of(old(k).pm.stack_top, old(k).pm.current as int),
    ensures
        final(k).wf(),
        trap_entered(*old(k), *final(k)),
{
    let cur = k.pm.current;
    let top = k.hart.sscratch;
    let frame = k.hart.regs;
    store_frame(&mut k.pm.procs[cur].stack, FRAME_INDEX, &frame);
    k.pm.procs[cur].stack[PC_INDEX] = k.hart.sepc;
    k.hart.user_mode = false;
    k.hart.regs.sp = top - 128;
    k.hart.regs.ra = k.mem.map.kernel_entry;
    k.hart.regs.a0 = top - 124;
    proof {
        assert(k.pm.procs@[cur as int].stack@.subrange(2017, 2048) =~= frame_words(frame));
    }
}

/// The trap vector, for a trap that is a system call.
///
/// The registers are saved as a trap frame on the kernel stack of the
/// running process, the handler is called with the frame, and where the
/// call is complete the registers are loaded from the frame and the hart
/// returns to user mode behind the `ecall`. Where the call blocks or the
/// process exits, the hart is left to the process that was switched to,
/// and the frame stays on the stack of the one that trapped.
#[verifier::rlimit(50)]
pub fn kernel_entry(k: &mut Kernel) -> (out: SyscallOutcome)
    requires
        old(k).wf(),
        old(k).hart.sscratch == stack_top_of(old(k).pm.stack_top, old(k).pm.current as int),
        old(k).hart.scause == SCAUSE_ECALL,
        old(k).hart.sepc + 4 <= u32::MAX,
        is_syscall(old(k).hart.regs.a3),
    ensures
        final(k).wf(),
        exists|entered: Kernel, served: Kernel, f: TrapFrame|
            trap_entered(*old(k), entered) && syscall_spec(
                entered,
                served,
                old(k).hart.regs,
                f,
                out,
            ) && trap_left(served, *final(k), f, old(k).pm.current as int, old(k).hart.sepc, out),
        completes(out) ==> {
            &&& final(k).hart.sepc == old(k).hart.sepc + 4
            &&& final(k).hart.pc == old(k).hart.sepc + 4
            &&& final(k).hart.user_mode
            &&& final(k).hart.sscratch == old(k).hart.sscratch
            &&& final(k).pm.current == old(k).pm.current
            &&& final(k).hart.regs == (TrapFrame { a0: final(k).hart.regs.a0, ..old(k).hart.regs })
        },
        final(k).pm.procs@[old(k).pm.current as int].stack@[2016] == old(k).hart.sepc,
{
    let cur = k.pm.current;
    let ghost frame = k.hart.regs;
    let ghost user_pc = k.hart.sepc;
    enter_trap(k);
    let ghost entered = *k;
    let mut f = load_frame(&k.pm.procs[cur].stack, FRAME_INDEX);
    proof {
        lemma_frame_round_trip(frame);
        assert(f == frame);
    }
    let out = handle_trap(k, &mut f);
    let ghost served = Kernel {
        hart: if completes(out) {
            entered.hart
        } else {
            k.hart
        },
        ..*k
    };
    proof {
        lemma_stack_kept(entered, served, frame, f, out);
    }
    leave_trap(k, &f, cur, Ghost(user_pc), out);
    proof {
        assert(trap_left(served, *k, f, cur as int, user_pc, out));
        lemma_frame_after(frame, f, entered, served, out);
    }
    out
}

/// A system call does not touch the two words in which the trap handler
/// keeps the address of the `ecall`, nor the slot of the process that
/// made the call but for what a context switch saves there; and the slot
/// still holds a process.
proof fn lemma_stack_kept(
    pre: Kernel,
    post: Kernel,
    pre_f: TrapFrame,
    post_f: TrapFrame,
    out: SyscallOutcome,
)
    requires
        pre.pm.wf(),
        is_syscall(pre_f.a3),
        pre.hart.regs.sp == stack_top_of(pre.pm.stack_top, pre.pm.current as int) - 128,
        syscall_spec(pre, post, pre_f, post_f, out),
    ensures
        ({
            let cur = pre.pm.current as int;
            &&& post.pm.procs@[cur].state != State::Unused
            &&& post.pm.procs@[cur].stack@[2016] == pre.pm.procs@[cur].stack@[2016]
            &&& post.pm.procs@[cur].stack@.subrange(2017, 2048) == pre.pm.procs@[cur].stack@.subrange(
                2017,
                2048,
            )
        }),
        completes(out) ==> post.pm == pre.pm && post.hart == pre.hart,
{
    let cur = pre.pm.current as int;
    let idx = stack_index(pre.pm.stack_top, cur, pre.hart.regs.sp - 52);
    assert(idx == 2003);
    if pre_f.a3 == SYS_EXIT {
        let mid = choose|mid: ProcessManager|
            marked_exited(pre.pm, mid) && yielded(mid, pre.hart, post.pm, post.hart);
        assert(mid.procs@[cur].stack@ == pre.pm.procs@[cur].stack@);
        assert(post.pm.procs@[cur].stack@.subrange(2017, 2048) =~= pre.pm.procs@[cur].stack@.subrange(
            2017,
            2048,
        ));
    } else if pre_f.a3 == SYS_GETCHAR {
        assert(post.pm.procs@[cur].stack@.subrange(2017, 2048) =~= pre.pm.procs@[cur].stack@.subrange(
            2017,
            2048,
        ));
    }
}

/// The frame that a system call leaves differs from the one it found at
/// most in `a0`.
proof fn lemma_frame_after(
    pre_f: TrapFrame,
    post_f: TrapFrame,
    pre: Kernel,
    post: Kernel,
    out: SyscallOutcome,
)
    requires
        is_syscall(pre_f.a3),
        syscall_spec(pre, post, pre_f, post_f, out),
    ensures
        post_f == (TrapFrame { a0: post_f.a0, ..pre_f }),
{
}

impl Kernel {
    /// The trap frame that lies at the top of the kernel stack of the
    /// running process.
    pub open spec fn saved_frame(&self) -> TrapFrame {
        frame_of(self.pm.procs@[self.pm.current as int].stack@.subrange(2017, 2048))
    }

    /// The address of the `ecall` that the running process waits in.
    pub open spec fn saved_pc(&self) -> u32 {
        self.pm.procs@[self.pm.current as int].stack@[2016]
    }
}

/// Takes up the system call of a process that had blocked in it and runs
/// again: the call is made once more with the frame that lies on the
/// kernel stack, and where it is complete now, the hart returns to user
/// mode behind the `ecall`.
#[verifier::rlimit(50)]
pub fn kernel_resume(k: &mut Kernel) -> (out: SyscallOutcome)
    requires
        old(k).wf(),
        old(k).hart.regs.sp == stack_top_of(old(k).pm.stack_top, old(k).pm.current as int) - 128,
        old(k).saved_pc() + 4 <= u32::MAX,
        is_syscall(old(k).saved_frame().a3),
    ensures
        final(k).wf(),
        exists|served: Kernel, f: TrapFrame|
            syscall_spec(*old(k), served, old(k).saved_frame(), f, out) && trap_left(
                served,
                *final(k),
                f,
                old(k).pm.current as int,
                old(k).saved_pc(),
                out,
            ),
        completes(out) ==> {
            &&& final(k).hart.sepc == old(k).saved_pc() + 4
            &&& final(k).hart.pc == old(k).saved_pc() + 4
            &&& final(k).hart.user_mode
            &&& final(k).pm.current == old(k).pm.current
            &&& final(k).hart.regs == (TrapFrame {
                a0: final(k).hart.regs.a0,
                ..old(k).saved_frame()
            })
        },
        final(k).pm.procs@[old(k).pm.current as int].stack@[2016] == old(k).saved_pc(),
{
    let cur = k.pm.current;
    let user_pc = k.pm.procs[cur].stack[PC_INDEX];
    let mut f = load_frame(&k.pm.procs[cur].stack, FRAME_INDEX);
    let ghost frame = f;
    let out = handle_syscall(k, &mut f);
    let ghost served = *k;
    proof {
        lemma_stack_kept(*old(k), served, frame, f, out);
        lemma_frame_after(frame, f, *old(k), served, out);
    }
    match out {
        SyscallOutcome::Done | SyscallOutcome::Flush => {
            k.hart.sepc = user_pc + 4;
        },
        _ => {},
    }
    leave_trap(k, &f, cur, Ghost(user_pc), out);
    proof {
        assert(trap_left(served, *k, f, cur as int, user_pc, out));
    }
    out
}

/// A system call that blocked and is taken up again returns behind its
/// `ecall`: where the trap at the address `sepc` left the process blocked,
/// and the process runs again with the word that holds that address and
/// its trap frame untouched, the hart goes on at `sepc + 4` with the
/// registers of the frame, `a0` apart, once the call is complete.
pub proof fn lemma_blocked_call_returns(
    trapped: Kernel,
    blocked: Kernel,
    resumed: Kernel,
    done: Kernel,
    served: Kernel,
    f: TrapFrame,
    out: SyscallOutcome,
)
    requires
        trapped.pm.current < 8,
        trapped.hart.sepc + 4 <= u32::MAX,
        resumed.pm.current == trapped.pm.current,
        blocked.pm.procs@[trapped.pm.current as int].stack@[2016] == trapped.hart.sepc,
        resumed.pm.procs@[trapped.pm.current as int].stack@[2016]
            == blocked.pm.procs@[trapped.pm.current as int].stack@[2016],
        trap_left(served, done, f, resumed.pm.current as int, resumed.saved_pc(), out),
        completes(out),
    ensures
        done.hart.sepc == trapped.hart.sepc + 4,
        done.hart.pc == trapped.hart.sepc + 4,
        done.hart.user_mode,
        done.hart.regs == f,
{
}

/// What the idle process says when it runs again: `switched to idle
/// process` and a newline.
pub open spec fn idle_notice() -> Seq<u8> {
    seq![
        0x73u8, 0x77u8, 0x69u8, 0x74u8, 0x63u8, 0x68u8, 0x65u8, 0x64u8, 0x20u8, 0x74u8, 0x6fu8,
        0x20u8, 0x69u8, 0x64u8, 0x6cu8, 0x65u8, 0x20u8, 0x70u8, 0x72u8, 0x6fu8, 0x63u8, 0x65u8,
        0x73u8, 0x73u8, 0x0au8,
    ]
}

/// What is left of the kernel's start when the idle process runs again,
/// which it does when no process is runnable: it says so on the console.
/// After that the idle process does nothing, for good.
pub fn kernel_idle(console: &mut Console)
    ensures
        final(console).out@ == old(console).out@ + idle_notice(),
        final(console).input@ == old(console).input@,
{
    let notice: [u8; 25] = [
        0x73, 0x77, 0x69, 0x74, 0x63, 0x68, 0x65, 0x64, 0x20, 0x74, 0x6f, 0x20, 0x69, 0x64, 0x6c,
        0x65, 0x20, 0x70, 0x72, 0x6f, 0x63, 0x65, 0x73, 0x73, 0x0a,
    ];
    console.write(&notice);
    assert(notice@ =~= idle_notice());
}

/// The first instructions of the kernel: the stack pointer is set to the
/// top of the boot stack.
pub fn boot(hart: &mut Hart, map: &MemoryMap)
    ensures
        *final(hart) == (Hart {
            regs: TrapFrame { sp: map.stack_top, ..old(hart).regs },
            ..*old(hart)
        }),
{
    hart.regs.sp = map.stack_top;
}

/// The states of a process table in which only the idle process exists.
proof fn lemma_first_slot(pm: ProcessManager)
    requires
        pm.procs@[0].state == State::Idle,
        forall|i: int| 1 <= i < 8 ==> (#[trigger] pm.procs@[i]).state == State::Unused,
    ensures
        first_unused(pm.states()) == Some(1int),
{
    reveal_with_fuel(first_unused_from, 3);
}

/// Starts the kernel on a hart at reset: installs the trap vector, sets
/// up the idle process, creates the first user process from `image`, and
/// yields to it.
///
/// `mem` is the memory after the block driver took its pages, `fs` the
/// file store after the disk image was read, `console` the console.
/// When the function returns, the hart is in the context of the new
/// process, in slot 1, about to return to `user_entry`.
#[verifier::rlimit(50)]
pub fn kernel_main(mem: PhysMemory, fs: FileSystem, console: Console, image: &[u8]) -> (k: Kernel)
    requires
        mem.wf(),
        mem.map.stack_top % 4 == 0,
        mem.map.stack_top >= 8 * 8192,
        flushable(fs.files@),
        image@.len() <= 0xFF00_0000,
        mem.free_pages() >= pages_for_init(mem.map) + pages_for_create(
            mem.map,
            image@.len() as int,
        ),
    ensures
        k.wf(),
        k.fs == fs,
        k.console == console,
        k.mem.map == mem.map,
        k.mem.next_paddr == mem.next_paddr + 4096 * (pages_for_init(mem.map) + pages_for_create(
            mem.map,
            image@.len() as int,
        )),
        forall|addr: int| mem.is_allocated(addr) ==> #[trigger] k.mem.page(addr) == mem.page(addr),
        k.pm.current == 1,
        k.pm.procs@[0].state == State::Idle,
        k.pm.procs@[1].state == State::Runnable,
        k.pm.procs@[1].pid == 1,
        forall|i: int| 2 <= i < 8 ==> (#[trigger] k.pm.procs@[i]).state == State::Unused,
        k.pm.procs@[0].page_table == mem.next_paddr,
        k.pm.procs@[1].page_table == mem.next_paddr + 4096 * pages_for_init(mem.map),
        process_space(k.mem, k.pm.procs@[1].page_table, image@, k.pm.procs@[1].page_table as int),
        k.mem.space_wf(k.pm.procs@[0].page_table),
        k.mem.space_wf(k.pm.procs@[1].page_table),
        kernel_space(k.mem, k.pm.procs@[0].page_table),
        tables_placed(k.mem, k.pm.procs@[0].page_table, k.pm.procs@[0].page_table as int),
        tables_placed(k.mem, k.pm.procs@[1].page_table, k.pm.procs@[1].page_table as int),
        k.pm.procs@[0].sp == mem.map.stack_top - 52,
        k.pm.procs@[0].stack@ == seeded_stack(0),
        k.pm.procs@[1].sp == stack_top_of(mem.map.stack_top, 1) - 52,
        k.pm.procs@[1].stack@ == seeded_stack(mem.map.user_entry),
        k.hart == (Hart {
            stvec: mem.map.kernel_entry,
            sscratch: stack_top_of(mem.map.stack_top, 1) as u32,
            satp: SATP_SV32 | (k.pm.procs@[1].page_table / 4096),
            regs: TrapFrame {
                ra: mem.map.user_entry,
                sp: stack_top_of(mem.map.stack_top, 1) as u32,
                ..zero_frame()
            },
            pc: 0,
            user_mode: false,
            sepc: 0,
            scause: 0,
            stval: 0,
            sstatus: 0,
        }),
{
    let mut m = mem;
    let mut hart = Hart::new();
    boot(&mut hart, &m.map);
    hart.stvec = m.map.kernel_entry;
    let mut pm = ProcessManager::new();
    pm.init(&mut m);
    let ghost m1 = m;
    proof {
        lemma_first_slot(pm);
    }
    pm.create(&mut m, image);
    proof {
        reveal_with_fuel(pick_from, 2);
        assert(pm.states()[candidate(0, 0)] == State::Runnable);
        assert(pm.next() == 1);
    }
    let ghost base = pm;
    let ghost m2 = m;
    pm.yield_(&mut hart);
    proof {
        let idx = stack_index(pm.stack_top, 1, base.procs@[1].sp as int);
        assert(idx == 2035);
        assert(pm.saved_context(1) =~= seeded_stack(m.map.user_entry).subrange(2035, 2048));
        assert(stack_index(pm.stack_top, 0, m.map.stack_top - 52) == 2035);
        assert(pm.procs@[0].stack@ =~= seeded_stack(0));
        lemma_untouched(m1, m2, pm.procs@[0].page_table);
        assert(kernel_space(m2, pm.procs@[0].page_table));
        assert(m2.page(pm.procs@[0].page_table as int) == m1.page(pm.procs@[0].page_table as int));
        assert(tables_placed(m2, pm.procs@[0].page_table, pm.procs@[0].page_table as int)) by {
            let root = pm.procs@[0].page_table;
            assert forall|i: int| 0 <= i < 1024 implies #[trigger] m2.entry(root as int, i)
                == m1.entry(root as int, i) by {}
        }
        assert forall|addr: int| mem.is_allocated(addr) implies #[trigger] m.page(addr) == mem.page(
            addr,
        ) by {
            assert(m1.page(addr) == mem.page(addr));
            assert(m1.is_allocated(addr));
        }
    }
    Kernel { mem: m, pm, hart, fs, console }
}

/// A file system call for a name that no file has says so and changes
/// nothing: the result is `NOT_FOUND`, and memory, with it every user
/// buffer, and the file store are as they were.
pub proof fn lemma_not_found(
    pre: Kernel,
    post: Kernel,
    pre_f: TrapFrame,
    post_f: TrapFrame,
    out: SyscallOutcome,
    name: Seq<u8>,
)
    requires
        pre_f.a3 == SYS_READFILE || pre_f.a3 == SYS_WRITEFILE,
        call_name(pre, pre_f) == Some(name),
        spec_lookup(pre.fs.files@, name).is_none(),
        syscall_spec(pre, post, pre_f, post_f, out),
    ensures
        out == SyscallOutcome::Done,
        post_f.a0 == NOT_FOUND,
        post.mem == pre.mem,
        post.fs == pre.fs,
        post.pm == pre.pm,
{
}

/// Every system call that is complete returns behind its `ecall`: the
/// trap handler leaves `sepc` four bytes behind where the trap found it.
pub proof fn lemma_pc_advance(
    pre: Kernel,
    post: Kernel,
    f: TrapFrame,
    user_pc: u32,
    out: SyscallOutcome,
)
    requires
        user_pc + 4 <= u32::MAX,
        completes(out),
        trap_left(pre, post, f, pre.pm.current as int, user_pc, out),
    ensures
        post.hart.sepc == user_pc + 4,
        post.hart.pc == user_pc + 4,
        post.hart.user_mode,
        post.hart.regs == f,
{
}

/// What READFILE has read is found in the user buffer: where the file
/// exists and the buffer lies in plain memory of the process, the call is
/// done, its result is the number of bytes read, and the buffer holds that
/// many bytes from the start of the file.
pub proof fn lemma_readfile_visible(
    pre: Kernel,
    post: Kernel,
    pre_f: TrapFrame,
    post_f: TrapFrame,
    out: SyscallOutcome,
    name: Seq<u8>,
    slot: int,
)
    requires
        pre.wf(),
        pre.mem.space_wf(pre.root()),
        pre_f.a3 == SYS_READFILE,
        call_name(pre, pre_f) == Some(name),
        spec_lookup(pre.fs.files@, name) == Some(slot),
        0 <= slot < 2,
        pre.mem.plain_range(
            pre.root(),
            pre_f.a1 as int,
            min(pre_f.a2 as int, pre.fs.files@[slot].size as int),
        ),
        syscall_spec(pre, post, pre_f, post_f, out),
    ensures
        out == SyscallOutcome::Done,
        post_f.a0 == min(pre_f.a2 as int, pre.fs.files@[slot].size as int),
        post.mem.virt_bytes(pre.root(), pre_f.a1 as int, post_f.a0 as int) == Some(
            pre.fs.files@[slot].data@.take(post_f.a0 as int),
        ),
        post.fs == pre.fs,
{
    let root = pre.root();
    let file = pre.fs.files@[slot];
    assert(file.wf());
    let len = min(pre_f.a2 as int, file.size as int);
    assert forall|i: int| 0 <= i < len implies (#[trigger] pre.mem.spec_translate(
        root,
        (pre_f.a1 + i) as u32,
    )).is_some() by {
        assert(pre.mem.spec_walk(root, (pre_f.a1 + i) as u32).is_some());
    }
    assert(pre.mem.phys_addrs(root, pre_f.a1 as int, len).is_some());
    let bytes = file.data@.take(len);
    lemma_stored_visible(pre.mem, post.mem, root, pre_f.a1 as int, bytes);
}


/// Why the kernel stops at a trap instead of serving it.
#[derive(Clone, Copy, Debug, PartialEq, Eq, Structural)]
pub enum TrapError {
    /// The trap is no environment call from user mode. The three registers
    /// say what it was, where the hart was, and what it tripped over.
    UnexpectedTrap { scause: u32, stval: u32, sepc: u32 },
    /// The trap is an environment call, but the number in `a3` is that of no
    /// system call.
    UnexpectedSyscall { a3: u32 },
}

/// The reason, if there is one, for which the kernel stops at the trap that
/// the hart `hart` has taken with the registers `f`.
pub open spec fn trap_error(hart: Hart, f: TrapFrame) -> Option<TrapError> {
    if hart.scause != SCAUSE_ECALL {
        Some(TrapError::UnexpectedTrap { scause: hart.scause, stval: hart.stval, sepc: hart.sepc })
    } else if !is_syscall(f.a3) {
        Some(TrapError::UnexpectedSyscall { a3: f.a3 })
    } else {
        None
    }
}

/// Finds the reason, if there is one, for which the kernel stops at the
/// trap that the hart has taken with the registers `f`.
pub fn check_trap(hart: &Hart, f: &TrapFrame) -> (r: Option<TrapError>)
    ensures
        r == trap_error(*hart, *f),
{
    if hart.scause != SCAUSE_ECALL {
        Some(TrapError::UnexpectedTrap { scause: hart.scause, stval: hart.stval, sepc: hart.sepc })
    } else if f.a3 < 1 || f.a3 > 5 {
        Some(TrapError::UnexpectedSyscall { a3: f.a3 })
    } else {
        None
    }
}

/// Handles a trap of any cause.
///
/// A trap that is no environment call from user mode, or one whose `a3`
/// names no system call, is not served: no system call is made, `sepc` is
/// not written, the frame and the whole of the kernel are as they were,
/// and the error says why. Every other trap is handled as `handle_trap`
/// handles it.
pub fn try_handle_trap(k: &mut Kernel, f: &mut TrapFrame) -> (r: Result<
    SyscallOutcome,
    TrapError,
>)
    requires
        old(k).wf(),
        trap_error(old(k).hart, *old(f)).is_none() ==> {
            &&& old(k).hart.sepc + 4 <= u32::MAX
            &&& (old(f).a3 == SYS_GETCHAR || old(f).a3 == SYS_EXIT ==> old(k).on_kernel_stack())
        },
    ensures
        final(k).wf(),
        match r {
            Err(e) => {
                &&& trap_error(old(k).hart, *old(f)) == Some(e)
                &&& *final(k) == *old(k)
                &&& *final(f) == *old(f)
            },
            Ok(out) => {
                &&& trap_error(old(k).hart, *old(f)).is_none()
                &&& completes(out) ==> final(k).hart == (Hart {
                    sepc: (old(k).hart.sepc + 4) as u32,
                    ..old(k).hart
                })
                &&& syscall_spec(
                    *old(k),
                    Kernel {
                        hart: if completes(out) {
                            old(k).hart
                        } else {
                            final(k).hart
                        },
                        ..*final(k)
                    },
                    *old(f),
                    *final(f),
                    out,
                )
            },
        },
{
    match check_trap(&k.hart, f) {
        Some(e) => Err(e),
        None => Ok(handle_trap(k, f)),
    }
}

/// The trap vector, for a trap of any cause.
///
/// The registers are saved as a trap frame on the kernel stack of the
/// running process in every case. A trap that is no environment call from
/// user mode, or one whose `a3` names no system call, ends there: no
/// system call is made, `sepc` is not written, the hart stays in
/// supervisor mode and does not return to the program, and the error says
/// why. Every other trap is served as `kernel_entry` serves it.
pub fn kernel_trap(k: &mut Kernel) -> (r: Result<SyscallOutcome, TrapError>)
    requires
        old(k).wf(),
        old(k).hart.sscratch == stack_top_of(old(k).pm.stack_top, old(k).pm.current as int),
        trap_error(old(k).hart, old(k).hart.regs).is_none() ==> old(k).hart.sepc + 4 <= u32::MAX,
    ensures
        final(k).wf(),
        match r {
            Err(e) => {
                &&& trap_error(old(k).hart, old(k).hart.regs) == Some(e)
                &&& trap_entered(*old(k), *final(k))
                &&& final(k).hart.sepc == old(k).hart.sepc
                &&& !final(k).hart.user_mode
            },
            Ok(out) => {
                &&& trap_error(old(k).hart, old(k).hart.regs).is_none()
                &&& exists|entered: Kernel, served: Kernel, f: TrapFrame|
                    trap_entered(*old(k), entered) && syscall_spec(
                        entered,
                        served,
                        old(k).hart.regs,
                        f,
                        out,
                    ) && trap_left(
                        served,
                        *final(k),
                        f,
                        old(k).pm.current as int,
                        old(k).hart.sepc,
                        out,
                    )
                &&& completes(out) ==> {
                    &&& final(k).hart.sepc == old(k).hart.sepc + 4
                    &&& final(k).hart.pc == old(k).hart.sepc + 4
                    &&& final(k).hart.user_mode
                    &&& final(k).hart.regs == (TrapFrame {
                        a0: final(k).hart.regs.a0,
                        ..old(k).hart.regs
                    })
                }
            },
        },
{
    let frame = k.hart.regs;
    match check_trap(&k.hart, &frame) {
        Some(e) => {
            enter_trap(k);
            Err(e)
        },
        None => Ok(kernel_entry(k)),
    }
}

} // verus!
