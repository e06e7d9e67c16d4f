//! The state of the hart that the kernel runs on: its general-purpose
//! registers and the supervisor control and status registers that the
//! kernel reads and writes.

use vstd::prelude::*;
use crate::common::TrapFrame;

verus! {

/// `scause` value of an environment call from user mode.
pub const SCAUSE_ECALL: u32 = 8;

/// `sstatus` bit: interrupts are enabled after the next `sret`.
pub const SSTATUS_SPIE: u32 = 0x20;

/// `sstatus` bit: supervisor mode may access user pages.
pub const SSTATUS_SUM: u32 = 0x4_0000;

/// A hart: registers, program counter, privilege mode and the supervisor
/// registers that the kernel uses.
#[derive(Clone, Copy, Debug, PartialEq, Eq, Structural)]
pub struct Hart {
    /// The general-purpose registers.
    pub regs: TrapFrame,
    /// The program counter.
    pub pc: u32,
    /// Whether the hart runs in user mode.
    pub user_mode: bool,
    pub sscratch: u32,
    pub sepc: u32,
    pub scause: u32,
    pub stval: u32,
    pub satp: u32,
    pub sstatus: u32,
    pub stvec: u32,
}

/// The registers that a context switch saves, in the order in which they
/// lie on the stack, lowest address first: `ra`, then `s0` to `s11`.
pub open spec fn context_words(regs: TrapFrame) -> Seq<u32> {
    seq![
        regs.ra,
        regs.s0,
        regs.s1,
        regs.s2,
        regs.s3,
        regs.s4,
        regs.s5,
        regs.s6,
        regs.s7,
        regs.s8,
        regs.s9,
        regs.s10,
        regs.s11,
    ]
}

/// The registers `regs` with `ra` and `s0` to `s11` taken from the saved
/// words `w`, and the stack pointer set to `sp`.
pub open spec fn with_context(regs: TrapFrame, w: Seq<u32>, sp: u32) -> TrapFrame {
    TrapFrame {
        ra: w[0],
        s0: w[1],
        s1: w[2],
        s2: w[3],
        s3: w[4],
        s4: w[5],
        s5: w[6],
        s6: w[7],
        s7: w[8],
        s8: w[9],
        s9: w[10],
        s10: w[11],
        s11: w[12],
        sp: sp,
        ..regs
    }
}

impl Hart {
    /// A hart at reset: every register zero, in supervisor mode.
    pub fn new() -> (h: Hart)
        ensures
            h.regs == zero_frame(),
            h.pc == 0,
            !h.user_mode,
            h.sscratch == 0,
            h.sepc == 0,
            h.scause == 0,
            h.stval == 0,
            h.satp == 0,
            h.sstatus == 0,
            h.stvec == 0,
    {
        Hart {
            regs: TrapFrame {
                ra: 0,
                gp: 0,
                tp: 0,
                t0: 0,
                t1: 0,
                t2: 0,
                t3: 0,
                t4: 0,
                t5: 0,
                t6: 0,
                a0: 0,
                a1: 0,
                a2: 0,
                a3: 0,
                a4: 0,
                a5: 0,
                a6: 0,
                a7: 0,
                s0: 0,
                s1: 0,
                s2: 0,
                s3: 0,
                s4: 0,
                s5: 0,
                s6: 0,
                s7: 0,
                s8: 0,
                s9: 0,
                s10: 0,
                s11: 0,
                sp: 0,
            },
            pc: 0,
            user_mode: false,
            sscratch: 0,
            sepc: 0,
            scause: 0,
            stval: 0,
            satp: 0,
            sstatus: 0,
            stvec: 0,
        }
    }
}

/// The register set with every register zero.
pub open spec fn zero_frame() -> TrapFrame {
    TrapFrame {
        ra: 0,
        gp: 0,
        tp: 0,
        t0: 0,
        t1: 0,
        t2: 0,
        t3: 0,
        t4: 0,
        t5: 0,
        t6: 0,
        a0: 0,
        a1: 0,
        a2: 0,
        a3: 0,
        a4: 0,
        a5: 0,
        a6: 0,
        a7: 0,
        s0: 0,
        s1: 0,
        s2: 0,
        s3: 0,
        s4: 0,
        s5: 0,
        s6: 0,
        s7: 0,
        s8: 0,
        s9: 0,
        s10: 0,
        s11: 0,
        sp: 0,
    }
}

/// The registers of a trap frame in the order in which the trap entry
/// stores them, lowest address first.
pub open spec fn frame_words(f: TrapFrame) -> Seq<u32> {
    seq![
        f.ra,
        f.gp,
        f.tp,
        f.t0,
        f.t1,
        f.t2,
        f.t3,
        f.t4,
        f.t5,
        f.t6,
        f.a0,
        f.a1,
        f.a2,
        f.a3,
        f.a4,
        f.a5,
        f.a6,
        f.a7,
        f.s0,
        f.s1,
        f.s2,
        f.s3,
        f.s4,
        f.s5,
        f.s6,
        f.s7,
        f.s8,
        f.s9,
        f.s10,
        f.s11,
        f.sp,
    ]
}

/// The trap frame that the thirty-one words `w` hold.
pub open spec fn frame_of(w: Seq<u32>) -> TrapFrame {
    TrapFrame {
        ra: w[0],
        gp: w[1],
        tp: w[2],
        t0: w[3],
        t1: w[4],
        t2: w[5],
        t3: w[6],
        t4: w[7],
        t5: w[8],
        t6: w[9],
        a0: w[10],
        a1: w[11],
        a2: w[12],
        a3: w[13],
        a4: w[14],
        a5: w[15],
        a6: w[16],
        a7: w[17],
        s0: w[18],
        s1: w[19],
        s2: w[20],
        s3: w[21],
        s4: w[22],
        s5: w[23],
        s6: w[24],
        s7: w[25],
        s8: w[26],
        s9: w[27],
        s10: w[28],
        s11: w[29],
        sp: w[30],
    }
}

/// A frame that was stored is loaded as it was.
pub proof fn lemma_frame_round_trip(f: TrapFrame)
    ensures
        frame_of(frame_words(f)) == f,
        frame_words(f).len() == 31,
{
}

/// Stores the frame `f` in the thirty-one words of `stack` from index
/// `idx` on.
pub fn store_frame(stack: &mut [u32; 2048], idx: usize, f: &TrapFrame)
    requires
        idx + 31 <= 2048,
    ensures
        final(stack)@.subrange(idx as int, idx + 31) == frame_words(*f),
        forall|k: int|
            0 <= k < 2048 && !(idx <= k < idx + 31) ==> final(stack)@[k] == old(stack)@[k],
{
    let words: [u32; 31] = [
        f.ra,
        f.gp,
        f.tp,
        f.t0,
        f.t1,
        f.t2,
        f.t3,
        f.t4,
        f.t5,
        f.t6,
        f.a0,
        f.a1,
        f.a2,
        f.a3,
        f.a4,
        f.a5,
        f.a6,
        f.a7,
        f.s0,
        f.s1,
        f.s2,
        f.s3,
        f.s4,
        f.s5,
        f.s6,
        f.s7,
        f.s8,
        f.s9,
        f.s10,
        f.s11,
        f.sp,
    ];
    assert(words@ =~= frame_words(*f));
    let mut k: usize = 0;
    while k < 31
        invariant
            k <= 31,
            idx + 31 <= 2048,
            forall|j: int| 0 <= j < k ==> stack@[idx + j] == words@[j],
            forall|j: int| 0 <= j < 2048 && !(idx <= j < idx + k) ==> stack@[j] == old(stack)@[j],
        decreases 31 - k,
    {
        stack[idx + k] = words[k];
        k += 1;
    }
    assert(stack@.subrange(idx as int, idx + 31) =~= words@);
}

/// Loads the frame that the thirty-one words of `stack` from index `idx`
/// on hold.
pub fn load_frame(stack: &[u32; 2048], idx: usize) -> (f: TrapFrame)
    requires
        idx + 31 <= 2048,
    ensures
        f == frame_of(stack@.subrange(idx as int, idx + 31)),
{
    TrapFrame {
        ra: stack[idx],
        gp: stack[idx + 1],
        tp: stack[idx + 2],
        t0: stack[idx + 3],
        t1: stack[idx + 4],
        t2: stack[idx + 5],
        t3: stack[idx + 6],
        t4: stack[idx + 7],
        t5: stack[idx + 8],
        t6: stack[idx + 9],
        a0: stack[idx + 10],
        a1: stack[idx + 11],
        a2: stack[idx + 12],
        a3: stack[idx + 13],
        a4: stack[idx + 14],
        a5: stack[idx + 15],
        a6: stack[idx + 16],
        a7: stack[idx + 17],
        s0: stack[idx + 18],
        s1: stack[idx + 19],
        s2: stack[idx + 20],
        s3: stack[idx + 21],
        s4: stack[idx + 22],
        s5: stack[idx + 23],
        s6: stack[idx + 24],
        s7: stack[idx + 25],
        s8: stack[idx + 26],
        s9: stack[idx + 27],
        s10: stack[idx + 28],
        s11: stack[idx + 29],
        sp: stack[idx + 30],
    }
}

/// `post` is the hart `pre` after `sret`: it runs in user mode at the
/// address that `sepc` holds.
pub open spec fn sret_done(pre: Hart, post: Hart) -> bool {
    post == (Hart { pc: pre.sepc, user_mode: true, ..pre })
}

/// Returns from supervisor mode: the hart goes on in user mode at the
/// address in `sepc`.
pub fn sret(hart: &mut Hart)
    ensures
        sret_done(*old(hart), *final(hart)),
{
    hart.pc = hart.sepc;
    hart.user_mode = true;
}

/// The trampoline that a new process first returns to: it sets `sepc` to
/// the start of the user image and `sstatus` so that interrupts are
/// enabled in user mode and the supervisor may access user memory, and
/// drops to user mode. It uses `a0` as scratch.
pub fn user_entry(hart: &mut Hart)
    ensures
        *final(hart) == (Hart {
            sepc: 0x0100_0000,
            sstatus: 0x4_0020,
            pc: 0x0100_0000,
            user_mode: true,
            regs: TrapFrame { a0: 0x4_0020, ..old(hart).regs },
            ..*old(hart)
        }),
{
    hart.regs.a0 = 0x0100_0000;
    hart.sepc = hart.regs.a0;
    hart.regs.a0 = SSTATUS_SPIE | SSTATUS_SUM;
    assert(0x20u32 | 0x4_0000u32 == 0x4_0020u32) by (bit_vector);
    hart.sstatus = hart.regs.a0;
    sret(hart);
}

} // verus!
