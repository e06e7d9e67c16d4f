//! The process table and the cooperative scheduler.
//!
//! The table has a fixed number of slots; slot 0 is the idle process. Each
//! slot embeds its kernel stack. The kernel stacks lie one below the other
//! under the top of the boot stack, slot 0 highest, so that the idle
//! process runs on the stack that the kernel booted on.

use vstd::prelude::*;
use crate::common::{Console, PAddr, VAddr};
use crate::hart::{context_words, with_context, Hart};
use crate::memory::{alloc_pages, PhysMemory, SATP_SV32};
use crate::space::{
    build_space, kernel_space, kernel_tables, lemma_fresh_root, lemma_idle_placed,
    lemma_index_set_finite, lemma_untouched_kept, map_identity, pages_for_create, pages_for_init,
    process_space, tables_placed, untouched, KERNEL_FLAGS,
};

verus! {

/// Number of slots in the process table.
pub const PROCS_MAX: usize = 8;

/// Virtual address at which a user image is mapped.
pub const USER_BASE: u32 = 0x0100_0000;

/// Pid of the idle process.
pub const IDLE_PID: u32 = 0xFFFF_FFFF;

/// What a slot of the process table holds.
#[derive(Clone, Copy, Debug, PartialEq, Eq, Structural)]
pub enum State {
    /// No process.
    Unused,
    /// A process that can be switched to.
    Runnable,
    /// The idle process.
    Idle,
    /// A process that has exited; the slot is not used again.
    Exited,
}

/// One slot of the process table.
#[derive(Clone, Copy)]
pub struct Process {
    pub pid: u32,
    pub state: State,
    /// The kernel stack pointer saved when the process was switched away
    /// from; it points to the saved registers on `stack`.
    pub sp: VAddr,
    /// Physical address of the root page table.
    pub page_table: PAddr,
    /// The kernel stack, lowest word first.
    pub stack: [u32; 2048],
}

impl Process {
    /// An unused slot: everything zero.
    pub fn new() -> (p: Process)
        ensures
            p.pid == 0,
            p.state == State::Unused,
            p.sp == 0,
            p.page_table == 0,
            p.stack@ == Seq::new(2048, |i: int| 0u32),
    {
        let p = Process { pid: 0, state: State::Unused, sp: 0, page_table: 0, stack: [0u32; 2048] };
        assert(p.stack@ =~= Seq::new(2048, |i: int| 0u32));
        p
    }
}

/// Address of the top of the kernel stack of slot `slot`, where the stacks
/// lie below `stack_top`.
pub open spec fn stack_top_of(stack_top: VAddr, slot: int) -> int {
    stack_top - slot * 8192
}

/// Index in the stack of slot `slot` of the word at address `addr`.
pub open spec fn stack_index(stack_top: VAddr, slot: int, addr: int) -> int {
    (addr - (stack_top_of(stack_top, slot) - 8192)) / 4
}

/// Whether `sp` can be the saved stack pointer of slot `slot`: a word
/// address in that slot's stack with the saved registers above it.
pub open spec fn frame_ok(stack_top: VAddr, slot: int, sp: int) -> bool {
    &&& sp % 4 == 0
    &&& stack_top_of(stack_top, slot) - 8192 <= sp
    &&& sp + 52 <= stack_top_of(stack_top, slot)
}

/// Whether a hart whose stack pointer is `sp` runs on the stack of slot
/// `slot` with room below for the registers that a switch saves.
pub open spec fn on_stack(stack_top: VAddr, slot: int, sp: int) -> bool {
    frame_ok(stack_top, slot, sp - 52)
}

/// `s` with the words of `t` written over it from index `off` on.
pub open spec fn splice_words(s: Seq<u32>, off: int, t: Seq<u32>) -> Seq<u32> {
    Seq::new(s.len(), |k: int| if off <= k < off + t.len() { t[k - off] } else { s[k] })
}

/// The slot that the scheduler looks at in step `i` of its search, when
/// `current` is running: the slots are taken in table order, starting one
/// past `current` and wrapping round.
pub open spec fn candidate(current: int, i: int) -> int {
    (current + i + 1) % 8
}

/// The slot that the search picks from step `i` on: the first candidate
/// that is runnable, and the idle slot where there is none.
pub open spec fn pick_from(states: Seq<State>, current: int, i: int) -> int
    decreases 8 - i,
{
    if i < 0 || i >= 8 {
        0
    } else if states[candidate(current, i)] == State::Runnable {
        candidate(current, i)
    } else {
        pick_from(states, current, i + 1)
    }
}

/// The slot that runs after `current` yields.
pub open spec fn spec_pick_next(states: Seq<State>, current: int) -> int {
    pick_from(states, current, 0)
}

/// The process table, and which of its slots is running.
pub struct ProcessManager {
    pub procs: [Process; 8],
    pub current: usize,
    /// Top of the boot stack; set by `init`.
    pub stack_top: VAddr,
}

impl ProcessManager {
    /// The states of the slots, in table order.
    pub open spec fn states(&self) -> Seq<State> {
        Seq::new(8, |i: int| self.procs@[i].state)
    }

    /// The table is in working order: `current` names a slot that holds a
    /// process; the kernel stacks have room below the top of the boot stack;
    /// slot 0 holds a process and no other slot is idle; every slot that
    /// holds a process has a saved stack pointer within its own stack;
    /// unused slots have a zeroed stack.
    pub open spec fn wf(&self) -> bool {
        &&& self.current < 8
        &&& self.stack_top % 4 == 0
        &&& self.stack_top >= 8 * 8192
        &&& self.procs@[0].state != State::Unused
        &&& self.procs@[self.current as int].state != State::Unused
        &&& forall|i: int| 0 <= i < 8 && (#[trigger] self.procs@[i]).state == State::Idle ==> i == 0
        &&& forall|i: int|
            0 <= i < 8 && (#[trigger] self.procs@[i]).state != State::Unused ==> frame_ok(
                self.stack_top,
                i,
                self.procs@[i].sp as int,
            )
        &&& forall|i: int|
            0 <= i < 8 && (#[trigger] self.procs@[i]).state == State::Unused
                ==> self.procs@[i].stack@ == Seq::new(2048, |k: int| 0u32)
    }

    /// The slot that runs after the current process yields.
    pub open spec fn next(&self) -> int {
        spec_pick_next(self.states(), self.current as int)
    }

    /// The registers that slot `slot` saved at its stack pointer.
    pub open spec fn saved_context(&self, slot: int) -> Seq<u32> {
        let idx = stack_index(self.stack_top, slot, self.procs@[slot].sp as int);
        self.procs@[slot].stack@.subrange(idx, idx + 13)
    }

    /// A table with every slot unused but slot 0, which is the idle
    /// process; slot 0 is running.
    pub fn new() -> (pm: ProcessManager)
        ensures
            pm.current == 0,
            pm.stack_top == 0,
            pm.procs@[0].state == State::Idle,
            forall|i: int| 1 <= i < 8 ==> (#[trigger] pm.procs@[i]).state == State::Unused,
            forall|i: int|
                0 <= i < 8 ==> {
                    &&& (#[trigger] pm.procs@[i]).pid == 0
                    &&& pm.procs@[i].sp == 0
                    &&& pm.procs@[i].page_table == 0
                    &&& pm.procs@[i].stack@ == Seq::new(2048, |k: int| 0u32)
                },
    {
        let mut pm = ProcessManager { procs: [Process::new(); 8], current: 0, stack_top: 0 };
        pm.procs[0].state = State::Idle;
        pm
    }

    /// Finds the slot that runs after the current process yields: the first
    /// runnable slot after `current` in table order, wrapping round, and the
    /// idle slot where no slot is runnable.
    pub fn pick_next(&self) -> (next: usize)
        requires
            self.current < 8,
        ensures
            next == self.next(),
            next < 8,
    {
        let mut i: usize = 0;
        while i < PROCS_MAX
            invariant
                i <= 8,
                self.current < 8,
                self.next() == pick_from(self.states(), self.current as int, i as int),
            decreases 8 - i,
        {
            let idx = (self.current + i + 1) % PROCS_MAX;
            if self.procs[idx].state == State::Runnable {
                return idx;
            }
            i += 1;
        }
        0
    }
}

/// `post` and `post_hart` are the process table `pre` and the hart
/// `pre_hart` after a context switch from slot `prev` to slot `next`.
///
/// The switch pushes `ra` and `s0` to `s11` onto the stack that the hart
/// runs on, which is that of `prev`, and saves the resulting stack pointer
/// in `prev`. Then it takes the stack pointer saved in `next`, pops the
/// thirteen registers from there, and leaves the stack pointer above them.
/// Nothing else changes: no other slot, no other register.
pub open spec fn switched(
    pre: ProcessManager,
    pre_hart: Hart,
    post: ProcessManager,
    post_hart: Hart,
    prev: int,
    next: int,
) -> bool {
    let sp = pre_hart.regs.sp - 52;
    let idx = stack_index(pre.stack_top, prev, sp);
    &&& post.current == pre.current
    &&& post.stack_top == pre.stack_top
    &&& forall|i: int| 0 <= i < 8 && i != prev ==> #[trigger] post.procs@[i] == pre.procs@[i]
    &&& post.procs@[prev].pid == pre.procs@[prev].pid
    &&& post.procs@[prev].state == pre.procs@[prev].state
    &&& post.procs@[prev].page_table == pre.procs@[prev].page_table
    &&& post.procs@[prev].sp == sp
    &&& post.procs@[prev].stack@ == splice_words(
        pre.procs@[prev].stack@,
        idx,
        context_words(pre_hart.regs),
    )
    &&& post_hart == (Hart {
        regs: with_context(
            pre_hart.regs,
            post.saved_context(next),
            (post.procs@[next].sp + 52) as u32,
        ),
        ..pre_hart
    })
}

/// Switches the hart from the process in slot `prev` to the one in slot
/// `next`: saves the callee-saved registers of the one on its stack and
/// loads those of the other, so that `next` goes on where it last left off.
pub fn switch_context(pm: &mut ProcessManager, hart: &mut Hart, prev: usize, next: usize)
    requires
        prev < 8,
        next < 8,
        old(pm).stack_top % 4 == 0,
        old(pm).stack_top >= 8 * 8192,
        on_stack(old(pm).stack_top, prev as int, old(hart).regs.sp as int),
        prev != next ==> frame_ok(
            old(pm).stack_top,
            next as int,
            old(pm).procs@[next as int].sp as int,
        ),
    ensures
        switched(*old(pm), *old(hart), *final(pm), *final(hart), prev as int, next as int),
{
    let bottom: u32 = pm.stack_top - (prev as u32) * 8192 - 8192;
    let sp: u32 = hart.regs.sp - 52;
    let idx: usize = ((sp - bottom) / 4) as usize;
    let ctx: [u32; 13] = [
        hart.regs.ra,
        hart.regs.s0,
        hart.regs.s1,
        hart.regs.s2,
        hart.regs.s3,
        hart.regs.s4,
        hart.regs.s5,
        hart.regs.s6,
        hart.regs.s7,
        hart.regs.s8,
        hart.regs.s9,
        hart.regs.s10,
        hart.regs.s11,
    ];
    assert(ctx@ =~= context_words(hart.regs));
    let mut k: usize = 0;
    while k < 13
        invariant
            k <= 13,
            prev < 8,
            idx + 13 <= 2048,
            pm.current == old(pm).current,
            pm.stack_top == old(pm).stack_top,
            forall|i: int| 0 <= i < 8 && i != prev ==> #[trigger] pm.procs@[i] == old(pm).procs@[i],
            pm.procs@[prev as int].pid == old(pm).procs@[prev as int].pid,
            pm.procs@[prev as int].state == old(pm).procs@[prev as int].state,
            pm.procs@[prev as int].page_table == old(pm).procs@[prev as int].page_table,
            pm.procs@[prev as int].sp == old(pm).procs@[prev as int].sp,
            pm.procs@[prev as int].stack@ == splice_words(
                old(pm).procs@[prev as int].stack@,
                idx as int,
                ctx@.take(k as int),
            ),
        decreases 13 - k,
    {
        pm.procs[prev].stack[idx + k] = ctx[k];
        k += 1;
    }
    assert(ctx@.take(13) =~= ctx@);
    pm.procs[prev].sp = sp;
    let next_sp: u32 = pm.procs[next].sp;
    let next_bottom: u32 = pm.stack_top - (next as u32) * 8192 - 8192;
    let n: usize = ((next_sp - next_bottom) / 4) as usize;
    let ghost saved = pm.saved_context(next as int);
    hart.regs.ra = pm.procs[next].stack[n];
    hart.regs.s0 = pm.procs[next].stack[n + 1];
    hart.regs.s1 = pm.procs[next].stack[n + 2];
    hart.regs.s2 = pm.procs[next].stack[n + 3];
    hart.regs.s3 = pm.procs[next].stack[n + 4];
    hart.regs.s4 = pm.procs[next].stack[n + 5];
    hart.regs.s5 = pm.procs[next].stack[n + 6];
    hart.regs.s6 = pm.procs[next].stack[n + 7];
    hart.regs.s7 = pm.procs[next].stack[n + 8];
    hart.regs.s8 = pm.procs[next].stack[n + 9];
    hart.regs.s9 = pm.procs[next].stack[n + 10];
    hart.regs.s10 = pm.procs[next].stack[n + 11];
    hart.regs.s11 = pm.procs[next].stack[n + 12];
    hart.regs.sp = next_sp + 52;
}

/// A process finds its registers as it left them: where slot `a` was
/// switched away from and is later switched back to, and its slot was not
/// touched in between, the hart has the `ra`, `s0` to `s11` and stack
/// pointer that it had when `a` gave it up.
pub proof fn lemma_context_preserved(
    pm0: ProcessManager,
    h0: Hart,
    pm1: ProcessManager,
    h1: Hart,
    pm2: ProcessManager,
    h2: Hart,
    pm3: ProcessManager,
    h3: Hart,
    a: int,
    b: int,
    c: int,
)
    requires
        0 <= a < 8,
        0 <= b < 8,
        0 <= c < 8,
        a != b,
        c != a,
        pm0.stack_top % 4 == 0,
        on_stack(pm0.stack_top, a, h0.regs.sp as int),
        switched(pm0, h0, pm1, h1, a, b),
        pm2.stack_top == pm1.stack_top,
        pm2.procs@[a].sp == pm1.procs@[a].sp,
        pm2.procs@[a].stack@ == pm1.procs@[a].stack@,
        switched(pm2, h2, pm3, h3, c, a),
    ensures
        context_words(h3.regs) == context_words(h0.regs),
        h3.regs.sp == h0.regs.sp,
{
    let sp = h0.regs.sp - 52;
    let idx = stack_index(pm0.stack_top, a, sp);
    assert(0 <= idx && idx + 13 <= 2048);
    assert(pm3.procs@[a] == pm2.procs@[a]);
    assert(pm3.saved_context(a) =~= context_words(h0.regs));
    assert(context_words(h3.regs) =~= context_words(h0.regs));
}

/// `post` and `post_hart` are the process table `pre` and the hart
/// `pre_hart` after the running process has yielded.
///
/// Where the scheduler picks the running process itself, nothing changes.
/// Otherwise `sscratch` holds the top of the kernel stack of the slot
/// picked, `satp` selects its root page table in Sv32 mode, the slot picked
/// is the current one, and the context was switched from the one to the
/// other.
pub open spec fn yielded(
    pre: ProcessManager,
    pre_hart: Hart,
    post: ProcessManager,
    post_hart: Hart,
) -> bool {
    let next = pre.next();
    if next == pre.current {
        post == pre && post_hart == pre_hart
    } else {
        switched(
            ProcessManager { current: next as usize, ..pre },
            Hart {
                sscratch: stack_top_of(pre.stack_top, next) as u32,
                satp: SATP_SV32 | (pre.procs@[next].page_table / 4096),
                ..pre_hart
            },
            post,
            post_hart,
            pre.current as int,
            next,
        )
    }
}

/// The notice of the exit of the process in slot `slot`: `process`, the
/// number of the slot, `exited`, and a newline.
pub open spec fn exit_notice(slot: int) -> Seq<u8> {
    seq![0x70u8, 0x72u8, 0x6fu8, 0x63u8, 0x65u8, 0x73u8, 0x73u8, 0x20u8] + seq![
        (0x30 + slot) as u8,
    ] + seq![0x20u8, 0x65u8, 0x78u8, 0x69u8, 0x74u8, 0x65u8, 0x64u8, 0x0au8]
}

/// `post` is `pre` with the running process marked as exited.
pub open spec fn marked_exited(pre: ProcessManager, post: ProcessManager) -> bool {
    &&& post.current == pre.current
    &&& post.stack_top == pre.stack_top
    &&& forall|i: int| 0 <= i < 8 && i != pre.current ==> #[trigger] post.procs@[i] == pre.procs@[i]
    &&& post.procs@[pre.current as int].state == State::Exited
    &&& post.procs@[pre.current as int].pid == pre.procs@[pre.current as int].pid
    &&& post.procs@[pre.current as int].sp == pre.procs@[pre.current as int].sp
    &&& post.procs@[pre.current as int].page_table == pre.procs@[pre.current as int].page_table
    &&& post.procs@[pre.current as int].stack == pre.procs@[pre.current as int].stack
}

/// The search picks a slot of the table.
pub proof fn lemma_pick_from_bounds(states: Seq<State>, current: int, i: int)
    requires
        0 <= current < 8,
        0 <= i,
    ensures
        0 <= pick_from(states, current, i) < 8,
        pick_from(states, current, i) == 0 || states[pick_from(states, current, i)]
            == State::Runnable,
    decreases 8 - i,
{
    if i < 8 && states[candidate(current, i)] != State::Runnable {
        lemma_pick_from_bounds(states, current, i + 1);
    }
}

impl ProcessManager {
    /// Gives up the hart: the scheduler picks the slot to run next, and
    /// unless that is the running process itself, the hart is switched to
    /// it.
    pub fn yield_(&mut self, hart: &mut Hart)
        requires
            old(self).wf(),
            old(self).next() != old(self).current ==> on_stack(
                old(self).stack_top,
                old(self).current as int,
                old(hart).regs.sp as int,
            ),
        ensures
            final(self).wf(),
            yielded(*old(self), *old(hart), *final(self), *final(hart)),
    {
        let next = self.pick_next();
        proof {
            lemma_pick_from_bounds(self.states(), self.current as int, 0);
        }
        if next == self.current {
            return;
        }
        hart.sscratch = self.stack_top - (next as u32) * 8192;
        hart.satp = SATP_SV32 | (self.procs[next].page_table / 4096);
        let prev = self.current;
        self.current = next;
        switch_context(self, hart, prev, next);
    }

    /// Ends the running process: says so on the console, marks the slot of
    /// the process as exited, and yields. Returns the slot that exited. An
    /// exited slot is never picked again.
    pub fn exit(&mut self, hart: &mut Hart, console: &mut Console) -> (slot: usize)
        requires
            old(self).wf(),
            on_stack(old(self).stack_top, old(self).current as int, old(hart).regs.sp as int),
        ensures
            final(self).wf(),
            slot == old(self).current,
            final(console).out@ == old(console).out@ + exit_notice(slot as int),
            final(console).input@ == old(console).input@,
            final(self).procs@[slot as int].state == State::Exited,
            exists|mid: ProcessManager|
                marked_exited(*old(self), mid) && yielded(
                    mid,
                    *old(hart),
                    *final(self),
                    *final(hart),
                ),
    {
        let slot = self.current;
        let head: [u8; 8] = [0x70, 0x72, 0x6f, 0x63, 0x65, 0x73, 0x73, 0x20];
        let tail: [u8; 8] = [0x20, 0x65, 0x78, 0x69, 0x74, 0x65, 0x64, 0x0a];
        let digit: [u8; 1] = [0x30 + slot as u8];
        console.write(&head);
        console.write(&digit);
        console.write(&tail);
        assert(console.out@ =~= old(console).out@ + exit_notice(slot as int));
        self.procs[slot].state = State::Exited;
        let ghost mid = *self;
        assert(marked_exited(*old(self), mid));
        self.yield_(hart);
        slot
    }
}

/// The search picks the first runnable candidate: where the candidate of
/// step `k` is runnable and none of an earlier step from `i` on is, the
/// search from step `i` picks it.
pub proof fn lemma_pick_from_first(states: Seq<State>, current: int, i: int, k: int)
    requires
        0 <= i <= k < 8,
        states[candidate(current, k)] == State::Runnable,
        forall|j: int| i <= j < k ==> states[candidate(current, j)] != State::Runnable,
    ensures
        pick_from(states, current, i) == candidate(current, k),
    decreases k - i,
{
    if i < k {
        lemma_pick_from_first(states, current, i + 1, k);
    }
}

/// Where no candidate from step `i` on is runnable, the search picks the
/// idle slot.
pub proof fn lemma_pick_from_none(states: Seq<State>, current: int, i: int)
    requires
        0 <= i,
        forall|j: int| i <= j < 8 ==> states[candidate(current, j)] != State::Runnable,
    ensures
        pick_from(states, current, i) == 0,
    decreases 8 - i,
{
    if i < 8 {
        lemma_pick_from_none(states, current, i + 1);
    }
}

/// The number of the step at which the search that starts after `current`
/// looks at slot `slot`.
pub open spec fn step_of(current: int, slot: int) -> int {
    (slot - current - 1 + 8) % 8
}

/// The search that starts after `current` picks the runnable slot that
/// comes first after `current` in table order, wrapping round; `current`
/// itself comes last.
pub proof fn lemma_pick_next_first(states: Seq<State>, current: int, slot: int)
    requires
        0 <= current < 8,
        0 <= slot < 8,
        states[slot] == State::Runnable,
        forall|j: int|
            0 <= j < 8 && states[j] == State::Runnable ==> step_of(current, slot) <= step_of(
                current,
                j,
            ),
    ensures
        spec_pick_next(states, current) == slot,
{
    let k = step_of(current, slot);
    assert(candidate(current, k) == slot);
    assert forall|j: int| 0 <= j < k implies states[candidate(current, j)]
        != State::Runnable by {
        let c = candidate(current, j);
        assert(step_of(current, c) == j);
    }
    lemma_pick_from_first(states, current, 0, k);
}

/// With exactly two runnable slots, yielding takes turns between them:
/// after the one runs the other, and the idle slot is never picked.
pub proof fn lemma_two_runnable_alternate(states: Seq<State>, a: int, b: int)
    requires
        0 <= a < 8,
        0 <= b < 8,
        a != b,
        forall|j: int| 0 <= j < 8 ==> (states[j] == State::Runnable <==> (j == a || j == b)),
    ensures
        spec_pick_next(states, a) == b,
        spec_pick_next(states, b) == a,
        forall|c: int|
            0 <= c < 8 ==> #[trigger] spec_pick_next(states, c) == a || spec_pick_next(states, c)
                == b,
{
    lemma_pick_next_first(states, a, b);
    lemma_pick_next_first(states, b, a);
    assert forall|c: int| 0 <= c < 8 implies #[trigger] spec_pick_next(states, c) == a
        || spec_pick_next(states, c) == b by {
        if step_of(c, a) <= step_of(c, b) {
            lemma_pick_next_first(states, c, a);
        } else {
            lemma_pick_next_first(states, c, b);
        }
    }
}

/// With exactly one runnable slot, that slot is picked whoever yields; when
/// it yields itself, it is picked again, so that yielding changes nothing.
pub proof fn lemma_one_runnable(states: Seq<State>, a: int)
    requires
        0 <= a < 8,
        forall|j: int| 0 <= j < 8 ==> (states[j] == State::Runnable <==> j == a),
    ensures
        forall|c: int| 0 <= c < 8 ==> #[trigger] spec_pick_next(states, c) == a,
{
    assert forall|c: int| 0 <= c < 8 implies #[trigger] spec_pick_next(states, c) == a by {
        lemma_pick_next_first(states, c, a);
    }
}

/// With no runnable slot, the idle slot is picked.
pub proof fn lemma_none_runnable(states: Seq<State>, current: int)
    requires
        0 <= current < 8,
        forall|j: int| 0 <= j < 8 ==> states[j] != State::Runnable,
    ensures
        spec_pick_next(states, current) == 0,
{
    assert forall|j: int| 0 <= j < 8 implies states[candidate(current, j)]
        != State::Runnable by {}
    lemma_pick_from_none(states, current, 0);
}

/// A slot that is not runnable is picked only as the idle slot: an exited
/// process is never switched to again.
pub proof fn lemma_exited_never_picked(states: Seq<State>, current: int, slot: int)
    requires
        0 <= current < 8,
        1 <= slot < 8,
        states[slot] != State::Runnable,
    ensures
        spec_pick_next(states, current) != slot,
{
    lemma_pick_from_bounds(states, current, 0);
}

/// Index in a kernel stack of the lowest of the thirteen words that a new
/// process starts from.
pub const SEED_INDEX: usize = 2035;

/// The stack of a process that has not run yet: zeros, but for the return
/// address `ra` in the lowest of the thirteen words at its top.
pub open spec fn seeded_stack(ra: u32) -> Seq<u32> {
    Seq::new(2048, |k: int| if k == 2035 { ra } else { 0u32 })
}

impl ProcessManager {
    /// The table is as `new` makes it: slot 0 is the idle process and is
    /// running, every other slot is unused with a zeroed stack.
    pub open spec fn fresh(&self) -> bool {
        &&& self.current == 0
        &&& self.procs@[0].state == State::Idle
        &&& self.procs@[0].stack@ == Seq::new(2048, |k: int| 0u32)
        &&& forall|i: int|
            1 <= i < 8 ==> {
                &&& (#[trigger] self.procs@[i]).state == State::Unused
                &&& self.procs@[i].stack@ == Seq::new(2048, |k: int| 0u32)
            }
    }

    /// Completes the idle process in slot 0.
    ///
    /// Its kernel stack gets the thirteen zero words that a first switch to
    /// it pops, and its saved stack pointer points to them. It gets a root
    /// page table of its own, in which the kernel window is mapped onto
    /// itself. The table takes note of where the kernel stacks lie.
    pub fn init(&mut self, mem: &mut PhysMemory)
        requires
            old(self).fresh(),
            old(mem).wf(),
            old(mem).map.stack_top % 4 == 0,
            old(mem).map.stack_top >= 8 * 8192,
            old(mem).free_pages() >= pages_for_init(old(mem).map),
        ensures
            final(self).wf(),
            final(self).current == 0,
            final(self).stack_top == old(mem).map.stack_top,
            forall|i: int| 1 <= i < 8 ==> #[trigger] final(self).procs@[i] == old(self).procs@[i],
            final(self).procs@[0].pid == IDLE_PID,
            final(self).procs@[0].state == State::Idle,
            final(self).procs@[0].sp == old(mem).map.stack_top - 52,
            final(self).procs@[0].page_table == old(mem).next_paddr,
            final(self).procs@[0].stack@ == seeded_stack(0),
            final(mem).wf(),
            final(mem).map == old(mem).map,
            final(mem).next_paddr == old(mem).next_paddr + 4096 * pages_for_init(old(mem).map),
            final(mem).space_wf(old(mem).next_paddr),
            kernel_space(*final(mem), old(mem).next_paddr),
            tables_placed(*final(mem), old(mem).next_paddr, old(mem).next_paddr as int),
            untouched(*old(mem), *final(mem), old(mem).next_paddr),
    {
        let ghost need = kernel_tables(mem.map);
        proof {
            lemma_index_set_finite(need);
        }
        self.stack_top = mem.map.stack_top;
        let mut k: usize = 0;
        while k < 13
            invariant
                k <= 13,
                self.current == old(self).current,
                self.stack_top == old(mem).map.stack_top,
                forall|i: int| 1 <= i < 8 ==> #[trigger] self.procs@[i] == old(self).procs@[i],
                self.procs@[0].state == State::Idle,
                self.procs@[0].stack@ == Seq::new(2048, |k: int| 0u32),
            decreases 13 - k,
        {
            self.procs[0].stack[SEED_INDEX + k] = 0;
            assert(self.procs@[0].stack@ =~= Seq::new(2048, |k: int| 0u32));
            k += 1;
        }
        assert(self.procs@[0].stack@ =~= seeded_stack(0));
        let page_table = alloc_pages(mem, 1);
        let ghost r0 = *mem;
        proof {
            lemma_fresh_root(*old(mem), r0, page_table);
        }
        map_identity(
            mem,
            page_table,
            mem.map.kernel_base,
            mem.map.free_ram_end,
            KERNEL_FLAGS,
            Ghost(need),
            Ghost(0),
        );
        proof {
            assert(mem.tables(page_table) =~= need);
            lemma_untouched_kept(*old(mem), r0, *mem, page_table);
            lemma_idle_placed(r0, *mem, page_table);
        }
        self.procs[0].pid = IDLE_PID;
        self.procs[0].state = State::Idle;
        self.procs[0].sp = self.stack_top - 52;
        self.procs[0].page_table = page_table;
    }
}

/// The first unused slot from `i` on, if there is one.
pub open spec fn first_unused_from(states: Seq<State>, i: int) -> Option<int>
    decreases states.len() - i,
{
    if i < 0 || i >= states.len() {
        None
    } else if states[i] == State::Unused {
        Some(i)
    } else {
        first_unused_from(states, i + 1)
    }
}

/// The first unused slot of the table, if there is one.
pub open spec fn first_unused(states: Seq<State>) -> Option<int> {
    first_unused_from(states, 0)
}

/// The first unused slot, where there is one, is a slot that is unused.
pub proof fn lemma_first_unused(states: Seq<State>, i: int)
    requires
        0 <= i,
    ensures
        match first_unused_from(states, i) {
            Some(k) => i <= k < states.len() && states[k] == State::Unused,
            None => forall|j: int| i <= j < states.len() ==> states[j] != State::Unused,
        },
    decreases states.len() - i,
{
    if i < states.len() && states[i] != State::Unused {
        lemma_first_unused(states, i + 1);
    }
}

impl ProcessManager {
    /// Whether a slot of the table is unused.
    pub fn has_free_slot(&self) -> (b: bool)
        ensures
            b == first_unused(self.states()).is_some(),
    {
        let mut i: usize = 0;
        while i < PROCS_MAX
            invariant
                i <= 8,
                first_unused(self.states()) == first_unused_from(self.states(), i as int),
            decreases 8 - i,
        {
            if self.procs[i].state == State::Unused {
                return true;
            }
            i += 1;
        }
        false
    }

    /// Creates a process from the image `image` in the first unused slot.
    ///
    /// The slot's kernel stack gets the thirteen words that the first
    /// switch to it pops: the address of `user_entry` as the return
    /// address, and zeros. The process gets a root page table of its own,
    /// in which the kernel window and the virtio page are mapped onto
    /// themselves and the image is mapped from `USER_BASE` on, each of its
    /// pages copied to a fresh page of memory; what the last page lacks is
    /// zero. The process has its slot's number as pid and is runnable.
    pub fn create(&mut self, mem: &mut PhysMemory, image: &[u8])
        requires
            old(self).wf(),
            old(mem).wf(),
            old(self).stack_top == old(mem).map.stack_top,
            first_unused(old(self).states()).is_some(),
            image@.len() <= 0xFF00_0000,
            old(mem).free_pages() >= pages_for_create(old(mem).map, image@.len() as int),
        ensures
            final(self).wf(),
            final(self).current == old(self).current,
            final(self).stack_top == old(self).stack_top,
            forall|i: int|
                0 <= i < 8 && i != first_unused(old(self).states()).unwrap()
                    ==> #[trigger] final(self).procs@[i] == old(self).procs@[i],
            ({
                let slot = first_unused(old(self).states()).unwrap();
                let p = final(self).procs@[slot];
                &&& p.pid == slot
                &&& p.state == State::Runnable
                &&& p.sp == stack_top_of(old(self).stack_top, slot) - 52
                &&& p.page_table == old(mem).next_paddr
                &&& p.stack@ == seeded_stack(old(mem).map.user_entry)
            }),
            final(mem).wf(),
            final(mem).map == old(mem).map,
            final(mem).next_paddr == old(mem).next_paddr + 4096 * pages_for_create(
                old(mem).map,
                image@.len() as int,
            ),
            untouched(*old(mem), *final(mem), old(mem).next_paddr),
            final(mem).space_wf(old(mem).next_paddr),
            process_space(*final(mem), old(mem).next_paddr, image@, old(mem).next_paddr as int),
            tables_placed(*final(mem), old(mem).next_paddr, old(mem).next_paddr as int),
    {
        proof {
            lemma_first_unused(self.states(), 0);
        }
        let mut slot: usize = 0;
        while slot < PROCS_MAX && self.procs[slot].state != State::Unused
            invariant
                slot <= 8,
                first_unused(self.states()) == first_unused_from(self.states(), slot as int),
                first_unused(self.states()).is_some(),
            decreases 8 - slot,
        {
            slot += 1;
        }
        assert(slot == first_unused(self.states()).unwrap());
        assert(self.procs@[slot as int].state == State::Unused);
        assert(1 <= slot < 8);
        let mut k: usize = 0;
        while k < 13
            invariant
                k <= 13,
                1 <= slot < 8,
                self.current == old(self).current,
                self.stack_top == old(self).stack_top,
                forall|i: int|
                    0 <= i < 8 && i != slot ==> #[trigger] self.procs@[i] == old(self).procs@[i],
                self.procs@[slot as int].state == State::Unused,
                self.procs@[slot as int].stack@ == Seq::new(2048, |k: int| 0u32),
            decreases 13 - k,
        {
            self.procs[slot].stack[SEED_INDEX + k] = 0;
            assert(self.procs@[slot as int].stack@ =~= Seq::new(2048, |k: int| 0u32));
            k += 1;
        }
        self.procs[slot].stack[SEED_INDEX] = mem.map.user_entry;
        assert(self.procs@[slot as int].stack@ =~= seeded_stack(mem.map.user_entry));
        let page_table = build_space(mem, image);
        self.procs[slot].pid = slot as u32;
        self.procs[slot].state = State::Runnable;
        self.procs[slot].sp = self.stack_top - (slot as u32) * 8192 - 52;
        self.procs[slot].page_table = page_table;
    }
}

} // verus!
