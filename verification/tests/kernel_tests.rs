use rv32_kernel::common::{Console, TrapFrame};
use rv32_kernel::fs::{fs_check, fs_init, File, FileSystem};
use rv32_kernel::hart::{user_entry, Hart};
use rv32_kernel::kernel::{
    boot, check_trap, handle_syscall, handle_trap, is_ecall, kernel_entry, kernel_idle,
    kernel_main, kernel_resume, kernel_trap, try_handle_trap, Kernel, SyscallOutcome, TrapError,
    NOT_FOUND,
};
use rv32_kernel::memory::{MemoryMap, PhysMemory, SATP_SV32};
use rv32_kernel::process::{State, USER_BASE};
use rv32_kernel::space::{create_pages, init_pages};
use rv32_kernel::usermem::{copy_from_user, copy_to_user};
use rv32_kernel::virtio::{Virtio, VirtioMmio};

const NAME_AT: u32 = USER_BASE + 0x100;
const BUF_AT: u32 = USER_BASE + 0x200;
const HELLO_AT: u32 = USER_BASE + 0x300;
const MISSING_AT: u32 = USER_BASE + 0x400;

fn map() -> MemoryMap {
    MemoryMap {
        kernel_base: 0x8020_0000,
        free_ram: 0x8024_0000,
        free_ram_end: 0x8034_0000,
        stack_top: 0x8023_0000,
        user_entry: 0x8020_1000,
        kernel_entry: 0x8020_0100,
    }
}

fn top(slot: u32) -> u32 {
    0x8023_0000 - slot * 8192
}

fn shell_image() -> Vec<u8> {
    let mut image = vec![0u8; 4096];
    image[0x100..0x10a].copy_from_slice(b"lorem.txt\0");
    image[0x200..0x280].copy_from_slice(&[0xcc; 128]);
    image[0x300..0x305].copy_from_slice(b"HELLO");
    image[0x400..0x408].copy_from_slice(b"nothing\0");
    image
}

fn put(disk: &mut [u8; 2560], off: usize, bytes: &[u8]) {
    disk[off..off + bytes.len()].copy_from_slice(bytes);
}

fn lorem_disk() -> [u8; 2560] {
    let mut disk = [0u8; 2560];
    put(&mut disk, 0, b"lorem.txt");
    put(&mut disk, 100, b"0000644\0");
    put(&mut disk, 124, b"00000000032\0");
    disk[156] = b'0';
    put(&mut disk, 257, b"ustar\0");
    put(&mut disk, 263, b"00");
    put(&mut disk, 512, b"Lorem ipsum dolor sit amet");
    disk
}

fn file_store(disk: [u8; 2560]) -> FileSystem {
    let mut fs = FileSystem { files: [File::new(); 2], disk };
    assert!(fs_check(&fs));
    fs_init(&mut fs);
    fs
}

fn start(fs: FileSystem, image: &[u8]) -> Kernel {
    let mem = PhysMemory::new(map());
    assert!(mem.can_alloc(init_pages(&mem.map) + create_pages(&mem.map, image.len())));
    let mut k = kernel_main(mem, fs, Console::new(), image);
    assert_eq!(k.hart.regs.ra, k.mem.map.user_entry);
    user_entry(&mut k.hart);
    k
}

/// The user program makes the system call `a3` at the address where it
/// runs, with the arguments `a0` to `a2`.
fn ecall(k: &mut Kernel, a3: u32, a0: u32, a1: u32, a2: u32) -> SyscallOutcome {
    assert!(k.hart.user_mode);
    k.hart.regs.a0 = a0;
    k.hart.regs.a1 = a1;
    k.hart.regs.a2 = a2;
    k.hart.regs.a3 = a3;
    k.hart.sepc = k.hart.pc;
    k.hart.scause = 8;
    assert!(is_ecall(k.hart.scause));
    kernel_entry(k)
}

fn user_bytes(k: &Kernel, at: u32, n: usize) -> Vec<u8> {
    let root = k.pm.procs[k.pm.current].page_table;
    copy_from_user(&k.mem, root, at, n).unwrap()
}

/// What the device does with the request at the head of the queue.
fn serve(v: &mut Virtio, disk: &mut Vec<u8>) {
    let at = (v.blk_req.sector * 512) as usize;
    if v.blk_req.type_ == 1 {
        disk[at..at + 512].copy_from_slice(&v.blk_req.data);
    } else {
        v.blk_req.data.copy_from_slice(&disk[at..at + 512]);
    }
    v.blk_req.status = 0;
    v.blk_request_vq.used.index = v.blk_request_vq.used.index.wrapping_add(1);
}

fn write_image(v: &mut Virtio, m: &mut VirtioMmio, device: &mut Vec<u8>, image: &[u8; 2560]) {
    for sector in 0..5usize {
        assert!(v.read_write_disk(m, &image[sector * 512..], sector as u64, true));
        serve(v, device);
        assert!(!v.virtq_is_busy());
        let mut none = [0u8; 512];
        assert!(v.complete_request(&mut none, true));
    }
}

fn read_image(v: &mut Virtio, m: &mut VirtioMmio, device: &mut Vec<u8>) -> [u8; 2560] {
    let mut image = [0u8; 2560];
    for sector in 0..5usize {
        let mut buf = [0u8; 512];
        assert!(v.read_write_disk(m, &buf, sector as u64, false));
        serve(v, device);
        assert!(!v.virtq_is_busy());
        assert!(v.complete_request(&mut buf, false));
        image[sector * 512..sector * 512 + 512].copy_from_slice(&buf);
    }
    image
}

#[test]
fn boot_sets_the_stack_pointer() {
    let mut hart = Hart::new();
    hart.regs.a0 = 5;
    boot(&mut hart, &map());
    assert_eq!(hart.regs.sp, 0x8023_0000);
    assert_eq!(hart.regs.a0, 5);
}

#[test]
fn kernel_main_starts_the_shell() {
    let image = shell_image();
    let mem = PhysMemory::new(map());
    let k = kernel_main(mem, file_store(lorem_disk()), Console::new(), &image);
    assert_eq!(k.hart.stvec, 0x8020_0100);
    assert_eq!(k.pm.current, 1);
    assert_eq!(k.pm.procs[0].state, State::Idle);
    assert_eq!(k.pm.procs[1].state, State::Runnable);
    assert_eq!(k.pm.procs[1].pid, 1);
    assert_eq!(k.hart.regs.ra, 0x8020_1000);
    assert_eq!(k.hart.regs.sp, top(1));
    assert_eq!(k.hart.sscratch, top(1));
    assert_eq!(k.hart.satp, SATP_SV32 | (k.pm.procs[1].page_table / 4096));
    assert!(!k.hart.user_mode);
    assert_eq!(user_bytes(&k, USER_BASE, 4096), image);
}

#[test]
fn user_entry_drops_to_user_mode_at_user_base() {
    let mut hart = Hart::new();
    hart.regs.s0 = 7;
    user_entry(&mut hart);
    assert!(hart.user_mode);
    assert_eq!(hart.pc, 0x0100_0000);
    assert_eq!(hart.sepc, 0x0100_0000);
    assert_eq!(hart.sstatus, (1 << 5) | (1 << 18));
    assert_eq!(hart.regs.s0, 7);
}

#[test]
fn hello_shell() {
    let mut k = start(file_store(lorem_disk()), &shell_image());
    for ch in b"hello\n" {
        let pc = k.hart.pc;
        assert_eq!(ecall(&mut k, 1, *ch as u32, 0, 0), SyscallOutcome::Done);
        assert_eq!(k.hart.pc, pc + 4);
        assert!(k.hart.user_mode);
    }
    assert_eq!(k.console.out, b"hello\n".to_vec());
    // the shell goes on to wait for input
    assert_eq!(ecall(&mut k, 2, 0, 0, 0), SyscallOutcome::Blocked);
    assert_eq!(k.pm.current, 1);
    assert_eq!(k.console.out, b"hello\n".to_vec());
}

#[test]
fn putchar_emits_the_low_byte() {
    let mut k = start(file_store(lorem_disk()), &shell_image());
    assert_eq!(ecall(&mut k, 1, 0x1234_5641, 0, 0), SyscallOutcome::Done);
    assert_eq!(k.console.out, vec![0x41]);
    assert_eq!(k.hart.regs.a0, 0x1234_5641);
}

#[test]
fn file_read() {
    let mut k = start(file_store(lorem_disk()), &shell_image());
    let before = k.hart.regs;
    let pc = k.hart.pc;
    assert_eq!(ecall(&mut k, 4, NAME_AT, BUF_AT, 128), SyscallOutcome::Done);
    assert_eq!(k.hart.regs.a0, 26);
    assert_eq!(user_bytes(&k, BUF_AT, 26), b"Lorem ipsum dolor sit amet".to_vec());
    assert_eq!(user_bytes(&k, BUF_AT + 26, 102), vec![0xcc; 102]);
    assert_eq!(k.hart.sepc, pc + 4);
    assert_eq!(k.hart.pc, pc + 4);
    assert!(k.hart.user_mode);
    assert_eq!(k.hart.regs.sp, before.sp);
    assert_eq!(k.hart.regs.s0, before.s0);
    assert_eq!(k.hart.regs.a1, BUF_AT);
    assert_eq!(k.hart.regs.a3, 4);
}

#[test]
fn file_read_is_cut_to_the_buffer() {
    let mut k = start(file_store(lorem_disk()), &shell_image());
    assert_eq!(ecall(&mut k, 4, NAME_AT, BUF_AT, 5), SyscallOutcome::Done);
    assert_eq!(k.hart.regs.a0, 5);
    assert_eq!(user_bytes(&k, BUF_AT, 6), b"Lorem\xcc".to_vec());
    assert_eq!(ecall(&mut k, 4, NAME_AT, BUF_AT, 0), SyscallOutcome::Done);
    assert_eq!(k.hart.regs.a0, 0);
}

#[test]
fn file_calls_report_a_missing_file() {
    let mut k = start(file_store(lorem_disk()), &shell_image());
    let pages = k.mem.pages.clone();
    let disk = k.fs.disk;
    for call in [4u32, 5] {
        let pc = k.hart.pc;
        assert_eq!(ecall(&mut k, call, MISSING_AT, BUF_AT, 128), SyscallOutcome::Done);
        assert_eq!(k.hart.regs.a0, 0xffff_fffe);
        assert_eq!(k.hart.regs.a0, NOT_FOUND);
        assert_eq!(k.hart.pc, pc + 4);
        assert_eq!(user_bytes(&k, BUF_AT, 128), vec![0xcc; 128]);
        assert_eq!(k.fs.files[0].size, 26);
        assert_eq!(&k.fs.files[0].data[..26], b"Lorem ipsum dolor sit amet");
        assert!(!k.fs.files[1].in_use);
        assert_eq!(k.fs.disk[..], disk[..]);
    }
    // only the trap frame on the kernel stack has changed; memory has not
    assert_eq!(k.mem.pages, pages);
}

#[test]
fn file_calls_fault_on_unmapped_pointers() {
    let mut k = start(file_store(lorem_disk()), &shell_image());
    let pages = k.mem.pages.clone();
    let pc = k.hart.pc;
    assert_eq!(ecall(&mut k, 4, USER_BASE + 0x2000, BUF_AT, 128), SyscallOutcome::Fault);
    assert_eq!(k.hart.sepc, pc);
    k.hart.user_mode = true;
    assert_eq!(ecall(&mut k, 4, NAME_AT, USER_BASE + 0xff0, 26), SyscallOutcome::Fault);
    k.hart.user_mode = true;
    assert_eq!(ecall(&mut k, 5, NAME_AT, USER_BASE + 0xfff, 2), SyscallOutcome::Fault);
    assert_eq!(k.mem.pages, pages);
    assert_eq!(k.fs.files[0].size, 26);
}

#[test]
fn file_write_then_reboot() {
    let mut m = VirtioMmio::new(0x7472_6976, 1, 2, 5);
    let mut device = lorem_disk().to_vec();

    // first boot
    let mut mem = PhysMemory::new(map());
    let mut v = Virtio::new(&mut m, &mut mem);
    let image = read_image(&mut v, &mut m, &mut device);
    let fs = file_store(image);
    let mut k = kernel_main(mem, fs, Console::new(), &shell_image());
    user_entry(&mut k.hart);
    assert_eq!(ecall(&mut k, 5, NAME_AT, HELLO_AT, 5), SyscallOutcome::Flush);
    assert_eq!(k.hart.regs.a0, 5);
    assert_eq!(k.fs.files[0].size, 5);
    assert_eq!(&k.fs.files[0].data[..5], b"HELLO");
    assert_eq!(&k.fs.disk[124..136], b"00000000005\0");
    write_image(&mut v, &mut m, &mut device, &k.fs.disk);
    assert_eq!(&device[512..517], b"HELLO");

    // second boot
    let mut m = VirtioMmio::new(0x7472_6976, 1, 2, 5);
    let mut mem = PhysMemory::new(map());
    let mut v = Virtio::new(&mut m, &mut mem);
    let image = read_image(&mut v, &mut m, &mut device);
    let fs = file_store(image);
    assert!(fs.files[0].in_use);
    assert_eq!(&fs.files[0].name[..10], b"lorem.txt\0");
    assert_eq!(fs.files[0].size, 5);
    let mut k = kernel_main(mem, fs, Console::new(), &shell_image());
    user_entry(&mut k.hart);
    assert_eq!(ecall(&mut k, 4, NAME_AT, BUF_AT, 128), SyscallOutcome::Done);
    assert_eq!(k.hart.regs.a0, 5);
    assert_eq!(user_bytes(&k, BUF_AT, 5), b"HELLO".to_vec());
}

#[test]
fn file_write_is_cut_to_the_size_of_the_file() {
    let mut k = start(file_store(lorem_disk()), &shell_image());
    assert_eq!(ecall(&mut k, 5, NAME_AT, BUF_AT, 128), SyscallOutcome::Flush);
    assert_eq!(k.hart.regs.a0, 26);
    assert_eq!(k.fs.files[0].size, 26);
    assert_eq!(&k.fs.files[0].data[..26], &[0xcc; 26][..]);
    assert_eq!(&k.fs.disk[512..538], &[0xcc; 26][..]);
}

#[test]
fn exit_yields_to_idle() {
    let mut k = start(file_store(lorem_disk()), &shell_image());
    assert_eq!(ecall(&mut k, 3, 0, 0, 0), SyscallOutcome::Exited);
    assert_eq!(k.pm.procs[1].state, State::Exited);
    assert_eq!(k.pm.current, 0);
    assert!(!k.hart.user_mode);
    assert_eq!(k.hart.regs.sp, top(0));
    assert_eq!(k.hart.sscratch, top(0));
    assert_eq!(k.console.out, b"process 1 exited\n".to_vec());
    kernel_idle(&mut k.console);
    assert_eq!(k.console.out, b"process 1 exited\nswitched to idle process\n".to_vec());
    // the idle process stays where it is
    k.pm.yield_(&mut k.hart);
    assert_eq!(k.pm.current, 0);
}

#[test]
fn round_robin_with_blocked_reader() {
    let mut k = start(file_store(lorem_disk()), &shell_image());
    assert!(k.mem.can_alloc(create_pages(&k.mem.map, 4096)));
    k.pm.create(&mut k.mem, &shell_image());
    // A is process 1 and prints; B is process 2 and reads
    let a_yields = |k: &mut Kernel| {
        assert_eq!(k.pm.current, 1);
        k.hart.user_mode = false;
        k.hart.regs.sp = top(1) - 128;
        k.hart.regs.ra = 0x8020_0444;
        k.pm.yield_(&mut k.hart);
    };
    a_yields(&mut k);
    assert_eq!(k.pm.current, 2);
    assert_eq!(k.hart.regs.ra, k.mem.map.user_entry);
    user_entry(&mut k.hart);
    let b_pc = k.hart.pc;
    k.hart.regs.s1 = 0xb1;
    assert_eq!(ecall(&mut k, 2, 0, 0, 0), SyscallOutcome::Blocked);
    for _ in 0..3 {
        // B has yielded to A
        assert_eq!(k.pm.current, 1);
        assert_eq!(k.hart.regs.ra, 0x8020_0444);
        k.hart.user_mode = true;
        k.hart.pc = USER_BASE + 0x40;
        assert_eq!(ecall(&mut k, 1, 'A' as u32, 0, 0), SyscallOutcome::Done);
        a_yields(&mut k);
        // B runs again, in the trap it was blocked in, and finds no input
        assert_eq!(k.pm.current, 2);
        assert_eq!(k.hart.regs.ra, k.mem.map.kernel_entry);
        assert_eq!(kernel_resume(&mut k), SyscallOutcome::Blocked);
    }
    assert_eq!(k.console.out, b"AAA".to_vec());
    k.console.input.push(b'x');
    k.hart.user_mode = true;
    k.hart.pc = USER_BASE + 0x40;
    assert_eq!(ecall(&mut k, 1, 'A' as u32, 0, 0), SyscallOutcome::Done);
    a_yields(&mut k);
    assert_eq!(kernel_resume(&mut k), SyscallOutcome::Done);
    assert_eq!(k.pm.current, 2);
    assert_eq!(k.hart.regs.a0, 'x' as u32);
    assert_eq!(k.hart.regs.s1, 0xb1);
    assert_eq!(k.hart.pc, b_pc + 4);
    assert_eq!(k.hart.sepc, b_pc + 4);
    assert!(k.hart.user_mode);
    assert!(k.console.input.is_empty());
    // the byte is delivered once: the next read blocks again
    assert_eq!(ecall(&mut k, 2, 0, 0, 0), SyscallOutcome::Blocked);
    assert_eq!(k.console.out, b"AAAA".to_vec());
}

#[test]
fn getchar_returns_input_that_is_ready() {
    let mut k = start(file_store(lorem_disk()), &shell_image());
    k.console.input = vec![b'q', b'r'];
    assert_eq!(ecall(&mut k, 2, 0, 0, 0), SyscallOutcome::Done);
    assert_eq!(k.hart.regs.a0, 'q' as u32);
    assert_eq!(ecall(&mut k, 2, 0, 0, 0), SyscallOutcome::Done);
    assert_eq!(k.hart.regs.a0, 'r' as u32);
    assert_eq!(k.pm.current, 1);
}

#[test]
fn unexpected_trap() {
    // an illegal instruction has cause 2; only cause 8 is a system call
    assert!(!is_ecall(2));
    assert!(!is_ecall(0));
    assert!(!is_ecall(9));
    assert!(!is_ecall(13));
    assert!(is_ecall(8));
}

#[test]
fn a_trap_that_is_no_system_call_is_not_served() {
    let mut k = start(file_store(lorem_disk()), &shell_image());
    // an illegal instruction at 0x01000020
    k.hart.scause = 2;
    k.hart.stval = 0xdead_beef;
    k.hart.sepc = 0x0100_0020;
    k.hart.regs.a3 = 1;
    k.hart.regs.a0 = b'x' as u32;
    let regs = k.hart.regs;
    let pages = k.mem.pages.clone();
    assert_eq!(
        check_trap(&k.hart, &regs),
        Some(TrapError::UnexpectedTrap { scause: 2, stval: 0xdead_beef, sepc: 0x0100_0020 })
    );
    let mut f = regs;
    assert_eq!(
        try_handle_trap(&mut k, &mut f),
        Err(TrapError::UnexpectedTrap { scause: 2, stval: 0xdead_beef, sepc: 0x0100_0020 })
    );
    assert_eq!(f, regs);
    assert_eq!(k.hart.sepc, 0x0100_0020);
    assert!(k.hart.user_mode);
    assert!(k.console.out.is_empty());
    assert_eq!(
        kernel_trap(&mut k),
        Err(TrapError::UnexpectedTrap { scause: 2, stval: 0xdead_beef, sepc: 0x0100_0020 })
    );
    // the registers were saved, and that is all: no call, no return
    assert_eq!(k.pm.procs[1].stack[2016], 0x0100_0020);
    assert_eq!(k.pm.procs[1].stack[2017 + 13], 1);
    assert_eq!(k.hart.sepc, 0x0100_0020);
    assert!(!k.hart.user_mode);
    assert!(k.console.out.is_empty());
    assert_eq!(k.mem.pages, pages);
    assert_eq!(k.pm.current, 1);
}

#[test]
fn an_unknown_system_call_is_not_served() {
    let mut k = start(file_store(lorem_disk()), &shell_image());
    k.hart.scause = 8;
    k.hart.sepc = k.hart.pc;
    for a3 in [0u32, 6, 0xffff_ffff] {
        k.hart.user_mode = true;
        k.hart.regs.a3 = a3;
        let regs = k.hart.regs;
        assert_eq!(check_trap(&k.hart, &regs), Some(TrapError::UnexpectedSyscall { a3 }));
        assert_eq!(kernel_trap(&mut k), Err(TrapError::UnexpectedSyscall { a3 }));
        assert!(!k.hart.user_mode);
        assert_eq!(k.hart.sepc, k.hart.pc);
        assert!(k.console.out.is_empty());
        k.hart.regs = regs;
    }
}

#[test]
fn kernel_trap_serves_a_system_call() {
    let mut k = start(file_store(lorem_disk()), &shell_image());
    k.hart.scause = 8;
    k.hart.sepc = k.hart.pc;
    k.hart.regs.a3 = 1;
    k.hart.regs.a0 = b'k' as u32;
    let pc = k.hart.pc;
    assert_eq!(check_trap(&k.hart, &k.hart.regs), None);
    assert_eq!(kernel_trap(&mut k), Ok(SyscallOutcome::Done));
    assert_eq!(k.console.out, vec![b'k']);
    assert_eq!(k.hart.pc, pc + 4);
    assert!(k.hart.user_mode);
}

#[test]
fn handle_trap_moves_sepc_behind_the_ecall() {
    let mut k = start(file_store(lorem_disk()), &shell_image());
    k.hart.scause = 8;
    k.hart.sepc = 0x0100_0abc;
    let mut f = k.hart.regs;
    f.a3 = 1;
    f.a0 = b'!' as u32;
    assert_eq!(handle_trap(&mut k, &mut f), SyscallOutcome::Done);
    assert_eq!(k.hart.sepc, 0x0100_0ac0);
    assert_eq!(k.console.out, vec![b'!']);
}

#[test]
fn handle_syscall_leaves_sepc_alone() {
    let mut k = start(file_store(lorem_disk()), &shell_image());
    k.hart.sepc = 0x0100_0abc;
    let mut f: TrapFrame = k.hart.regs;
    f.a3 = 4;
    f.a0 = NAME_AT;
    f.a1 = BUF_AT;
    f.a2 = 3;
    assert_eq!(handle_syscall(&mut k, &mut f), SyscallOutcome::Done);
    assert_eq!(f.a0, 3);
    assert_eq!(k.hart.sepc, 0x0100_0abc);
    assert_eq!(user_bytes(&k, BUF_AT, 3), b"Lor".to_vec());
}

#[test]
fn trap_entry_saves_the_registers_on_the_kernel_stack() {
    let mut k = start(file_store(lorem_disk()), &shell_image());
    k.hart.regs.ra = 0x0100_0010;
    k.hart.regs.sp = 0x0100_0ff0;
    k.hart.regs.t6 = 66;
    k.hart.regs.s11 = 111;
    let pc = k.hart.pc;
    assert_eq!(ecall(&mut k, 2, 1, 2, 3), SyscallOutcome::Blocked);
    let stack = &k.pm.procs[1].stack;
    assert_eq!(stack[2016], pc);
    assert_eq!(stack[2017], 0x0100_0010);
    assert_eq!(stack[2017 + 9], 66);
    assert_eq!(stack[2017 + 10], 1);
    assert_eq!(stack[2017 + 13], 2);
    assert_eq!(stack[2017 + 29], 111);
    assert_eq!(stack[2047], 0x0100_0ff0);
    assert_eq!(k.hart.sscratch, top(1));
    assert!(!k.hart.user_mode);
}

#[test]
fn user_buffers_can_be_written_by_the_test() {
    let mut k = start(file_store(lorem_disk()), &shell_image());
    let root = k.pm.procs[1].page_table;
    assert!(copy_to_user(&mut k.mem, root, BUF_AT, b"lorem.txt\0"));
    assert_eq!(ecall(&mut k, 4, BUF_AT, BUF_AT + 16, 4), SyscallOutcome::Done);
    assert_eq!(user_bytes(&k, BUF_AT + 16, 4), b"Lore".to_vec());
}
