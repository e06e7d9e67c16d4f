use rv32_kernel::common::Console;
use rv32_kernel::hart::Hart;
use rv32_kernel::memory::{
    walk, MemoryMap, PhysMemory, PAGE_R, PAGE_U, PAGE_V, PAGE_W, PAGE_X, SATP_SV32,
};
use rv32_kernel::process::{
    switch_context, Process, ProcessManager, State, IDLE_PID, PROCS_MAX, USER_BASE,
};
use rv32_kernel::space::{create_pages, init_pages};
use rv32_kernel::usermem::{copy_from_user, translate};

fn map() -> MemoryMap {
    MemoryMap {
        kernel_base: 0x8020_0000,
        free_ram: 0x8024_0000,
        free_ram_end: 0x8034_0000,
        stack_top: 0x8023_0000,
        user_entry: 0x8020_1000,
        kernel_entry: 0x8020_0100,
    }
}

fn top(slot: u32) -> u32 {
    0x8023_0000 - slot * 8192
}

fn booted(images: &[&[u8]]) -> (ProcessManager, PhysMemory, Hart) {
    let mut mem = PhysMemory::new(map());
    let mut pm = ProcessManager::new();
    pm.init(&mut mem);
    for image in images {
        assert!(pm.has_free_slot());
        assert!(mem.can_alloc(create_pages(&mem.map, image.len())));
        pm.create(&mut mem, image);
    }
    let mut hart = Hart::new();
    hart.regs.sp = top(0);
    (pm, mem, hart)
}

fn states(pm: &ProcessManager) -> Vec<State> {
    pm.procs.iter().map(|p| p.state).collect()
}

#[test]
fn process_new_is_unused() {
    let p = Process::new();
    assert_eq!(p.pid, 0);
    assert_eq!(p.state, State::Unused);
    assert_eq!(p.sp, 0);
    assert_eq!(p.page_table, 0);
    assert!(p.stack.iter().all(|w| *w == 0));
}

#[test]
fn manager_new_has_an_idle_slot_and_seven_unused() {
    let pm = ProcessManager::new();
    assert_eq!(pm.current, 0);
    assert_eq!(pm.procs.len(), PROCS_MAX);
    assert_eq!(pm.procs[0].state, State::Idle);
    assert!(pm.procs[1..].iter().all(|p| p.state == State::Unused));
    assert!(pm.has_free_slot());
}

#[test]
fn init_completes_the_idle_process() {
    let mut mem = PhysMemory::new(map());
    let mut pm = ProcessManager::new();
    assert_eq!(init_pages(&mem.map), 2);
    pm.init(&mut mem);
    assert_eq!(pm.stack_top, 0x8023_0000);
    assert_eq!(pm.procs[0].pid, IDLE_PID);
    assert_eq!(pm.procs[0].pid, 0xffff_ffff);
    assert_eq!(pm.procs[0].state, State::Idle);
    assert_eq!(pm.procs[0].sp, top(0) - 52);
    assert_eq!(pm.procs[0].page_table, 0x8024_0000);
    assert!(pm.procs[0].stack.iter().all(|w| *w == 0));
    assert_eq!(mem.next_paddr, 0x8024_0000 + 2 * 4096);
}

#[test]
fn init_maps_the_kernel_window_onto_itself() {
    let mut mem = PhysMemory::new(map());
    let mut pm = ProcessManager::new();
    pm.init(&mut mem);
    let root = pm.procs[0].page_table;
    for v in [0x8020_0000u32, 0x8020_1000, 0x8024_0000, 0x8033_f000] {
        let leaf = walk(&mem, root, v).unwrap();
        assert_eq!(leaf >> 10, v / 4096);
        assert_eq!(leaf & 0x3ff, PAGE_R | PAGE_W | PAGE_X | PAGE_V);
    }
    assert_eq!(walk(&mem, root, 0x801f_f000), None);
    assert_eq!(walk(&mem, root, 0x8034_0000), None);
    assert_eq!(walk(&mem, root, 0x1000_1000), None);
    assert_eq!(walk(&mem, root, USER_BASE), None);
}

#[test]
fn create_takes_the_first_unused_slot() {
    let (pm, mem, _) = booted(&[&[1u8; 10], &[2u8; 10]]);
    assert_eq!(pm.procs[1].state, State::Runnable);
    assert_eq!(pm.procs[2].state, State::Runnable);
    assert_eq!(pm.procs[3].state, State::Unused);
    assert_eq!(pm.procs[1].pid, 1);
    assert_eq!(pm.procs[2].pid, 2);
    assert_eq!(pm.current, 0);
    assert_ne!(pm.procs[1].page_table, pm.procs[2].page_table);
    assert!(mem.next_paddr > pm.procs[2].page_table);
}

#[test]
fn create_seeds_the_kernel_stack() {
    let (pm, _, _) = booted(&[&[1u8; 10]]);
    let p = &pm.procs[1];
    assert_eq!(p.sp, top(1) - 52);
    assert_eq!(p.stack[2035], 0x8020_1000);
    assert!(p.stack[2036..].iter().all(|w| *w == 0));
    assert!(p.stack[..2035].iter().all(|w| *w == 0));
}

#[test]
fn create_counts_its_pages() {
    let mut mem = PhysMemory::new(map());
    let mut pm = ProcessManager::new();
    pm.init(&mut mem);
    let before = mem.next_paddr;
    // root, three tables (kernel window, virtio page, user image), two image pages
    assert_eq!(create_pages(&mem.map, 4097), 6);
    pm.create(&mut mem, &[9u8; 4097]);
    assert_eq!(mem.next_paddr, before + 6 * 4096);
    assert_eq!(pm.procs[1].page_table, before);
    // no image: the root and the tables of the kernel window and the virtio page
    assert_eq!(create_pages(&mem.map, 0), 3);
    assert_eq!(create_pages(&mem.map, 4096), 5);
}

#[test]
fn create_maps_kernel_window_and_virtio_page() {
    let (pm, mem, _) = booted(&[&[1u8; 10]]);
    let root = pm.procs[1].page_table;
    let leaf = walk(&mem, root, 0x8020_0000).unwrap();
    assert_eq!(leaf, ((0x8020_0000u32 / 4096) << 10) | PAGE_R | PAGE_W | PAGE_X | PAGE_V);
    let leaf = walk(&mem, root, 0x8033_f000).unwrap();
    assert_eq!(leaf, ((0x8033_f000u32 / 4096) << 10) | PAGE_R | PAGE_W | PAGE_X | PAGE_V);
    let leaf = walk(&mem, root, 0x1000_1000).unwrap();
    assert_eq!(leaf, ((0x1000_1000u32 / 4096) << 10) | PAGE_R | PAGE_W | PAGE_V);
    assert_eq!(walk(&mem, root, 0x1000_0000), None);
    assert_eq!(walk(&mem, root, 0x1000_2000), None);
}

#[test]
fn create_maps_the_image_at_user_base() {
    let mut image = vec![0u8; 5000];
    for (i, b) in image.iter_mut().enumerate() {
        *b = (i % 251) as u8;
    }
    let (pm, mem, _) = booted(&[&image]);
    let root = pm.procs[1].page_table;
    let leaf0 = walk(&mem, root, USER_BASE).unwrap();
    let leaf1 = walk(&mem, root, USER_BASE + 4096).unwrap();
    assert_eq!(leaf0 & 0x3ff, PAGE_U | PAGE_R | PAGE_W | PAGE_X | PAGE_V);
    assert_eq!(leaf1 & 0x3ff, PAGE_U | PAGE_R | PAGE_W | PAGE_X | PAGE_V);
    assert_ne!(leaf0 >> 10, leaf1 >> 10);
    assert_eq!(walk(&mem, root, USER_BASE + 8192), None);
    assert_eq!(copy_from_user(&mem, root, USER_BASE, 5000), Some(image.clone()));
    // the rest of the last page is zero
    assert_eq!(copy_from_user(&mem, root, USER_BASE + 5000, 3192), Some(vec![0u8; 3192]));
    assert!(translate(&mem, root, USER_BASE + 8191).is_some());
}

#[test]
fn create_with_an_empty_image_maps_no_user_page() {
    let (pm, mem, _) = booted(&[&[]]);
    assert_eq!(pm.procs[1].state, State::Runnable);
    assert_eq!(walk(&mem, pm.procs[1].page_table, USER_BASE), None);
}

#[test]
fn create_leaves_earlier_address_spaces_alone() {
    let (mut pm, mut mem, _) = booted(&[&[0x11u8; 100]]);
    let root1 = pm.procs[1].page_table;
    let leaf = walk(&mem, root1, USER_BASE);
    pm.create(&mut mem, &[0x22u8; 100]);
    assert_eq!(walk(&mem, root1, USER_BASE), leaf);
    assert_eq!(copy_from_user(&mem, root1, USER_BASE, 100), Some(vec![0x11u8; 100]));
    assert_eq!(copy_from_user(&mem, pm.procs[2].page_table, USER_BASE, 100), Some(vec![0x22u8; 100]));
}

#[test]
fn table_fills_up_after_seven_processes() {
    let image = [0u8; 1];
    let (pm, _, _) = booted(&[&image, &image, &image, &image, &image, &image, &image]);
    assert!(!pm.has_free_slot());
    assert!(pm.procs[1..].iter().all(|p| p.state == State::Runnable));
}

#[test]
fn yield_from_idle_switches_to_the_first_process() {
    let (mut pm, _, mut hart) = booted(&[&[1u8; 10]]);
    hart.regs.ra = 0x8020_0abc;
    hart.regs.s0 = 100;
    hart.regs.s11 = 111;
    assert_eq!(pm.pick_next(), 1);
    pm.yield_(&mut hart);
    assert_eq!(pm.current, 1);
    assert_eq!(hart.sscratch, top(1));
    assert_eq!(hart.satp, SATP_SV32 | (pm.procs[1].page_table / 4096));
    assert_eq!(hart.regs.ra, 0x8020_1000);
    assert_eq!(hart.regs.s0, 0);
    assert_eq!(hart.regs.s11, 0);
    assert_eq!(hart.regs.sp, top(1));
    // the idle process's registers lie on its stack
    assert_eq!(pm.procs[0].sp, top(0) - 52);
    assert_eq!(pm.procs[0].stack[2035], 0x8020_0abc);
    assert_eq!(pm.procs[0].stack[2036], 100);
    assert_eq!(pm.procs[0].stack[2047], 111);
}

#[test]
fn yield_without_runnable_process_stays_with_idle() {
    let (mut pm, _, mut hart) = booted(&[]);
    let before = hart;
    assert_eq!(pm.pick_next(), 0);
    pm.yield_(&mut hart);
    assert_eq!(pm.current, 0);
    assert_eq!(hart, before);
}

#[test]
fn yield_of_the_only_runnable_process_changes_nothing() {
    let (mut pm, _, mut hart) = booted(&[&[1u8; 10]]);
    pm.yield_(&mut hart);
    let before = hart;
    let stack = pm.procs[1].stack;
    assert_eq!(pm.pick_next(), 1);
    pm.yield_(&mut hart);
    assert_eq!(pm.current, 1);
    assert_eq!(hart, before);
    assert_eq!(pm.procs[1].stack[..], stack[..]);
}

#[test]
fn two_runnable_processes_take_turns() {
    let (mut pm, _, mut hart) = booted(&[&[1u8; 10], &[2u8; 10]]);
    let mut order = Vec::new();
    for _ in 0..6 {
        pm.yield_(&mut hart);
        order.push(pm.current);
    }
    assert_eq!(order, vec![1, 2, 1, 2, 1, 2]);
}

#[test]
fn three_runnable_processes_go_round() {
    let (mut pm, _, mut hart) = booted(&[&[1u8; 10], &[2u8; 10], &[3u8; 10]]);
    let mut order = Vec::new();
    for _ in 0..7 {
        pm.yield_(&mut hart);
        order.push(pm.current);
    }
    assert_eq!(order, vec![1, 2, 3, 1, 2, 3, 1]);
}

#[test]
fn scheduler_wraps_round_the_table() {
    let image = [0u8; 1];
    let (mut pm, _, mut hart) = booted(&[&image, &image, &image, &image, &image, &image, &image]);
    for slot in 1..7 {
        pm.procs[slot].state = State::Exited;
    }
    pm.current = 7;
    hart.regs.sp = top(7);
    assert_eq!(pm.pick_next(), 7);
    pm.procs[2].state = State::Runnable;
    assert_eq!(pm.pick_next(), 2);
    pm.yield_(&mut hart);
    assert_eq!(pm.current, 2);
    assert_eq!(pm.pick_next(), 7);
}

#[test]
fn after_an_exit_only_the_survivor_runs() {
    let (mut pm, _, mut hart) = booted(&[&[1u8; 10], &[2u8; 10]]);
    pm.yield_(&mut hart);
    assert_eq!(pm.current, 1);
    let mut console = Console::new();
    let slot = pm.exit(&mut hart, &mut console);
    assert_eq!(slot, 1);
    assert_eq!(console.out, b"process 1 exited\n".to_vec());
    assert_eq!(pm.procs[1].state, State::Exited);
    assert_eq!(pm.current, 2);
    for _ in 0..3 {
        let before = hart;
        pm.yield_(&mut hart);
        assert_eq!(pm.current, 2);
        assert_eq!(hart, before);
    }
    assert_eq!(states(&pm)[..3], [State::Idle, State::Exited, State::Runnable]);
}

#[test]
fn exit_of_the_last_process_goes_to_idle() {
    let (mut pm, _, mut hart) = booted(&[&[1u8; 10]]);
    hart.regs.ra = 0x8020_0abc;
    hart.regs.s3 = 33;
    pm.yield_(&mut hart);
    assert_eq!(pm.current, 1);
    pm.exit(&mut hart, &mut Console::new());
    assert_eq!(pm.procs[1].state, State::Exited);
    assert_eq!(pm.current, 0);
    assert_eq!(hart.regs.ra, 0x8020_0abc);
    assert_eq!(hart.regs.s3, 33);
    assert_eq!(hart.regs.sp, top(0));
    assert_eq!(hart.sscratch, top(0));
    assert_eq!(hart.satp, SATP_SV32 | (pm.procs[0].page_table / 4096));
    pm.yield_(&mut hart);
    assert_eq!(pm.current, 0);
}

#[test]
fn an_exited_process_is_never_picked() {
    let (mut pm, _, mut hart) = booted(&[&[1u8; 10], &[2u8; 10], &[3u8; 10]]);
    pm.yield_(&mut hart);
    pm.yield_(&mut hart);
    assert_eq!(pm.current, 2);
    pm.exit(&mut hart, &mut Console::new());
    let mut order = Vec::new();
    for _ in 0..5 {
        pm.yield_(&mut hart);
        order.push(pm.current);
    }
    assert!(!order.contains(&2));
    assert!(!order.contains(&0));
}

#[test]
fn a_process_finds_its_registers_after_a_yield() {
    let (mut pm, _, mut hart) = booted(&[&[1u8; 10], &[2u8; 10]]);
    pm.yield_(&mut hart);
    assert_eq!(pm.current, 1);
    hart.regs.ra = 0x8020_2222;
    hart.regs.sp = top(1) - 256;
    hart.regs.s0 = 10;
    hart.regs.s1 = 11;
    hart.regs.s5 = 15;
    hart.regs.s11 = 21;
    hart.regs.a0 = 77;
    let saved = hart.regs;
    pm.yield_(&mut hart);
    assert_eq!(pm.current, 2);
    hart.regs.s0 = 999;
    hart.regs.s5 = 999;
    hart.regs.ra = 0x8020_3333;
    hart.regs.sp = top(2) - 64;
    pm.yield_(&mut hart);
    assert_eq!(pm.current, 1);
    assert_eq!(hart.regs.ra, saved.ra);
    assert_eq!(hart.regs.sp, saved.sp);
    assert_eq!(hart.regs.s0, 10);
    assert_eq!(hart.regs.s1, 11);
    assert_eq!(hart.regs.s5, 15);
    assert_eq!(hart.regs.s11, 21);
    assert_eq!(
        [saved.s2, saved.s3, saved.s4, saved.s6, saved.s7, saved.s8, saved.s9, saved.s10],
        [
            hart.regs.s2,
            hart.regs.s3,
            hart.regs.s4,
            hart.regs.s6,
            hart.regs.s7,
            hart.regs.s8,
            hart.regs.s9,
            hart.regs.s10
        ]
    );
}

#[test]
fn switch_context_pushes_thirteen_words() {
    let (mut pm, _, mut hart) = booted(&[&[1u8; 10]]);
    hart.regs.sp = top(0) - 100;
    hart.regs.ra = 1;
    hart.regs.s0 = 2;
    hart.regs.s11 = 13;
    switch_context(&mut pm, &mut hart, 0, 1);
    assert_eq!(pm.procs[0].sp, top(0) - 152);
    let idx = 2048 - 152 / 4;
    assert_eq!(pm.procs[0].stack[idx], 1);
    assert_eq!(pm.procs[0].stack[idx + 1], 2);
    assert_eq!(pm.procs[0].stack[idx + 12], 13);
    assert_eq!(pm.procs[0].stack[idx + 13], 0);
    assert_eq!(hart.regs.sp, top(1));
    assert_eq!(hart.regs.ra, 0x8020_1000);
    // switch_context itself does not pick the current process
    assert_eq!(pm.current, 0);
}

#[test]
fn create_places_tables_and_image_pages_in_order() {
    let mut mem = PhysMemory::new(map());
    let mut pm = ProcessManager::new();
    pm.init(&mut mem);
    let idle = pm.procs[0].page_table;
    let idle_root = &mem.pages[((idle - mem.map.free_ram) / 4096) as usize];
    assert_eq!((idle_root[0x200] >> 10) * 4096, idle + 4096);

    let lo = mem.next_paddr;
    pm.create(&mut mem, &[5u8; 8192]);
    let root = &mem.pages[((lo - mem.map.free_ram) / 4096) as usize];
    assert_eq!(pm.procs[1].page_table, lo);
    // the table of the kernel window, then that of the virtio page
    assert_eq!((root[0x200] >> 10) * 4096, lo + 4096);
    assert_eq!((root[64] >> 10) * 4096, lo + 2 * 4096);
    // the first image page, the table it needs, the second image page
    let leaf0 = walk(&mem, lo, USER_BASE).unwrap();
    let leaf1 = walk(&mem, lo, USER_BASE + 4096).unwrap();
    assert_eq!((leaf0 >> 10) * 4096, lo + 3 * 4096);
    assert_eq!((root[4] >> 10) * 4096, lo + 4 * 4096);
    assert_eq!((leaf1 >> 10) * 4096, lo + 5 * 4096);
    assert_eq!(mem.next_paddr, lo + 6 * 4096);
    assert_eq!(root.iter().filter(|e| **e & PAGE_V != 0).count(), 3);
}
