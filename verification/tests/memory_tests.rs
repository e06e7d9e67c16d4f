use rv32_kernel::memory::{
    alloc_pages, map_page, walk, MemoryMap, PhysMemory, PAGE_R, PAGE_U, PAGE_V, PAGE_W, PAGE_X,
};
use rv32_kernel::usermem::{
    copy_from_user, copy_to_user, get_byte, read_byte, read_user_str, set_byte, translate,
    write_byte,
};

fn map() -> MemoryMap {
    MemoryMap {
        kernel_base: 0x8020_0000,
        free_ram: 0x8024_0000,
        free_ram_end: 0x8034_0000,
        stack_top: 0x8023_0000,
        user_entry: 0x8020_1000,
        kernel_entry: 0x8020_0100,
    }
}

fn page_of(mem: &PhysMemory, addr: u32) -> &[u32; 1024] {
    &mem.pages[((addr - mem.map.free_ram) / 4096) as usize]
}

#[test]
fn memory_map_is_checked() {
    assert!(map().is_wf());
    let mut m = map();
    m.free_ram = 0x8024_0004;
    assert!(!m.is_wf());
    let mut m = map();
    m.free_ram_end = 0x8020_0000;
    assert!(!m.is_wf());
}

#[test]
fn new_memory_has_a_page_for_every_page_of_free_ram() {
    let mem = PhysMemory::new(map());
    assert_eq!(mem.pages.len(), 256);
    assert_eq!(mem.next_paddr, 0x8024_0000);
    assert!(mem.can_alloc(256));
    assert!(!mem.can_alloc(257));
}

#[test]
fn alloc_returns_the_cursor_and_moves_it() {
    let mut mem = PhysMemory::new(map());
    let first = alloc_pages(&mut mem, 3);
    let second = alloc_pages(&mut mem, 1);
    assert_eq!(first, 0x8024_0000);
    assert_eq!(second, first + 3 * 4096);
    assert_eq!(mem.next_paddr, second + 4096);
    assert_eq!(first % 4096, 0);
    assert_eq!(second % 4096, 0);
}

#[test]
fn alloc_is_monotonic() {
    let mut mem = PhysMemory::new(map());
    let mut last_end = 0u32;
    for n in [1usize, 2, 5, 1, 7] {
        let p = alloc_pages(&mut mem, n);
        assert!(p >= last_end);
        assert_eq!(p % 4096, 0);
        last_end = p + (n as u32) * 4096;
    }
}

#[test]
fn alloc_zeroes_what_it_hands_out() {
    let mut mem = PhysMemory::new(map());
    mem.pages[0] = [0xdead_beef; 1024];
    mem.pages[1] = [0xdead_beef; 1024];
    mem.pages[2] = [0xdead_beef; 1024];
    let p = alloc_pages(&mut mem, 2);
    assert!(page_of(&mem, p).iter().all(|w| *w == 0));
    assert!(page_of(&mem, p + 4096).iter().all(|w| *w == 0));
    assert!(mem.pages[2].iter().all(|w| *w == 0xdead_beef));
}

#[test]
fn alloc_of_no_page_changes_nothing() {
    let mut mem = PhysMemory::new(map());
    let p = alloc_pages(&mut mem, 0);
    assert_eq!(p, 0x8024_0000);
    assert_eq!(mem.next_paddr, 0x8024_0000);
}

#[test]
fn alloc_can_take_the_last_page() {
    let mut mem = PhysMemory::new(map());
    let p = alloc_pages(&mut mem, 256);
    assert_eq!(p, 0x8024_0000);
    assert_eq!(mem.next_paddr, 0x8034_0000);
    assert!(mem.can_alloc(0));
    assert!(!mem.can_alloc(1));
}

#[test]
fn map_page_installs_a_table_and_a_leaf() {
    let mut mem = PhysMemory::new(map());
    let root = alloc_pages(&mut mem, 1);
    map_page(&mut mem, root, 0x0100_0000, 0x8030_0000, PAGE_U | PAGE_R | PAGE_W | PAGE_X);
    let table = root + 4096;
    assert_eq!(mem.next_paddr, table + 4096);
    assert_eq!(page_of(&mem, root)[4], ((table / 4096) << 10) | PAGE_V);
    assert_eq!(page_of(&mem, table)[0], ((0x8030_0000u32 / 4096) << 10) | 0x1f);
}

#[test]
fn map_page_reuses_a_table() {
    let mut mem = PhysMemory::new(map());
    let root = alloc_pages(&mut mem, 1);
    map_page(&mut mem, root, 0x0100_0000, 0x8030_0000, PAGE_R);
    let after_first = mem.next_paddr;
    map_page(&mut mem, root, 0x0100_1000, 0x8030_1000, PAGE_R);
    assert_eq!(mem.next_paddr, after_first);
    map_page(&mut mem, root, 0x0140_0000, 0x8030_2000, PAGE_R);
    assert_eq!(mem.next_paddr, after_first + 4096);
}

#[test]
fn walk_finds_what_was_mapped() {
    let mut mem = PhysMemory::new(map());
    let root = alloc_pages(&mut mem, 1);
    let flags = PAGE_R | PAGE_W;
    map_page(&mut mem, root, 0x1000_1000, 0x1000_1000, flags);
    let leaf = walk(&mem, root, 0x1000_1000).unwrap();
    assert_eq!(leaf >> 10, 0x1000_1000 / 4096);
    assert_eq!(leaf & 0x3ff, flags | PAGE_V);
    assert_eq!(walk(&mem, root, 0x1000_1abc), Some(leaf));
}

#[test]
fn walk_finds_nothing_elsewhere() {
    let mut mem = PhysMemory::new(map());
    let root = alloc_pages(&mut mem, 1);
    assert_eq!(walk(&mem, root, 0x1000_1000), None);
    map_page(&mut mem, root, 0x1000_1000, 0x1000_1000, PAGE_R);
    assert_eq!(walk(&mem, root, 0x1000_0000), None);
    assert_eq!(walk(&mem, root, 0x1000_2000), None);
    assert_eq!(walk(&mem, root, 0x2000_1000), None);
}

#[test]
fn map_page_keeps_other_mappings() {
    let mut mem = PhysMemory::new(map());
    let root = alloc_pages(&mut mem, 1);
    map_page(&mut mem, root, 0x0100_0000, 0x8030_0000, PAGE_R);
    let first = walk(&mem, root, 0x0100_0000);
    map_page(&mut mem, root, 0x0100_1000, 0x8030_1000, PAGE_R | PAGE_W);
    map_page(&mut mem, root, 0x8020_0000, 0x8020_0000, PAGE_X);
    assert_eq!(walk(&mem, root, 0x0100_0000), first);
}

#[test]
fn map_page_replaces_a_mapping() {
    let mut mem = PhysMemory::new(map());
    let root = alloc_pages(&mut mem, 1);
    map_page(&mut mem, root, 0x0100_0000, 0x8030_0000, PAGE_R);
    map_page(&mut mem, root, 0x0100_0000, 0x8030_5000, PAGE_W);
    let leaf = walk(&mem, root, 0x0100_0000).unwrap();
    assert_eq!(leaf >> 10, 0x8030_5000 / 4096);
    assert_eq!(leaf & 0x3ff, PAGE_W | PAGE_V);
}

#[test]
fn walk_stops_at_a_table_outside_ram() {
    let mut mem = PhysMemory::new(map());
    let root = alloc_pages(&mut mem, 1);
    mem.pages[0][5] = ((0x1000_0000u32 / 4096) << 10) | PAGE_V;
    assert_eq!(walk(&mem, root, 5 << 22), None);
    mem.pages[0][6] = 0xffff_fc01;
    assert_eq!(walk(&mem, root, 6 << 22), None);
}

#[test]
fn translate_adds_the_offset_in_the_page() {
    let mut mem = PhysMemory::new(map());
    let root = alloc_pages(&mut mem, 1);
    let frame = alloc_pages(&mut mem, 1);
    map_page(&mut mem, root, 0x0100_0000, frame, PAGE_U | PAGE_R);
    assert_eq!(translate(&mem, root, 0x0100_0000), Some(frame));
    assert_eq!(translate(&mem, root, 0x0100_0abc), Some(frame + 0xabc));
    assert_eq!(translate(&mem, root, 0x0100_1000), None);
}

#[test]
fn translate_refuses_what_lies_outside_ram() {
    let mut mem = PhysMemory::new(map());
    let root = alloc_pages(&mut mem, 1);
    map_page(&mut mem, root, 0x1000_1000, 0x1000_1000, PAGE_R | PAGE_W);
    assert!(walk(&mem, root, 0x1000_1000).is_some());
    assert_eq!(translate(&mem, root, 0x1000_1000), None);
}

#[test]
fn bytes_of_a_word_are_little_endian() {
    let w = 0x4433_2211;
    assert_eq!(get_byte(w, 0), 0x11);
    assert_eq!(get_byte(w, 1), 0x22);
    assert_eq!(get_byte(w, 2), 0x33);
    assert_eq!(get_byte(w, 3), 0x44);
    assert_eq!(set_byte(w, 0, 0xaa), 0x4433_22aa);
    assert_eq!(set_byte(w, 1, 0xaa), 0x4433_aa11);
    assert_eq!(set_byte(w, 2, 0xaa), 0x44aa_2211);
    assert_eq!(set_byte(w, 3, 0xaa), 0xaa33_2211);
}

#[test]
fn write_byte_changes_one_byte() {
    let mut mem = PhysMemory::new(map());
    let p = alloc_pages(&mut mem, 1);
    write_byte(&mut mem, p + 6, 0x5a);
    assert_eq!(read_byte(&mem, p + 6), 0x5a);
    assert_eq!(read_byte(&mem, p + 5), 0);
    assert_eq!(read_byte(&mem, p + 7), 0);
    assert_eq!(page_of(&mem, p)[1], 0x005a_0000);
}

#[test]
fn user_copies_go_through_the_page_table() {
    let mut mem = PhysMemory::new(map());
    let root = alloc_pages(&mut mem, 1);
    let f0 = alloc_pages(&mut mem, 1);
    let f1 = alloc_pages(&mut mem, 1);
    map_page(&mut mem, root, 0x0100_0000, f1, PAGE_U | PAGE_R | PAGE_W);
    map_page(&mut mem, root, 0x0100_1000, f0, PAGE_U | PAGE_R | PAGE_W);
    assert!(copy_to_user(&mut mem, root, 0x0100_0ffe, b"abcd"));
    assert_eq!(read_byte(&mem, f1 + 0xffe), b'a');
    assert_eq!(read_byte(&mem, f1 + 0xfff), b'b');
    assert_eq!(read_byte(&mem, f0), b'c');
    assert_eq!(read_byte(&mem, f0 + 1), b'd');
    assert_eq!(copy_from_user(&mem, root, 0x0100_0ffe, 4), Some(b"abcd".to_vec()));
    assert_eq!(copy_from_user(&mem, root, 0x0100_0000, 0), Some(vec![]));
}

#[test]
fn user_copies_fail_on_unmapped_memory() {
    let mut mem = PhysMemory::new(map());
    let root = alloc_pages(&mut mem, 1);
    let f0 = alloc_pages(&mut mem, 1);
    map_page(&mut mem, root, 0x0100_0000, f0, PAGE_U | PAGE_R | PAGE_W);
    let before = mem.pages.clone();
    assert!(!copy_to_user(&mut mem, root, 0x0100_0ffe, b"abcd"));
    assert_eq!(mem.pages, before);
    assert_eq!(copy_from_user(&mem, root, 0x0100_0ffe, 4), None);
    assert_eq!(copy_from_user(&mem, root, 0x00ff_ffff, 2), None);
}

#[test]
fn user_copies_fail_at_the_end_of_the_address_space() {
    let mut mem = PhysMemory::new(map());
    let root = alloc_pages(&mut mem, 1);
    let f0 = alloc_pages(&mut mem, 1);
    map_page(&mut mem, root, 0xffff_f000, f0, PAGE_R | PAGE_W);
    assert_eq!(copy_from_user(&mem, root, 0xffff_fffe, 2), Some(vec![0, 0]));
    assert_eq!(copy_from_user(&mem, root, 0xffff_fffe, 3), None);
    assert!(copy_to_user(&mut mem, root, 0xffff_fffe, b"xy"));
    assert!(!copy_to_user(&mut mem, root, 0xffff_fffe, b"xyz"));
}

#[test]
fn user_strings_end_at_the_first_nul() {
    let mut mem = PhysMemory::new(map());
    let root = alloc_pages(&mut mem, 1);
    let f0 = alloc_pages(&mut mem, 1);
    map_page(&mut mem, root, 0x0100_0000, f0, PAGE_U | PAGE_R | PAGE_W);
    assert!(copy_to_user(&mut mem, root, 0x0100_0010, b"lorem.txt\0rest"));
    assert_eq!(read_user_str(&mem, root, 0x0100_0010), Some(b"lorem.txt".to_vec()));
    assert_eq!(read_user_str(&mem, root, 0x0100_0019), Some(vec![]));
    assert_eq!(read_user_str(&mem, root, 0x0100_001a), Some(b"rest".to_vec()));
}

#[test]
fn user_strings_fail_without_a_mapped_terminator() {
    let mut mem = PhysMemory::new(map());
    let root = alloc_pages(&mut mem, 1);
    let f0 = alloc_pages(&mut mem, 1);
    map_page(&mut mem, root, 0x0100_0000, f0, PAGE_U | PAGE_R | PAGE_W);
    assert!(copy_to_user(&mut mem, root, 0x0100_0ffc, b"abcd"));
    assert_eq!(read_user_str(&mem, root, 0x0100_0ffc), None);
    assert_eq!(read_user_str(&mem, root, 0x0200_0000), None);
}
