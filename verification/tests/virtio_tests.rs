use rv32_kernel::memory::{MemoryMap, PhysMemory};
use rv32_kernel::virtio::{
    probe, virtio_reg_fetch_and_or32, virtio_reg_read32, virtio_reg_read64, virtio_reg_write32,
    MmioWrite, Virtio, VirtioMmio, VirtqDesc, VIRTIO_REG_DEVICE_CONFIG, VIRTIO_REG_DEVICE_ID,
    VIRTIO_REG_DEVICE_STATUS, VIRTIO_REG_MAGIC, VIRTIO_REG_QUEUE_ALIGN, VIRTIO_REG_QUEUE_NOTIFY,
    VIRTIO_REG_QUEUE_NUM, VIRTIO_REG_QUEUE_PFN, VIRTIO_REG_QUEUE_SEL, VIRTIO_REG_VERSION,
};

fn map() -> MemoryMap {
    MemoryMap {
        kernel_base: 0x8020_0000,
        free_ram: 0x8024_0000,
        free_ram_end: 0x8034_0000,
        stack_top: 0x8023_0000,
        user_entry: 0x8020_1000,
        kernel_entry: 0x8020_0100,
    }
}

fn device(sectors: u64) -> VirtioMmio {
    VirtioMmio::new(0x7472_6976, 1, 2, sectors)
}

/// What the device does with the request at the head of the queue.
fn serve(v: &mut Virtio, disk: &mut Vec<u8>, status: u8) {
    let vq = &v.blk_request_vq;
    let head = vq.avail.ring[(vq.avail.index.wrapping_sub(1) % 16) as usize] as usize;
    let header = vq.descs[head];
    assert_eq!(header.addr, v.blk_req_paddr as u64);
    let data = vq.descs[header.next as usize];
    let at = (v.blk_req.sector * 512) as usize;
    if status == 0 {
        if v.blk_req.type_ == 1 {
            assert_eq!(data.flags & 2, 0);
            disk[at..at + 512].copy_from_slice(&v.blk_req.data);
        } else {
            assert_eq!(data.flags & 2, 2);
            v.blk_req.data.copy_from_slice(&disk[at..at + 512]);
        }
    }
    v.blk_req.status = status;
    v.blk_request_vq.used.index = v.blk_request_vq.used.index.wrapping_add(1);
}

fn write(offset: usize, value: u32) -> MmioWrite {
    MmioWrite { offset, value }
}

#[test]
fn registers_are_read_and_written() {
    let mut m = device(8);
    assert_eq!(virtio_reg_read32(&m, VIRTIO_REG_MAGIC), 0x7472_6976);
    assert_eq!(virtio_reg_read32(&m, VIRTIO_REG_VERSION), 1);
    assert_eq!(virtio_reg_read32(&m, VIRTIO_REG_DEVICE_ID), 2);
    assert_eq!(virtio_reg_read64(&m, VIRTIO_REG_DEVICE_CONFIG), 8);
    virtio_reg_write32(&mut m, VIRTIO_REG_QUEUE_NUM, 16);
    virtio_reg_write32(&mut m, VIRTIO_REG_QUEUE_SEL, 3);
    virtio_reg_write32(&mut m, VIRTIO_REG_QUEUE_ALIGN, 4);
    virtio_reg_write32(&mut m, VIRTIO_REG_QUEUE_PFN, 5);
    virtio_reg_write32(&mut m, VIRTIO_REG_QUEUE_NOTIFY, 6);
    assert_eq!((m.queue_num, m.queue_sel, m.queue_align, m.queue_pfn, m.queue_notify), (16, 3, 4, 5, 6));
    assert_eq!(m.log.len(), 5);
    assert_eq!(m.log[0], write(0x38, 16));
    assert_eq!(m.log[4], write(0x50, 6));
}

#[test]
fn fetch_and_or_adds_bits() {
    let mut m = device(8);
    virtio_reg_write32(&mut m, VIRTIO_REG_DEVICE_STATUS, 1);
    virtio_reg_fetch_and_or32(&mut m, VIRTIO_REG_DEVICE_STATUS, 8);
    assert_eq!(virtio_reg_read32(&m, VIRTIO_REG_DEVICE_STATUS), 9);
    virtio_reg_fetch_and_or32(&mut m, VIRTIO_REG_DEVICE_STATUS, 1);
    assert_eq!(m.device_status, 9);
    assert_eq!(m.log, vec![write(0x70, 1), write(0x70, 9), write(0x70, 9)]);
}

#[test]
fn probe_wants_a_legacy_block_device() {
    assert!(probe(&device(8)));
    assert!(!probe(&VirtioMmio::new(0x7472_6977, 1, 2, 8)));
    assert!(!probe(&VirtioMmio::new(0x7472_6976, 2, 2, 8)));
    assert!(!probe(&VirtioMmio::new(0x7472_6976, 1, 1, 8)));
}

#[test]
fn new_takes_the_device_through_the_handshake() {
    let mut mem = PhysMemory::new(map());
    let mut m = device(8);
    let v = Virtio::new(&mut m, &mut mem);
    assert_eq!(v.virtq_paddr, 0x8024_0000);
    assert_eq!(v.blk_req_paddr, 0x8024_2000);
    assert_eq!(mem.next_paddr, 0x8024_3000);
    assert_eq!(v.blk_capacity, 8 * 512);
    assert_eq!(
        m.log,
        vec![
            write(VIRTIO_REG_DEVICE_STATUS, 0),
            write(VIRTIO_REG_DEVICE_STATUS, 1),
            write(VIRTIO_REG_DEVICE_STATUS, 3),
            write(VIRTIO_REG_DEVICE_STATUS, 11),
            write(VIRTIO_REG_QUEUE_SEL, 0),
            write(VIRTIO_REG_QUEUE_NUM, 16),
            write(VIRTIO_REG_QUEUE_ALIGN, 0),
            write(VIRTIO_REG_QUEUE_PFN, 0x8024_0000),
            write(VIRTIO_REG_DEVICE_STATUS, 15),
        ]
    );
    assert_eq!(m.device_status, 15);
    assert_eq!(m.queue_pfn, 0x8024_0000);
    assert_eq!(m.queue_num, 16);
    assert!(!v.virtq_is_busy());
    assert_eq!(v.blk_request_vq.avail.index, 0);
    assert_eq!(v.blk_request_vq.used.index, 0);
    assert_eq!(v.blk_request_vq.queue_index, 0);
    assert!(v.blk_req.data.iter().all(|b| *b == 0));
}

#[test]
fn a_write_request_is_set_up_and_kicked() {
    let mut mem = PhysMemory::new(map());
    let mut m = device(8);
    let mut v = Virtio::new(&mut m, &mut mem);
    let buf = [0x5au8; 512];
    assert!(v.read_write_disk(&mut m, &buf, 3, true));
    assert_eq!(v.blk_req.type_, 1);
    assert_eq!(v.blk_req.sector, 3);
    assert_eq!(v.blk_req.data, buf);
    let base = v.blk_req_paddr as u64;
    assert_eq!(v.blk_request_vq.descs[0], VirtqDesc { addr: base, len: 16, flags: 1, next: 1 });
    assert_eq!(v.blk_request_vq.descs[1], VirtqDesc { addr: base + 16, len: 512, flags: 1, next: 2 });
    assert_eq!(v.blk_request_vq.descs[2], VirtqDesc { addr: base + 528, len: 1, flags: 2, next: 0 });
    assert_eq!(v.blk_request_vq.avail.ring[0], 0);
    assert_eq!(v.blk_request_vq.avail.index, 1);
    assert_eq!(v.blk_request_vq.last_used_index, 1);
    assert_eq!(m.queue_notify, 0);
    assert_eq!(m.log.last(), Some(&write(VIRTIO_REG_QUEUE_NOTIFY, 0)));
    assert_eq!(m.log.len(), 10);
    assert!(v.virtq_is_busy());
}

#[test]
fn a_read_request_lets_the_device_write_the_data() {
    let mut mem = PhysMemory::new(map());
    let mut m = device(8);
    let mut v = Virtio::new(&mut m, &mut mem);
    let buf = [0x5au8; 512];
    assert!(v.read_write_disk(&mut m, &buf, 7, false));
    assert_eq!(v.blk_req.type_, 0);
    assert_eq!(v.blk_req.sector, 7);
    assert!(v.blk_req.data.iter().all(|b| *b == 0));
    assert_eq!(v.blk_request_vq.descs[1].flags, 3);
}

#[test]
fn a_sector_behind_the_capacity_is_refused() {
    let mut mem = PhysMemory::new(map());
    let mut m = device(8);
    let mut v = Virtio::new(&mut m, &mut mem);
    let writes = m.log.len();
    let buf = [1u8; 512];
    assert!(!v.read_write_disk(&mut m, &buf, 8, true));
    assert!(!v.read_write_disk(&mut m, &buf, u64::MAX, false));
    assert_eq!(m.log.len(), writes);
    assert!(!v.virtq_is_busy());
    assert_eq!(v.blk_request_vq.avail.index, 0);
    assert_eq!(v.blk_req.sector, 0);
    assert!(v.read_write_disk(&mut m, &buf, 7, true));
}

#[test]
fn a_sector_written_is_read_back() {
    let mut mem = PhysMemory::new(map());
    let mut m = device(8);
    let mut v = Virtio::new(&mut m, &mut mem);
    let mut disk = vec![0u8; 8 * 512];
    for k in 0..8u64 {
        let mut data = [0u8; 512];
        for (i, b) in data.iter_mut().enumerate() {
            *b = (i as u64 * 7 + k) as u8;
        }
        assert!(v.read_write_disk(&mut m, &data, k, true));
        assert!(v.virtq_is_busy());
        serve(&mut v, &mut disk, 0);
        assert!(!v.virtq_is_busy());
        let mut unused = [0u8; 512];
        assert!(v.complete_request(&mut unused, true));
        assert_eq!(unused, [0u8; 512]);

        let mut back = [0xffu8; 512];
        assert!(v.read_write_disk(&mut m, &back, k, false));
        serve(&mut v, &mut disk, 0);
        assert!(v.complete_request(&mut back, false));
        assert_eq!(back, data);
        assert_eq!(&disk[(k * 512) as usize..(k * 512 + 512) as usize], &data[..]);
    }
}

#[test]
fn a_failed_request_leaves_the_buffer_alone() {
    let mut mem = PhysMemory::new(map());
    let mut m = device(8);
    let mut v = Virtio::new(&mut m, &mut mem);
    let mut disk = vec![9u8; 8 * 512];
    let mut buf = [0x33u8; 512];
    assert!(v.read_write_disk(&mut m, &buf, 1, false));
    serve(&mut v, &mut disk, 1);
    assert!(!v.virtq_is_busy());
    assert!(!v.complete_request(&mut buf, false));
    assert_eq!(buf, [0x33u8; 512]);
}

#[test]
fn ring_indices_wrap() {
    let mut mem = PhysMemory::new(map());
    let mut m = device(8);
    let mut v = Virtio::new(&mut m, &mut mem);
    let mut disk = vec![0u8; 8 * 512];
    v.blk_request_vq.avail.index = 0xffff;
    v.blk_request_vq.used.index = 0xffff;
    v.blk_request_vq.last_used_index = 0xffff;
    let buf = [1u8; 512];
    assert!(v.read_write_disk(&mut m, &buf, 0, true));
    assert_eq!(v.blk_request_vq.avail.ring[15], 0);
    assert_eq!(v.blk_request_vq.avail.index, 0);
    assert_eq!(v.blk_request_vq.last_used_index, 0);
    assert!(v.virtq_is_busy());
    serve(&mut v, &mut disk, 0);
    assert!(!v.virtq_is_busy());
}
