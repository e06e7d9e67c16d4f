//! The driver of the legacy (version 1) virtio block device.
//!
//! The driver's side of the device is state: the register window as the
//! driver reads and writes it, the virtqueue, and the request buffer. What
//! the device does with a request happens outside: between the kick that
//! `read_write_disk` ends with and the call of `complete_request`, the
//! device (or whatever stands for it) serves the request, writes the status
//! and, for a read, the data into the request buffer, and advances the
//! index of the used ring.

use vstd::prelude::*;
use crate::common::PAddr;
use crate::memory::{alloc_pages, allocated, lemma_page_index, PhysMemory};

verus! {

/// Number of entries of the virtqueue.
pub const VIRTQ_ENTRY_NUM: usize = 16;

/// Size of a sector in bytes.
pub const SECTOR_SIZE: u64 = 512;

/// Value of the magic register: `virt`.
pub const VIRTIO_MAGIC: u32 = 0x7472_6976;

/// Version of the legacy interface.
pub const VIRTIO_VERSION_LEGACY: u32 = 1;

/// Device id of a block device.
pub const VIRTIO_DEVICE_BLK: u32 = 2;

/// Offset of the magic register.
pub const VIRTIO_REG_MAGIC: usize = 0x00;

/// Offset of the version register.
pub const VIRTIO_REG_VERSION: usize = 0x04;

/// Offset of the device id register.
pub const VIRTIO_REG_DEVICE_ID: usize = 0x08;

/// Offset of the register that selects a queue.
pub const VIRTIO_REG_QUEUE_SEL: usize = 0x30;

/// Offset of the register that sets the size of the selected queue.
pub const VIRTIO_REG_QUEUE_NUM: usize = 0x38;

/// Offset of the register that sets the alignment of the used ring.
pub const VIRTIO_REG_QUEUE_ALIGN: usize = 0x3c;

/// Offset of the register that gives the place of the selected queue.
pub const VIRTIO_REG_QUEUE_PFN: usize = 0x40;

/// Offset of the register that tells the device of new requests.
pub const VIRTIO_REG_QUEUE_NOTIFY: usize = 0x50;

/// Offset of the device status register.
pub const VIRTIO_REG_DEVICE_STATUS: usize = 0x70;

/// Offset of the device configuration, which starts with the capacity.
pub const VIRTIO_REG_DEVICE_CONFIG: usize = 0x100;

/// Status bit: the driver has noticed the device.
pub const VIRTIO_STATUS_ACK: u32 = 1;

/// Status bit: the driver knows how to drive the device.
pub const VIRTIO_STATUS_DRIVER: u32 = 2;

/// Status bit: the driver is ready.
pub const VIRTIO_STATUS_DRIVER_OK: u32 = 4;

/// Status bit: the driver has accepted the features.
pub const VIRTIO_STATUS_FEAT_OK: u32 = 8;

/// Descriptor flag: the chain goes on with the descriptor `next`.
pub const VIRTQ_DESC_F_NEXT: u16 = 1;

/// Descriptor flag: the device writes the buffer (it reads it otherwise).
pub const VIRTQ_DESC_F_WRITE: u16 = 2;

/// Request type: read a sector.
pub const VIRTIO_BLK_T_IN: u32 = 0;

/// Request type: write a sector.
pub const VIRTIO_BLK_T_OUT: u32 = 1;

/// Number of pages that the virtqueue takes.
pub const VIRTQ_PAGES: usize = 2;

/// Number of pages that the request buffer takes.
pub const BLK_REQ_PAGES: usize = 1;

/// Length of the header of a request: type, reserved word and sector.
pub const BLK_REQ_HEADER_LEN: u32 = 16;

/// Offset of the data in a request.
pub const BLK_REQ_DATA: u64 = 16;

/// Offset of the status byte in a request.
pub const BLK_REQ_STATUS: u64 = 528;

/// A write to a register of the device.
#[derive(Clone, Copy, Debug, PartialEq, Eq, Structural)]
pub struct MmioWrite {
    pub offset: usize,
    pub value: u32,
}

/// The register window of the device as the driver sees it: the value of
/// each register that the driver uses, and the writes that the driver has
/// made, oldest first.
pub struct VirtioMmio {
    pub magic: u32,
    pub version: u32,
    pub device_id: u32,
    pub queue_sel: u32,
    pub queue_num: u32,
    pub queue_align: u32,
    pub queue_pfn: u32,
    pub queue_notify: u32,
    pub device_status: u32,
    /// Capacity of the device in sectors.
    pub capacity: u64,
    pub log: Vec<MmioWrite>,
}

/// Whether the driver reads the 32-bit register at `offset`.
pub open spec fn readable(offset: usize) -> bool {
    offset == VIRTIO_REG_MAGIC || offset == VIRTIO_REG_VERSION || offset == VIRTIO_REG_DEVICE_ID
        || offset == VIRTIO_REG_DEVICE_STATUS
}

/// Whether the driver writes the 32-bit register at `offset`.
pub open spec fn writable(offset: usize) -> bool {
    offset == VIRTIO_REG_QUEUE_SEL || offset == VIRTIO_REG_QUEUE_NUM || offset
        == VIRTIO_REG_QUEUE_ALIGN || offset == VIRTIO_REG_QUEUE_PFN || offset
        == VIRTIO_REG_QUEUE_NOTIFY || offset == VIRTIO_REG_DEVICE_STATUS
}

impl VirtioMmio {
    /// The value of the 32-bit register at `offset`.
    pub open spec fn reg(&self, offset: usize) -> u32 {
        if offset == VIRTIO_REG_MAGIC {
            self.magic
        } else if offset == VIRTIO_REG_VERSION {
            self.version
        } else if offset == VIRTIO_REG_DEVICE_ID {
            self.device_id
        } else if offset == VIRTIO_REG_QUEUE_SEL {
            self.queue_sel
        } else if offset == VIRTIO_REG_QUEUE_NUM {
            self.queue_num
        } else if offset == VIRTIO_REG_QUEUE_ALIGN {
            self.queue_align
        } else if offset == VIRTIO_REG_QUEUE_PFN {
            self.queue_pfn
        } else if offset == VIRTIO_REG_QUEUE_NOTIFY {
            self.queue_notify
        } else {
            self.device_status
        }
    }

    /// The window of a device that presents `magic`, `version`, `device_id`
    /// and a capacity of `capacity` sectors; every other register is zero
    /// and nothing was written yet.
    pub fn new(magic: u32, version: u32, device_id: u32, capacity: u64) -> (m: VirtioMmio)
        ensures
            m.magic == magic,
            m.version == version,
            m.device_id == device_id,
            m.capacity == capacity,
            m.queue_sel == 0,
            m.queue_num == 0,
            m.queue_align == 0,
            m.queue_pfn == 0,
            m.queue_notify == 0,
            m.device_status == 0,
            m.log@ == Seq::<MmioWrite>::empty(),
    {
        VirtioMmio {
            magic,
            version,
            device_id,
            queue_sel: 0,
            queue_num: 0,
            queue_align: 0,
            queue_pfn: 0,
            queue_notify: 0,
            device_status: 0,
            capacity,
            log: Vec::new(),
        }
    }
}

/// `post` is `pre` after `value` was written to the register at `offset`:
/// the register holds the value, the write is the last of the log, and
/// every other register is as it was.
pub open spec fn written(pre: VirtioMmio, post: VirtioMmio, offset: usize, value: u32) -> bool {
    &&& post.log@ == pre.log@.push(MmioWrite { offset, value })
    &&& post.magic == pre.magic
    &&& post.version == pre.version
    &&& post.device_id == pre.device_id
    &&& post.capacity == pre.capacity
    &&& post.queue_sel == if offset == VIRTIO_REG_QUEUE_SEL {
        value
    } else {
        pre.queue_sel
    }
    &&& post.queue_num == if offset == VIRTIO_REG_QUEUE_NUM {
        value
    } else {
        pre.queue_num
    }
    &&& post.queue_align == if offset == VIRTIO_REG_QUEUE_ALIGN {
        value
    } else {
        pre.queue_align
    }
    &&& post.queue_pfn == if offset == VIRTIO_REG_QUEUE_PFN {
        value
    } else {
        pre.queue_pfn
    }
    &&& post.queue_notify == if offset == VIRTIO_REG_QUEUE_NOTIFY {
        value
    } else {
        pre.queue_notify
    }
    &&& post.device_status == if offset == VIRTIO_REG_DEVICE_STATUS {
        value
    } else {
        pre.device_status
    }
}

/// Reads the 32-bit register at `offset`.
pub fn virtio_reg_read32(mmio: &VirtioMmio, offset: usize) -> (v: u32)
    requires
        readable(offset),
    ensures
        v == mmio.reg(offset),
{
    if offset == VIRTIO_REG_MAGIC {
        mmio.magic
    } else if offset == VIRTIO_REG_VERSION {
        mmio.version
    } else if offset == VIRTIO_REG_DEVICE_ID {
        mmio.device_id
    } else {
        mmio.device_status
    }
}

/// Reads the 64-bit register at `offset` of the device's configuration:
/// the capacity in sectors.
pub fn virtio_reg_read64(mmio: &VirtioMmio, offset: usize) -> (v: u64)
    requires
        offset == VIRTIO_REG_DEVICE_CONFIG,
    ensures
        v == mmio.capacity,
{
    mmio.capacity
}

/// Writes `value` to the 32-bit register at `offset`.
pub fn virtio_reg_write32(mmio: &mut VirtioMmio, offset: usize, value: u32)
    requires
        writable(offset),
    ensures
        written(*old(mmio), *final(mmio), offset, value),
{
    if offset == VIRTIO_REG_QUEUE_SEL {
        mmio.queue_sel = value;
    } else if offset == VIRTIO_REG_QUEUE_NUM {
        mmio.queue_num = value;
    } else if offset == VIRTIO_REG_QUEUE_ALIGN {
        mmio.queue_align = value;
    } else if offset == VIRTIO_REG_QUEUE_PFN {
        mmio.queue_pfn = value;
    } else if offset == VIRTIO_REG_QUEUE_NOTIFY {
        mmio.queue_notify = value;
    } else {
        mmio.device_status = value;
    }
    mmio.log.push(MmioWrite { offset, value });
}

/// Sets the bits of `value` in the register at `offset`: reads the
/// register and writes it back with the bits added.
pub fn virtio_reg_fetch_and_or32(mmio: &mut VirtioMmio, offset: usize, value: u32)
    requires
        offset == VIRTIO_REG_DEVICE_STATUS,
    ensures
        written(*old(mmio), *final(mmio), offset, old(mmio).reg(offset) | value),
{
    let current_value = virtio_reg_read32(mmio, offset);
    virtio_reg_write32(mmio, offset, current_value | value);
}

/// A descriptor of the virtqueue.
#[derive(Clone, Copy, Debug, PartialEq, Eq, Structural)]
pub struct VirtqDesc {
    pub addr: u64,
    pub len: u32,
    pub flags: u16,
    pub next: u16,
}

/// The available ring: the descriptor chains that the driver offers.
#[derive(Clone, Copy)]
pub struct VirtqAvail {
    pub flags: u16,
    pub index: u16,
    pub ring: [u16; 16],
}

/// An entry of the used ring.
#[derive(Clone, Copy, Debug, PartialEq, Eq, Structural)]
pub struct VirtqUsedElem {
    pub id: u32,
    pub len: u32,
}

/// The used ring: the descriptor chains that the device has served.
#[derive(Clone, Copy)]
pub struct VirtqUsed {
    pub flags: u16,
    pub index: u16,
    pub ring: [VirtqUsedElem; 16],
}

/// A legacy split virtqueue with the driver's bookkeeping.
#[derive(Clone, Copy)]
pub struct VirtioVirtq {
    pub descs: [VirtqDesc; 16],
    pub avail: VirtqAvail,
    pub used: VirtqUsed,
    /// Number of the queue at the device.
    pub queue_index: u32,
    /// Value that the index of the used ring has once every request that
    /// was issued is served.
    pub last_used_index: u16,
}

/// The buffer of a block request.
#[derive(Clone, Copy)]
pub struct VirtioBlkReq {
    pub type_: u32,
    pub reserved: u32,
    pub sector: u64,
    pub data: [u8; 512],
    pub status: u8,
}

/// The driver of the block device.
pub struct Virtio {
    pub blk_request_vq: VirtioVirtq,
    pub blk_req: VirtioBlkReq,
    /// Physical address of the virtqueue.
    pub virtq_paddr: PAddr,
    /// Physical address of the request buffer.
    pub blk_req_paddr: PAddr,
    /// Capacity of the device in bytes.
    pub blk_capacity: u64,
}

/// A virtqueue with every field zero.
pub open spec fn zero_virtq(vq: VirtioVirtq) -> bool {
    &&& forall|i: int|
        0 <= i < 16 ==> (#[trigger] vq.descs@[i]) == (VirtqDesc {
            addr: 0,
            len: 0,
            flags: 0,
            next: 0,
        })
    &&& vq.avail.flags == 0
    &&& vq.avail.index == 0
    &&& forall|i: int| 0 <= i < 16 ==> (#[trigger] vq.avail.ring@[i]) == 0
    &&& vq.used.flags == 0
    &&& vq.used.index == 0
    &&& forall|i: int|
        0 <= i < 16 ==> (#[trigger] vq.used.ring@[i]) == (VirtqUsedElem { id: 0, len: 0 })
    &&& vq.last_used_index == 0
}

/// A request buffer with every field zero.
pub open spec fn zero_req(req: VirtioBlkReq) -> bool {
    &&& req.type_ == 0
    &&& req.reserved == 0
    &&& req.sector == 0
    &&& req.status == 0
    &&& forall|i: int| 0 <= i < 512 ==> (#[trigger] req.data@[i]) == 0
}

/// The registers are those of a legacy virtio block device.
pub open spec fn is_block_device(mmio: VirtioMmio) -> bool {
    &&& mmio.magic == VIRTIO_MAGIC
    &&& mmio.version == VIRTIO_VERSION_LEGACY
    &&& mmio.device_id == VIRTIO_DEVICE_BLK
}

/// Whether the registers are those of a legacy virtio block device.
pub fn probe(mmio: &VirtioMmio) -> (b: bool)
    ensures
        b == is_block_device(*mmio),
{
    virtio_reg_read32(mmio, VIRTIO_REG_MAGIC) == VIRTIO_MAGIC && virtio_reg_read32(
        mmio,
        VIRTIO_REG_VERSION,
    ) == VIRTIO_VERSION_LEGACY && virtio_reg_read32(mmio, VIRTIO_REG_DEVICE_ID)
        == VIRTIO_DEVICE_BLK
}

/// The writes that initialise the device, in order, for a virtqueue at
/// `virtq_paddr`: the status is reset, then ACK, DRIVER and FEATURES_OK
/// are set one after the other; queue 0 is selected, its size is set to
/// 16 and its alignment to 0, and its place is given; then DRIVER_OK is
/// set. The queue's place is written to the PFN register as its physical
/// address, not as the number of its page.
pub open spec fn init_writes(virtq_paddr: PAddr) -> Seq<MmioWrite> {
    seq![
        MmioWrite { offset: VIRTIO_REG_DEVICE_STATUS, value: 0 },
        MmioWrite { offset: VIRTIO_REG_DEVICE_STATUS, value: 1 },
        MmioWrite { offset: VIRTIO_REG_DEVICE_STATUS, value: 3 },
        MmioWrite { offset: VIRTIO_REG_DEVICE_STATUS, value: 11 },
        MmioWrite { offset: VIRTIO_REG_QUEUE_SEL, value: 0 },
        MmioWrite { offset: VIRTIO_REG_QUEUE_NUM, value: 16 },
        MmioWrite { offset: VIRTIO_REG_QUEUE_ALIGN, value: 0 },
        MmioWrite { offset: VIRTIO_REG_QUEUE_PFN, value: virtq_paddr },
        MmioWrite { offset: VIRTIO_REG_DEVICE_STATUS, value: 15 },
    ]
}

impl Virtio {
    /// Number of sectors of the device.
    pub open spec fn sectors(&self) -> int {
        self.blk_capacity as int / 512
    }

    /// Whether a request is under way: one was issued and the device has
    /// not served it yet.
    pub open spec fn busy(&self) -> bool {
        self.blk_request_vq.last_used_index != self.blk_request_vq.used.index
    }

    /// Allocates and registers virtqueue number `index`.
    fn virtq_init(mmio: &mut VirtioMmio, mem: &mut PhysMemory, index: u32) -> (r: (
        VirtioVirtq,
        PAddr,
    ))
        requires
            old(mem).wf(),
            old(mem).free_pages() >= VIRTQ_PAGES,
        ensures
            final(mem).wf(),
            allocated(*old(mem), *final(mem), VIRTQ_PAGES as int, r.1),
            zero_virtq(r.0),
            r.0.queue_index == index,
            final(mmio).log@ == old(mmio).log@ + seq![
                MmioWrite { offset: VIRTIO_REG_QUEUE_SEL, value: index },
                MmioWrite { offset: VIRTIO_REG_QUEUE_NUM, value: 16 },
                MmioWrite { offset: VIRTIO_REG_QUEUE_ALIGN, value: 0 },
                MmioWrite { offset: VIRTIO_REG_QUEUE_PFN, value: r.1 },
            ],
            final(mmio).queue_sel == index,
            final(mmio).queue_num == 16,
            final(mmio).queue_align == 0,
            final(mmio).queue_pfn == r.1,
            final(mmio).queue_notify == old(mmio).queue_notify,
            final(mmio).device_status == old(mmio).device_status,
            final(mmio).magic == old(mmio).magic,
            final(mmio).version == old(mmio).version,
            final(mmio).device_id == old(mmio).device_id,
            final(mmio).capacity == old(mmio).capacity,
    {
        let virtq_paddr = alloc_pages(mem, VIRTQ_PAGES);
        let vq = VirtioVirtq {
            descs: [VirtqDesc { addr: 0, len: 0, flags: 0, next: 0 };16],
            avail: VirtqAvail { flags: 0, index: 0, ring: [0u16; 16] },
            used: VirtqUsed { flags: 0, index: 0, ring: [VirtqUsedElem { id: 0, len: 0 };16] },
            queue_index: index,
            last_used_index: 0,
        };
        virtio_reg_write32(mmio, VIRTIO_REG_QUEUE_SEL, index);
        virtio_reg_write32(mmio, VIRTIO_REG_QUEUE_NUM, VIRTQ_ENTRY_NUM as u32);
        virtio_reg_write32(mmio, VIRTIO_REG_QUEUE_ALIGN, 0);
        virtio_reg_write32(mmio, VIRTIO_REG_QUEUE_PFN, virtq_paddr);
        proof {
            assert(mmio.log@ =~= old(mmio).log@ + seq![
                MmioWrite { offset: VIRTIO_REG_QUEUE_SEL, value: index },
                MmioWrite { offset: VIRTIO_REG_QUEUE_NUM, value: 16 },
                MmioWrite { offset: VIRTIO_REG_QUEUE_ALIGN, value: 0 },
                MmioWrite { offset: VIRTIO_REG_QUEUE_PFN, value: virtq_paddr },
            ]);
        }
        (vq, virtq_paddr)
    }

    /// Initialises the device and returns its driver.
    ///
    /// The device is reset and taken through the handshake; virtqueue 0 is
    /// allocated, zeroed and registered; the capacity is read; the request
    /// buffer is allocated.
    pub fn new(mmio: &mut VirtioMmio, mem: &mut PhysMemory) -> (v: Virtio)
        requires
            is_block_device(*old(mmio)),
            old(mmio).capacity * 512 <= u64::MAX,
            old(mem).wf(),
            old(mem).free_pages() >= VIRTQ_PAGES + BLK_REQ_PAGES,
        ensures
            final(mem).wf(),
            final(mem).map == old(mem).map,
            v.virtq_paddr == old(mem).next_paddr,
            v.blk_req_paddr == old(mem).next_paddr + 4096 * VIRTQ_PAGES,
            final(mem).next_paddr == old(mem).next_paddr + 4096 * (VIRTQ_PAGES + BLK_REQ_PAGES),
            forall|addr: int|
                old(mem).is_allocated(addr) ==> #[trigger] final(mem).page(addr) == old(mem).page(
                    addr,
                ),
            v.blk_capacity == old(mmio).capacity * 512,
            zero_virtq(v.blk_request_vq),
            v.blk_request_vq.queue_index == 0,
            zero_req(v.blk_req),
            !v.busy(),
            final(mmio).log@ == old(mmio).log@ + init_writes(v.virtq_paddr),
            final(mmio).device_status == 15,
            final(mmio).queue_sel == 0,
            final(mmio).queue_num == 16,
            final(mmio).queue_align == 0,
            final(mmio).queue_pfn == v.virtq_paddr,
            final(mmio).queue_notify == old(mmio).queue_notify,
            is_block_device(*final(mmio)),
            final(mmio).capacity == old(mmio).capacity,
    {
        virtio_reg_write32(mmio, VIRTIO_REG_DEVICE_STATUS, 0);
        let ghost m0 = *mmio;
        virtio_reg_fetch_and_or32(mmio, VIRTIO_REG_DEVICE_STATUS, VIRTIO_STATUS_ACK);
        let ghost m1 = *mmio;
        virtio_reg_fetch_and_or32(mmio, VIRTIO_REG_DEVICE_STATUS, VIRTIO_STATUS_DRIVER);
        let ghost m2 = *mmio;
        virtio_reg_fetch_and_or32(mmio, VIRTIO_REG_DEVICE_STATUS, VIRTIO_STATUS_FEAT_OK);
        let ghost m3 = *mmio;
        proof {
            assert(0u32 | 1 == 1 && 1u32 | 2 == 3 && 3u32 | 8 == 11 && 11u32 | 4 == 15)
                by (bit_vector);
        }
        let (blk_request_vq, virtq_paddr) = Self::virtq_init(mmio, mem, 0);
        let ghost m4 = *mmio;
        let ghost mem1 = *mem;
        virtio_reg_fetch_and_or32(mmio, VIRTIO_REG_DEVICE_STATUS, VIRTIO_STATUS_DRIVER_OK);
        let blk_capacity = virtio_reg_read64(mmio, VIRTIO_REG_DEVICE_CONFIG) * SECTOR_SIZE;
        let blk_req_paddr = alloc_pages(mem, BLK_REQ_PAGES);
        proof {
            assert(mmio.log@ =~= old(mmio).log@ + init_writes(virtq_paddr));
            assert forall|addr: int| old(mem).is_allocated(addr) implies #[trigger] mem.page(addr)
                == old(mem).page(addr) by {
                let p = old(mem).page_index(addr);
                lemma_page_index(*mem, addr);
                lemma_page_index(*mem, old(mem).next_paddr as int);
                lemma_page_index(*mem, mem1.next_paddr as int);
                assert(mem1.pages@[p] == old(mem).pages@[p]);
                assert(mem.pages@[p] == mem1.pages@[p]);
            }
        }
        Virtio {
            blk_request_vq,
            blk_req: VirtioBlkReq { type_: 0, reserved: 0, sector: 0, data: [0u8; 512], status: 0 },
            virtq_paddr,
            blk_req_paddr,
            blk_capacity,
        }
    }
}

/// The three descriptors of a request whose buffer lies at `req_paddr`:
/// the header, which the device reads; the data, which the device reads
/// for a write and writes for a read; and the status byte, which the
/// device writes.
pub open spec fn request_descs(req_paddr: PAddr, is_write: bool) -> Seq<VirtqDesc> {
    seq![
        VirtqDesc { addr: req_paddr as u64, len: 16, flags: VIRTQ_DESC_F_NEXT, next: 1 },
        VirtqDesc {
            addr: (req_paddr + 16) as u64,
            len: 512,
            flags: if is_write {
                1u16
            } else {
                3u16
            },
            next: 2,
        },
        VirtqDesc { addr: (req_paddr + 528) as u64, len: 1, flags: VIRTQ_DESC_F_WRITE, next: 0 },
    ]
}

/// The index after `i` of a ring, counted modulo 2^16.
pub open spec fn next_index(i: u16) -> u16 {
    if i == 0xffff {
        0
    } else {
        (i + 1) as u16
    }
}

/// `post` is the queue `pre` after the descriptor chain that starts at
/// `desc_index` was offered to the device: the chain is the newest entry
/// of the available ring, the index of that ring is one further, and the
/// driver expects the used ring to get one further.
pub open spec fn kicked(pre: VirtioVirtq, post: VirtioVirtq, desc_index: u16) -> bool {
    &&& post.descs == pre.descs
    &&& post.used == pre.used
    &&& post.queue_index == pre.queue_index
    &&& post.avail.flags == pre.avail.flags
    &&& post.avail.ring@ == pre.avail.ring@.update(pre.avail.index as int % 16, desc_index)
    &&& post.avail.index == next_index(pre.avail.index)
    &&& post.last_used_index == next_index(pre.last_used_index)
}

/// `post` and `post_mmio` are the driver `pre` and the registers
/// `pre_mmio` after a request for `sector` was issued: a write of the
/// first 512 bytes of `buf` where `is_write`, a read otherwise.
///
/// The request buffer holds the type and the sector, and for a write the
/// data. Descriptors 0, 1 and 2 describe the request. The chain that
/// starts at descriptor 0 was offered to the device, and the device was
/// notified of it by a write of the queue's number to the notify register.
pub open spec fn issued(
    pre: Virtio,
    pre_mmio: VirtioMmio,
    post: Virtio,
    post_mmio: VirtioMmio,
    buf: Seq<u8>,
    sector: u64,
    is_write: bool,
) -> bool {
    &&& post.virtq_paddr == pre.virtq_paddr
    &&& post.blk_req_paddr == pre.blk_req_paddr
    &&& post.blk_capacity == pre.blk_capacity
    &&& post.blk_req.sector == sector
    &&& post.blk_req.type_ == if is_write {
        VIRTIO_BLK_T_OUT
    } else {
        VIRTIO_BLK_T_IN
    }
    &&& post.blk_req.reserved == pre.blk_req.reserved
    &&& post.blk_req.status == pre.blk_req.status
    &&& post.blk_req.data@ == if is_write {
        buf.take(512)
    } else {
        pre.blk_req.data@
    }
    &&& post.blk_request_vq.descs@.take(3) == request_descs(pre.blk_req_paddr, is_write)
    &&& post.blk_request_vq.descs@.skip(3) == pre.blk_request_vq.descs@.skip(3)
    &&& kicked(
        VirtioVirtq { descs: post.blk_request_vq.descs, ..pre.blk_request_vq },
        post.blk_request_vq,
        0,
    )
    &&& written(pre_mmio, post_mmio, VIRTIO_REG_QUEUE_NOTIFY, pre.blk_request_vq.queue_index)
}

/// `post_buf` is the caller's buffer `pre_buf` after the request that the
/// driver `v` had issued was completed: where the device reports success
/// for a read, the buffer holds the data that the device delivered; in
/// every other case it is as it was.
pub open spec fn completed(v: Virtio, pre_buf: Seq<u8>, post_buf: Seq<u8>, is_write: bool) -> bool {
    post_buf == if v.blk_req.status == 0 && !is_write {
        v.blk_req.data@
    } else {
        pre_buf
    }
}

impl Virtio {
    /// Offers the descriptor chain that starts at `desc_index` to the
    /// device and notifies the device.
    fn virtq_kick(vq: &mut VirtioVirtq, mmio: &mut VirtioMmio, desc_index: u16)
        ensures
            kicked(*old(vq), *final(vq), desc_index),
            written(*old(mmio), *final(mmio), VIRTIO_REG_QUEUE_NOTIFY, old(vq).queue_index),
    {
        vq.avail.ring[vq.avail.index as usize % VIRTQ_ENTRY_NUM] = desc_index;
        vq.avail.index = vq.avail.index.wrapping_add(1);
        virtio_reg_write32(mmio, VIRTIO_REG_QUEUE_NOTIFY, vq.queue_index);
        vq.last_used_index = vq.last_used_index.wrapping_add(1);
    }

    /// Whether the device has yet to serve a request that was issued.
    pub fn virtq_is_busy(&self) -> (b: bool)
        ensures
            b == self.busy(),
    {
        self.blk_request_vq.last_used_index != self.blk_request_vq.used.index
    }

    /// Issues a request to read or write the 512-byte sector `sector`.
    ///
    /// A sector at or behind the capacity of the device is refused: nothing
    /// changes and the result is `false`. Otherwise the request is set up
    /// (for a write with the first 512 bytes of `buf` as its data) and
    /// handed to the device, and the result is `true`. The request is done
    /// once `virtq_is_busy` is false; `complete_request` then ends it.
    pub fn read_write_disk(
        &mut self,
        mmio: &mut VirtioMmio,
        buf: &[u8],
        sector: u64,
        is_write: bool,
    ) -> (accepted: bool)
        requires
            buf@.len() >= 512,
        ensures
            accepted == (sector < old(self).sectors()),
            !accepted ==> *final(self) == *old(self) && *final(mmio) == *old(mmio),
            accepted ==> issued(
                *old(self),
                *old(mmio),
                *final(self),
                *final(mmio),
                buf@,
                sector,
                is_write,
            ),
    {
        if sector >= self.blk_capacity / SECTOR_SIZE {
            return false;
        }
        self.blk_req.sector = sector;
        self.blk_req.type_ = if is_write {
            VIRTIO_BLK_T_OUT
        } else {
            VIRTIO_BLK_T_IN
        };
        if is_write {
            let mut k: usize = 0;
            while k < 512
                invariant
                    k <= 512 <= buf@.len(),
                    self.blk_request_vq == old(self).blk_request_vq,
                    self.virtq_paddr == old(self).virtq_paddr,
                    self.blk_req_paddr == old(self).blk_req_paddr,
                    self.blk_capacity == old(self).blk_capacity,
                    self.blk_req.sector == sector,
                    self.blk_req.type_ == VIRTIO_BLK_T_OUT,
                    self.blk_req.reserved == old(self).blk_req.reserved,
                    self.blk_req.status == old(self).blk_req.status,
                    forall|j: int| 0 <= j < k ==> self.blk_req.data@[j] == buf@[j],
                decreases 512 - k,
            {
                self.blk_req.data[k] = buf[k];
                k += 1;
            }
            assert(self.blk_req.data@ =~= buf@.take(512));
        }
        let base: u32 = self.blk_req_paddr;
        self.blk_request_vq.descs[0] = VirtqDesc {
            addr: base as u64,
            len: BLK_REQ_HEADER_LEN,
            flags: VIRTQ_DESC_F_NEXT,
            next: 1,
        };
        self.blk_request_vq.descs[1] = VirtqDesc {
            addr: base as u64 + BLK_REQ_DATA,
            len: SECTOR_SIZE as u32,
            flags: if is_write {
                VIRTQ_DESC_F_NEXT
            } else {
                VIRTQ_DESC_F_NEXT | VIRTQ_DESC_F_WRITE
            },
            next: 2,
        };
        self.blk_request_vq.descs[2] = VirtqDesc {
            addr: base as u64 + BLK_REQ_STATUS,
            len: 1,
            flags: VIRTQ_DESC_F_WRITE,
            next: 0,
        };
        proof {
            assert(1u16 | 2u16 == 3u16) by (bit_vector);
            assert(self.blk_request_vq.descs@.take(3) =~= request_descs(base, is_write));
            assert(self.blk_request_vq.descs@.skip(3) =~= old(self).blk_request_vq.descs@.skip(3));
        }
        Self::virtq_kick(&mut self.blk_request_vq, mmio, 0);
        true
    }

    /// Ends a request that the device has served.
    ///
    /// The result says whether the device reports success, that is a
    /// status of zero. For a read that succeeded, the sector is copied
    /// into `buf`; in every other case `buf` is left as it is.
    pub fn complete_request(&self, buf: &mut [u8; 512], is_write: bool) -> (ok: bool)
        requires
            !self.busy(),
        ensures
            ok == (self.blk_req.status == 0),
            completed(*self, old(buf)@, final(buf)@, is_write),
    {
        if self.blk_req.status != 0 {
            return false;
        }
        if !is_write {
            let mut k: usize = 0;
            while k < 512
                invariant
                    k <= 512,
                    forall|j: int| 0 <= j < k ==> buf@[j] == self.blk_req.data@[j],
                decreases 512 - k,
            {
                buf[k] = self.blk_req.data[k];
                k += 1;
            }
            assert(buf@ =~= self.blk_req.data@);
        }
        true
    }
}

/// `disk` with the bytes of sector `sector` replaced by `data`.
pub open spec fn with_sector(disk: Seq<u8>, sector: int, data: Seq<u8>) -> Seq<u8> {
    Seq::new(
        disk.len(),
        |k: int|
            if sector * 512 <= k < sector * 512 + 512 {
                data[k - sector * 512]
            } else {
                disk[k]
            },
    )
}

/// What a device that works does with the request that the driver `pre`
/// has issued, on a disk that holds `pre_disk`.
///
/// It serves a write by storing the data of the request in the sector, and
/// a read by delivering the sector as the data of the request. It reports
/// success in the status byte and moves the index of the used ring on to
/// where the driver expects it. `post` and `post_disk` are the driver and
/// the disk after that.
pub open spec fn served(pre: Virtio, post: Virtio, pre_disk: Seq<u8>, post_disk: Seq<u8>) -> bool {
    let sector = pre.blk_req.sector as int;
    &&& post.virtq_paddr == pre.virtq_paddr
    &&& post.blk_req_paddr == pre.blk_req_paddr
    &&& post.blk_capacity == pre.blk_capacity
    &&& post.blk_request_vq.last_used_index == pre.blk_request_vq.last_used_index
    &&& post.blk_request_vq.used.index == pre.blk_request_vq.last_used_index
    &&& post.blk_req.sector == pre.blk_req.sector
    &&& post.blk_req.type_ == pre.blk_req.type_
    &&& post.blk_req.status == 0
    &&& if pre.blk_req.type_ == VIRTIO_BLK_T_OUT {
        &&& post_disk == with_sector(pre_disk, sector, pre.blk_req.data@)
        &&& post.blk_req.data@ == pre.blk_req.data@
    } else {
        &&& post_disk == pre_disk
        &&& post.blk_req.data@ == pre_disk.subrange(sector * 512, sector * 512 + 512)
    }
}

/// A sector that was written is read back as it was written.
///
/// Let a write of the buffer `written` to sector `sector` be issued,
/// served and completed, and then a read of the same sector into a buffer
/// be issued, served and completed, with a device that works and a disk as
/// large as the capacity that the driver knows. Then the read succeeds and
/// the buffer holds the 512 bytes that were written.
pub proof fn lemma_write_then_read(
    v0: Virtio,
    v1: Virtio,
    v2: Virtio,
    v3: Virtio,
    v4: Virtio,
    m0: VirtioMmio,
    m1: VirtioMmio,
    m2: VirtioMmio,
    d0: Seq<u8>,
    d1: Seq<u8>,
    d2: Seq<u8>,
    sector: u64,
    data: Seq<u8>,
    dummy: Seq<u8>,
    before: Seq<u8>,
    after: Seq<u8>,
)
    requires
        data.len() == 512,
        sector < v0.sectors(),
        d0.len() == v0.blk_capacity,
        issued(v0, m0, v1, m1, data, sector, true),
        served(v1, v2, d0, d1),
        issued(v2, m1, v3, m2, dummy, sector, false),
        served(v3, v4, d1, d2),
        completed(v4, before, after, false),
    ensures
        v2.blk_req.status == 0,
        v4.blk_req.status == 0,
        !v2.busy(),
        !v4.busy(),
        after == data,
        d2 == with_sector(d0, sector as int, data),
{
    assert(data.take(512) =~= data);
    assert(d1.subrange(sector * 512, sector * 512 + 512) =~= data);
}

} // verus!
