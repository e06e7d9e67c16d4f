//! Memory as a program sees it: bytes at virtual addresses.
//!
//! A virtual address is translated by a walk of the page tables; the byte
//! it stands for is a byte of a word of a page of RAM, lowest byte first.
//! The kernel reads and writes the memory of a process this way, byte by
//! byte, and stops where an address is not mapped.

use vstd::prelude::*;
use vstd::arithmetic::div_mod::lemma_fundamental_div_mod_converse;
use crate::common::{PAddr, VAddr};
use crate::memory::{
    lemma_page_index, lemma_page_vpn, lemma_pages_apart, lemma_tables_kept, pte_addr, pte_valid,
    walk, PhysMemory,
};

verus! {

/// Byte `k` of the word `w`, the lowest byte first.
pub open spec fn byte_of(w: u32, k: int) -> u8 {
    if k == 0 {
        (w & 0xff) as u8
    } else if k == 1 {
        ((w >> 8) & 0xff) as u8
    } else if k == 2 {
        ((w >> 16) & 0xff) as u8
    } else {
        ((w >> 24) & 0xff) as u8
    }
}

/// The word `w` with its byte `k` replaced by `b`.
pub open spec fn with_byte(w: u32, k: int, b: u8) -> u32 {
    if k == 0 {
        (w & 0xffff_ff00) | (b as u32)
    } else if k == 1 {
        (w & 0xffff_00ff) | ((b as u32) << 8)
    } else if k == 2 {
        (w & 0xff00_ffff) | ((b as u32) << 16)
    } else {
        (w & 0x00ff_ffff) | ((b as u32) << 24)
    }
}

/// A byte that was put into a word is found there, and the other bytes of
/// the word are as they were.
pub proof fn lemma_with_byte(w: u32, k: int, b: u8)
    requires
        0 <= k < 4,
    ensures
        byte_of(with_byte(w, k, b), k) == b,
        forall|j: int| 0 <= j < 4 && j != k ==> byte_of(with_byte(w, k, b), j) == byte_of(w, j),
{
    let x = b as u32;
    assert(x < 256 ==> {
        &&& ((w & 0xffff_ff00) | x) & 0xff == x
        &&& (((w & 0xffff_ff00) | x) >> 8) & 0xff == (w >> 8) & 0xff
        &&& (((w & 0xffff_ff00) | x) >> 16) & 0xff == (w >> 16) & 0xff
        &&& (((w & 0xffff_ff00) | x) >> 24) & 0xff == (w >> 24) & 0xff
        &&& ((w & 0xffff_00ff) | (x << 8)) & 0xff == w & 0xff
        &&& (((w & 0xffff_00ff) | (x << 8)) >> 8) & 0xff == x
        &&& (((w & 0xffff_00ff) | (x << 8)) >> 16) & 0xff == (w >> 16) & 0xff
        &&& (((w & 0xffff_00ff) | (x << 8)) >> 24) & 0xff == (w >> 24) & 0xff
        &&& ((w & 0xff00_ffff) | (x << 16)) & 0xff == w & 0xff
        &&& (((w & 0xff00_ffff) | (x << 16)) >> 8) & 0xff == (w >> 8) & 0xff
        &&& (((w & 0xff00_ffff) | (x << 16)) >> 16) & 0xff == x
        &&& (((w & 0xff00_ffff) | (x << 16)) >> 24) & 0xff == (w >> 24) & 0xff
        &&& ((w & 0x00ff_ffff) | (x << 24)) & 0xff == w & 0xff
        &&& (((w & 0x00ff_ffff) | (x << 24)) >> 8) & 0xff == (w >> 8) & 0xff
        &&& (((w & 0x00ff_ffff) | (x << 24)) >> 16) & 0xff == (w >> 16) & 0xff
        &&& (((w & 0x00ff_ffff) | (x << 24)) >> 24) & 0xff == x
    }) by (bit_vector);
}

/// The parts of a shifted and masked word are bytes.
pub proof fn lemma_byte_range(w: u32)
    ensures
        w & 0xff < 256,
        (w >> 8) & 0xff < 256,
        (w >> 16) & 0xff < 256,
        (w >> 24) & 0xff < 256,
{
    assert(w & 0xff < 256 && (w >> 8) & 0xff < 256 && (w >> 16) & 0xff < 256 && (w >> 24) & 0xff
        < 256) by (bit_vector);
}

/// Byte `k` of the word `w`.
pub fn get_byte(w: u32, k: usize) -> (b: u8)
    requires
        k < 4,
    ensures
        b == byte_of(w, k as int),
{
    proof {
        lemma_byte_range(w);
    }
    if k == 0 {
        (w & 0xff) as u8
    } else if k == 1 {
        ((w >> 8) & 0xff) as u8
    } else if k == 2 {
        ((w >> 16) & 0xff) as u8
    } else {
        ((w >> 24) & 0xff) as u8
    }
}

/// The word `w` with its byte `k` replaced by `b`.
pub fn set_byte(w: u32, k: usize, b: u8) -> (r: u32)
    requires
        k < 4,
    ensures
        r == with_byte(w, k as int, b),
{
    if k == 0 {
        (w & 0xffff_ff00) | (b as u32)
    } else if k == 1 {
        (w & 0xffff_00ff) | ((b as u32) << 8)
    } else if k == 2 {
        (w & 0xff00_ffff) | ((b as u32) << 16)
    } else {
        (w & 0x00ff_ffff) | ((b as u32) << 24)
    }
}

impl PhysMemory {
    /// Whether `addr` is the address of a byte of free RAM.
    pub open spec fn in_ram(&self, addr: int) -> bool {
        self.map.free_ram <= addr < self.map.free_ram_end
    }

    /// The byte at the physical address `addr`.
    pub open spec fn phys_byte(&self, addr: int) -> u8 {
        byte_of(self.page(addr - addr % 4096)[(addr % 4096) / 4], (addr % 4096) % 4)
    }

    /// The physical address that the virtual address `vaddr` stands for
    /// under `root`, where the address is mapped to a page of RAM.
    pub open spec fn spec_translate(&self, root: PAddr, vaddr: VAddr) -> Option<int> {
        match self.spec_walk(root, vaddr) {
            Some(e) => if self.is_page(pte_addr(e)) {
                Some(pte_addr(e) + vaddr % 4096)
            } else {
                None
            },
            None => None,
        }
    }

    /// The byte at the virtual address `vaddr` under `root`, where the
    /// address is mapped to a page of RAM.
    pub open spec fn virt_byte(&self, root: PAddr, vaddr: VAddr) -> Option<u8> {
        match self.spec_translate(root, vaddr) {
            Some(addr) => Some(self.phys_byte(addr)),
            None => None,
        }
    }

    /// The bytes at the `n` virtual addresses from `vaddr` on, where all of
    /// them are mapped to RAM.
    pub open spec fn virt_bytes(&self, root: PAddr, vaddr: int, n: int) -> Option<Seq<u8>> {
        if 0 <= n && 0 <= vaddr && vaddr + n <= 0x1_0000_0000 && forall|i: int|
            0 <= i < n ==> (#[trigger] self.virt_byte(root, (vaddr + i) as u32)).is_some() {
            Some(Seq::new(n as nat, |i: int| self.virt_byte(root, (vaddr + i) as u32).unwrap()))
        } else {
            None
        }
    }
}

/// Translates the virtual address `vaddr` under `root` to the physical
/// address it stands for, where it is mapped to a page of RAM.
pub fn translate(mem: &PhysMemory, root: PAddr, vaddr: VAddr) -> (r: Option<PAddr>)
    requires
        mem.wf(),
        mem.is_page(root as int),
    ensures
        match r {
            Some(addr) => mem.spec_translate(root, vaddr) == Some(addr as int) && mem.in_ram(
                addr as int,
            ),
            None => mem.spec_translate(root, vaddr).is_none(),
        },
{
    match walk(mem, root, vaddr) {
        Some(e) => {
            let page: u64 = (e >> 10) as u64 * 4096;
            if page < mem.map.free_ram as u64 || page >= mem.map.free_ram_end as u64 {
                None
            } else {
                Some(page as u32 + vaddr % 4096)
            }
        },
        None => None,
    }
}

/// Reads the byte at the physical address `addr`.
pub fn read_byte(mem: &PhysMemory, addr: PAddr) -> (b: u8)
    requires
        mem.wf(),
        mem.in_ram(addr as int),
    ensures
        b == mem.phys_byte(addr as int),
{
    let p: usize = ((addr - mem.map.free_ram) / 4096) as usize;
    let off: u32 = addr % 4096;
    proof {
        lemma_addr_parts(mem.map.free_ram as int, addr as int);
    }
    get_byte(mem.pages[p][(off / 4) as usize], (off % 4) as usize)
}

/// The place of a byte in RAM: the index of its page, of its word in the
/// page, and of the byte in the word.
pub open spec fn byte_place(free_ram: int, addr: int) -> (int, int, int) {
    ((addr - addr % 4096 - free_ram) / 4096, (addr % 4096) / 4, (addr % 4096) % 4)
}

/// An address is its page number times the size of a page, and the offset
/// in the page; the offset is its word number times four, and the offset
/// in the word.
proof fn lemma_addr_parts(free_ram: int, a: int)
    requires
        free_ram % 4096 == 0,
        free_ram <= a,
    ensures
        a == free_ram + 4096 * byte_place(free_ram, a).0 + 4 * byte_place(free_ram, a).1
            + byte_place(free_ram, a).2,
        0 <= byte_place(free_ram, a).1 < 1024,
        0 <= byte_place(free_ram, a).2 < 4,
        byte_place(free_ram, a).0 == (a - free_ram) / 4096,
{
    let off = a % 4096;
    let base = a - off - free_ram;
    assert(base % 4096 == 0);
    assert(base == 4096 * (base / 4096));
    assert(off == 4 * (off / 4) + off % 4);
}

/// Bytes at different addresses lie at different places.
proof fn lemma_byte_place(free_ram: int, a: int, b: int)
    requires
        free_ram % 4096 == 0,
        free_ram <= a,
        free_ram <= b,
        a != b,
    ensures
        byte_place(free_ram, a) != byte_place(free_ram, b),
{
    lemma_addr_parts(free_ram, a);
    lemma_addr_parts(free_ram, b);
}

/// Writes the byte `b` at the physical address `addr`.
#[verifier::rlimit(50)]
pub fn write_byte(mem: &mut PhysMemory, addr: PAddr, b: u8)
    requires
        old(mem).wf(),
        old(mem).in_ram(addr as int),
    ensures
        final(mem).wf(),
        final(mem).map == old(mem).map,
        final(mem).next_paddr == old(mem).next_paddr,
        final(mem).pages@.len() == old(mem).pages@.len(),
        final(mem).phys_byte(addr as int) == b,
        forall|a: int|
            a != addr && old(mem).in_ram(a) ==> #[trigger] final(mem).phys_byte(a) == old(
                mem,
            ).phys_byte(a),
        forall|a: int|
            old(mem).is_page(a) && a != addr - addr % 4096 ==> #[trigger] final(mem).page(a)
                == old(mem).page(a),
{
    let p: usize = ((addr - mem.map.free_ram) / 4096) as usize;
    let off: u32 = addr % 4096;
    let i: usize = (off / 4) as usize;
    let k: usize = (off % 4) as usize;
    let ghost fr = mem.map.free_ram as int;
    proof {
        lemma_addr_parts(fr, addr as int);
    }
    let w: u32 = mem.pages[p][i];
    proof {
        lemma_with_byte(w, k as int, b);
    }
    mem.pages[p][i] = set_byte(w, k, b);
    proof {
        assert(byte_place(fr, addr as int) == (p as int, i as int, k as int));
        assert forall|a: int| a != addr && old(mem).in_ram(a) implies #[trigger] mem.phys_byte(a)
            == old(mem).phys_byte(a) by {
            lemma_byte_place(fr, a, addr as int);
            lemma_addr_parts(fr, a);
            let (q, j, l) = byte_place(fr, a);
            assert(mem.phys_byte(a) == byte_of(mem.pages@[q]@[j], l));
            assert(old(mem).phys_byte(a) == byte_of(old(mem).pages@[q]@[j], l));
        }
        assert forall|a: int|
            old(mem).is_page(a) && a != addr - addr % 4096 implies #[trigger] mem.page(a) == old(
            mem,
        ).page(a) by {
            lemma_page_index(*old(mem), a);
            lemma_page_index(*old(mem), addr - addr % 4096);
        }
    }
}

impl PhysMemory {
    /// Length of the NUL-terminated string at the virtual address `vaddr`
    /// under `root`: the number of bytes before the first NUL, where every
    /// byte up to and including that NUL is mapped to RAM.
    pub open spec fn virt_strlen(&self, root: PAddr, vaddr: int) -> Option<int>
        decreases 0x1_0000_0000 - vaddr,
    {
        if vaddr < 0 || vaddr >= 0x1_0000_0000 {
            None
        } else {
            match self.virt_byte(root, vaddr as u32) {
                None => None,
                Some(b) => if b == 0 {
                    Some(0)
                } else {
                    match self.virt_strlen(root, vaddr + 1) {
                        Some(n) => Some(n + 1),
                        None => None,
                    }
                },
            }
        }
    }

    /// The NUL-terminated string at the virtual address `vaddr` under
    /// `root`, without its terminator.
    pub open spec fn virt_str(&self, root: PAddr, vaddr: int) -> Option<Seq<u8>> {
        match self.virt_strlen(root, vaddr) {
            Some(n) => self.virt_bytes(root, vaddr, n),
            None => None,
        }
    }

    /// The physical addresses that the `n` virtual addresses from `vaddr`
    /// on stand for, where all of them are mapped to RAM.
    pub open spec fn phys_addrs(&self, root: PAddr, vaddr: int, n: int) -> Option<Seq<int>> {
        if 0 <= n && 0 <= vaddr && vaddr + n <= 0x1_0000_0000 && forall|i: int|
            0 <= i < n ==> (#[trigger] self.spec_translate(root, (vaddr + i) as u32)).is_some() {
            Some(
                Seq::new(
                    n as nat,
                    |i: int| self.spec_translate(root, (vaddr + i) as u32).unwrap(),
                ),
            )
        } else {
            None
        }
    }
}

/// The byte that was stored last at `addr` when the bytes `bytes` were
/// stored, one after the other, at the addresses `addrs`.
pub open spec fn last_store(addrs: Seq<int>, bytes: Seq<u8>, addr: int) -> Option<u8>
    decreases addrs.len(),
{
    if addrs.len() == 0 {
        None
    } else if addrs.last() == addr {
        Some(bytes[addrs.len() - 1])
    } else {
        last_store(addrs.drop_last(), bytes, addr)
    }
}

/// `post` is `pre` after the bytes `bytes` were stored, one after the
/// other, at the physical addresses `addrs`: every byte of RAM holds what
/// was stored there last, or what it held.
pub open spec fn stored(
    pre: PhysMemory,
    post: PhysMemory,
    addrs: Seq<int>,
    bytes: Seq<u8>,
) -> bool {
    &&& post.map == pre.map
    &&& post.next_paddr == pre.next_paddr
    &&& post.pages@.len() == pre.pages@.len()
    &&& forall|a: int|
        pre.in_ram(a) ==> #[trigger] post.phys_byte(a) == match last_store(addrs, bytes, a) {
            Some(b) => b,
            None => pre.phys_byte(a),
        }
}

/// Reads the `n` bytes at the virtual addresses from `vaddr` on. The
/// result is `None` where one of them is not mapped to RAM.
pub fn copy_from_user(mem: &PhysMemory, root: PAddr, vaddr: VAddr, n: usize) -> (r: Option<Vec<u8>>)
    requires
        mem.wf(),
        mem.is_page(root as int),
    ensures
        match r {
            Some(v) => mem.virt_bytes(root, vaddr as int, n as int) == Some(v@),
            None => mem.virt_bytes(root, vaddr as int, n as int).is_none(),
        },
{
    if n as u64 > 0x1_0000_0000 - vaddr as u64 {
        return None;
    }
    let mut out: Vec<u8> = Vec::new();
    let mut i: usize = 0;
    while i < n
        invariant
            i <= n,
            vaddr + n <= 0x1_0000_0000,
            mem.wf(),
            mem.is_page(root as int),
            out@.len() == i,
            forall|j: int|
                0 <= j < i ==> (#[trigger] mem.virt_byte(root, (vaddr + j) as u32)) == Some(
                    out@[j],
                ),
        decreases n - i,
    {
        let va: u32 = vaddr + i as u32;
        match translate(mem, root, va) {
            Some(addr) => {
                out.push(read_byte(mem, addr));
            },
            None => {
                assert(mem.virt_byte(root, (vaddr + i) as u32).is_none());
                return None;
            },
        }
        i += 1;
    }
    assert(out@ =~= Seq::new(n as nat, |i: int| mem.virt_byte(root, (vaddr + i) as u32).unwrap()));
    Some(out)
}

/// Reads the NUL-terminated string at the virtual address `vaddr` and
/// returns it without its terminator. The result is `None` where a byte of
/// the string or its terminator is not mapped to RAM.
pub fn read_user_str(mem: &PhysMemory, root: PAddr, vaddr: VAddr) -> (r: Option<Vec<u8>>)
    requires
        mem.wf(),
        mem.is_page(root as int),
    ensures
        match r {
            Some(v) => mem.virt_str(root, vaddr as int) == Some(v@),
            None => mem.virt_str(root, vaddr as int).is_none(),
        },
{
    let mut out: Vec<u8> = Vec::new();
    let mut va: u64 = vaddr as u64;
    while va < 0x1_0000_0000
        invariant
            vaddr <= va <= 0x1_0000_0000,
            mem.wf(),
            mem.is_page(root as int),
            out@.len() == va - vaddr,
            forall|j: int|
                0 <= j < out@.len() ==> (#[trigger] mem.virt_byte(root, (vaddr + j) as u32)) == Some(
                    out@[j],
                ),
            mem.virt_strlen(root, vaddr as int) == match mem.virt_strlen(root, va as int) {
                Some(n) => Some(n + (va - vaddr)),
                None => None,
            },
        decreases 0x1_0000_0000 - va,
    {
        match translate(mem, root, va as u32) {
            Some(addr) => {
                let b = read_byte(mem, addr);
                if b == 0 {
                    assert(mem.virt_strlen(root, vaddr as int) == Some(va - vaddr));
                    assert(out@ =~= Seq::new(
                        (va - vaddr) as nat,
                        |i: int| mem.virt_byte(root, (vaddr + i) as u32).unwrap(),
                    ));
                    return Some(out);
                }
                out.push(b);
            },
            None => {
                return None;
            },
        }
        va += 1;
    }
    None
}

/// Stores `bytes` at the virtual addresses from `vaddr` on.
///
/// The addresses are translated first, all of them; where one is not
/// mapped to RAM nothing is stored and the result is `false`. Otherwise
/// the bytes are stored in order at the physical addresses found.
#[verifier::rlimit(50)]
pub fn copy_to_user(mem: &mut PhysMemory, root: PAddr, vaddr: VAddr, bytes: &[u8]) -> (ok: bool)
    requires
        old(mem).wf(),
        old(mem).is_page(root as int),
    ensures
        final(mem).wf(),
        ok == old(mem).phys_addrs(root, vaddr as int, bytes@.len() as int).is_some(),
        !ok ==> *final(mem) == *old(mem),
        ok ==> stored(
            *old(mem),
            *final(mem),
            old(mem).phys_addrs(root, vaddr as int, bytes@.len() as int).unwrap(),
            bytes@,
        ),
{
    let n = bytes.len();
    if n as u64 > 0x1_0000_0000 - vaddr as u64 {
        return false;
    }
    let mut addrs: Vec<PAddr> = Vec::new();
    let mut i: usize = 0;
    while i < n
        invariant
            i <= n == bytes@.len(),
            vaddr + n <= 0x1_0000_0000,
            mem.wf(),
            mem.is_page(root as int),
            *mem == *old(mem),
            addrs@.len() == i,
            forall|j: int|
                0 <= j < i ==> (#[trigger] mem.spec_translate(root, (vaddr + j) as u32)) == Some(
                    addrs@[j] as int,
                ) && mem.in_ram(addrs@[j] as int),
        decreases n - i,
    {
        match translate(mem, root, vaddr + i as u32) {
            Some(addr) => {
                addrs.push(addr);
            },
            None => {
                assert(mem.spec_translate(root, (vaddr + i) as u32).is_none());
                return false;
            },
        }
        i += 1;
    }
    let ghost targets = old(mem).phys_addrs(root, vaddr as int, n as int).unwrap();
    assert(targets =~= Seq::new(n as nat, |j: int| addrs@[j] as int));
    let mut k: usize = 0;
    while k < n
        invariant
            k <= n == bytes@.len(),
            addrs@.len() == n,
            targets.len() == n,
            forall|j: int|
                0 <= j < n ==> targets[j] == addrs@[j] as int && old(mem).in_ram(targets[j]),
            mem.wf(),
            stored(*old(mem), *mem, targets.take(k as int), bytes@),
        decreases n - k,
    {
        let ghost before = *mem;
        assert(targets[k as int] == addrs@[k as int] as int && old(mem).in_ram(targets[k as int]));
        write_byte(mem, addrs[k], bytes[k]);
        proof {
            let done = targets.take(k as int);
            let next = targets.take(k + 1);
            assert(next.drop_last() =~= done);
            assert(next.last() == addrs@[k as int]);
            assert forall|a: int| old(mem).in_ram(a) implies #[trigger] mem.phys_byte(a)
                == match last_store(next, bytes@, a) {
                Some(b) => b,
                None => old(mem).phys_byte(a),
            } by {
                if a != addrs@[k as int] {
                    assert(mem.phys_byte(a) == before.phys_byte(a));
                }
            }
        }
        k += 1;
    }
    assert(targets.take(n as int) =~= targets);
    true
}

/// Words with the same four bytes are the same word.
pub proof fn lemma_word_of_bytes(a: u32, b: u32)
    requires
        forall|k: int| 0 <= k < 4 ==> byte_of(a, k) == byte_of(b, k),
    ensures
        a == b,
{
    assert(byte_of(a, 0) == byte_of(b, 0));
    assert(byte_of(a, 1) == byte_of(b, 1));
    assert(byte_of(a, 2) == byte_of(b, 2));
    assert(byte_of(a, 3) == byte_of(b, 3));
    lemma_byte_range(a);
    lemma_byte_range(b);
    assert(a & 0xff == b & 0xff && (a >> 8) & 0xff == (b >> 8) & 0xff && (a >> 16) & 0xff == (b
        >> 16) & 0xff && (a >> 24) & 0xff == (b >> 24) & 0xff ==> a == b) by (bit_vector);
}

/// Nothing is stored at an address that is none of the addresses stored
/// at.
pub proof fn lemma_last_store_none(addrs: Seq<int>, bytes: Seq<u8>, addr: int)
    requires
        forall|i: int| 0 <= i < addrs.len() ==> addrs[i] != addr,
    ensures
        last_store(addrs, bytes, addr).is_none(),
    decreases addrs.len(),
{
    if addrs.len() > 0 {
        let rest = addrs.drop_last();
        assert forall|i: int| 0 <= i < rest.len() implies rest[i] != addr by {
            assert(rest[i] == addrs[i]);
        }
        lemma_last_store_none(rest, bytes, addr);
    }
}

/// Where no address is stored at twice, what is stored last at an address
/// is the one byte that is stored there.
pub proof fn lemma_last_store_at(addrs: Seq<int>, bytes: Seq<u8>, i: int)
    requires
        0 <= i < addrs.len(),
        forall|j: int, k: int| 0 <= j < addrs.len() && 0 <= k < addrs.len() && j != k ==> addrs[j]
            != addrs[k],
    ensures
        last_store(addrs, bytes, addrs[i]) == Some(bytes[i]),
    decreases addrs.len(),
{
    if i < addrs.len() - 1 {
        let rest = addrs.drop_last();
        assert(addrs.last() != addrs[i]);
        assert(rest[i] == addrs[i]);
        assert forall|j: int, k: int|
            0 <= j < rest.len() && 0 <= k < rest.len() && j != k implies rest[j] != rest[k] by {
            assert(rest[j] == addrs[j] && rest[k] == addrs[k]);
        }
        lemma_last_store_at(rest, bytes, i);
    }
}

/// The place of byte `k` of word `j` of the page at `addr`.
pub proof fn lemma_byte_addr(free_ram: int, addr: int, j: int, k: int)
    requires
        free_ram % 4096 == 0,
        addr % 4096 == 0,
        free_ram <= addr,
        0 <= j < 1024,
        0 <= k < 4,
    ensures
        byte_place(free_ram, addr + 4 * j + k) == ((addr - free_ram) / 4096, j, k),
        (addr + 4 * j + k) - (addr + 4 * j + k) % 4096 == addr,
{
    let a = addr + 4 * j + k;
    let q = addr / 4096;
    assert(addr == q * 4096 + addr % 4096);
    lemma_fundamental_div_mod_converse(a, 4096, q, 4 * j + k);
    lemma_fundamental_div_mod_converse(4 * j + k, 4, j, k);
}

/// A page in which no byte has changed has not changed.
pub proof fn lemma_page_of_bytes(pre: PhysMemory, post: PhysMemory, addr: int)
    requires
        pre.wf(),
        post.wf(),
        post.map == pre.map,
        post.pages@.len() == pre.pages@.len(),
        pre.is_page(addr),
        forall|a: int| addr <= a < addr + 4096 ==> #[trigger] post.phys_byte(a) == pre.phys_byte(a),
    ensures
        post.page(addr) == pre.page(addr),
{
    let fr = pre.map.free_ram as int;
    lemma_page_index(pre, addr);
    assert forall|j: int| 0 <= j < 1024 implies post.page(addr)[j] == pre.page(addr)[j] by {
        assert forall|k: int| 0 <= k < 4 implies byte_of(post.page(addr)[j], k) == byte_of(
            pre.page(addr)[j],
            k,
        ) by {
            let a = addr + 4 * j + k;
            lemma_byte_addr(fr, addr, j, k);
            assert(post.phys_byte(a) == pre.phys_byte(a));
            assert(post.phys_byte(a) == byte_of(post.page(addr)[j], k));
            assert(pre.phys_byte(a) == byte_of(pre.page(addr)[j], k));
        }
        lemma_word_of_bytes(post.page(addr)[j], pre.page(addr)[j]);
    }
    assert(post.page(addr) =~= pre.page(addr));
}

impl PhysMemory {
    /// The `n` virtual addresses from `vaddr` on are mapped under `root`
    /// to pages of RAM that are no tables of the address space, different
    /// pages to different ones.
    pub open spec fn plain_range(&self, root: PAddr, vaddr: int, n: int) -> bool {
        &&& 0 <= n
        &&& 0 <= vaddr
        &&& vaddr + n <= 0x1_0000_0000
        &&& forall|i: int|
            0 <= i < n ==> {
                let w = #[trigger] self.spec_walk(root, (vaddr + i) as u32);
                &&& w.is_some()
                &&& self.is_page(pte_addr(w.unwrap()))
                &&& !self.is_table(root, pte_addr(w.unwrap()))
            }
        &&& forall|i: int, j: int|
            0 <= i < n && 0 <= j < n && (vaddr + i) / 4096 != (vaddr + j) / 4096 ==> pte_addr(
                (#[trigger] self.spec_walk(root, (vaddr + i) as u32)).unwrap(),
            ) != pte_addr((#[trigger] self.spec_walk(root, (vaddr + j) as u32)).unwrap())
    }
}

/// The physical address that a virtual address of a plain range stands
/// for lies in the page that the walk finds, which is a page of RAM and
/// no table.
proof fn lemma_plain_target(mem: PhysMemory, root: PAddr, vaddr: int, n: int, i: int)
    requires
        mem.wf(),
        mem.plain_range(root, vaddr, n),
        0 <= i < n,
    ensures
        mem.phys_addrs(root, vaddr, n).is_some(),
        ({
            let v = (vaddr + i) as u32;
            let frame = pte_addr(mem.spec_walk(root, v).unwrap());
            let addr = mem.phys_addrs(root, vaddr, n).unwrap()[i];
            &&& mem.spec_translate(root, v) == Some(addr)
            &&& addr == frame + v % 4096
            &&& mem.is_page(frame)
            &&& !mem.is_table(root, frame)
            &&& mem.in_ram(addr)
            &&& frame <= addr < frame + 4096
        }),
{
    assert forall|j: int| 0 <= j < n implies (#[trigger] mem.spec_translate(
        root,
        (vaddr + j) as u32,
    )).is_some() by {
        assert(mem.spec_walk(root, (vaddr + j) as u32).is_some());
    }
    let v = (vaddr + i) as u32;
    assert(mem.spec_walk(root, v).is_some());
    lemma_page_index(mem, pte_addr(mem.spec_walk(root, v).unwrap()));
}

/// Different virtual addresses of a plain range stand for different
/// physical addresses.
proof fn lemma_plain_distinct(mem: PhysMemory, root: PAddr, vaddr: int, n: int, j: int, k: int)
    requires
        mem.wf(),
        mem.plain_range(root, vaddr, n),
        0 <= j < n,
        0 <= k < n,
        j != k,
    ensures
        mem.phys_addrs(root, vaddr, n).unwrap()[j] != mem.phys_addrs(root, vaddr, n).unwrap()[k],
{
    lemma_plain_target(mem, root, vaddr, n, j);
    lemma_plain_target(mem, root, vaddr, n, k);
    let vj = (vaddr + j) as u32;
    let vk = (vaddr + k) as u32;
    let fj = pte_addr(mem.spec_walk(root, vj).unwrap());
    let fk = pte_addr(mem.spec_walk(root, vk).unwrap());
    if vj / 4096 == vk / 4096 {
        lemma_page_vpn(vj, vk);
        assert(mem.spec_walk(root, vj) == mem.spec_walk(root, vk));
        assert(vj == 4096 * (vj / 4096) + vj % 4096);
        assert(vk == 4096 * (vk / 4096) + vk % 4096);
        assert(vj % 4096 != vk % 4096);
    } else {
        assert(fj != fk);
        lemma_pages_apart(fj, fk);
    }
}

/// Storing through a range of plain memory leaves the tables of the
/// address space as they are.
proof fn lemma_plain_store_tables(
    pre: PhysMemory,
    post: PhysMemory,
    root: PAddr,
    vaddr: int,
    bytes: Seq<u8>,
    table: int,
)
    requires
        pre.wf(),
        post.wf(),
        pre.space_wf(root),
        pre.plain_range(root, vaddr, bytes.len() as int),
        pre.phys_addrs(root, vaddr, bytes.len() as int).is_some(),
        stored(pre, post, pre.phys_addrs(root, vaddr, bytes.len() as int).unwrap(), bytes),
        pre.is_table(root, table),
    ensures
        post.page(table) == pre.page(table),
{
    let n = bytes.len() as int;
    let addrs = pre.phys_addrs(root, vaddr, n).unwrap();
    assert(pre.is_page(table)) by {
        if table != root {
            let i = choose|i: int|
                0 <= i < 1024 && pte_valid(#[trigger] pre.entry(root as int, i)) && pte_addr(
                    pre.entry(root as int, i),
                ) == table;
            assert(pre.is_allocated(pte_addr(pre.entry(root as int, i))));
        }
    }
    lemma_page_index(pre, table);
    assert forall|a: int| table <= a < table + 4096 implies #[trigger] post.phys_byte(a)
        == pre.phys_byte(a) by {
        assert forall|i: int| 0 <= i < addrs.len() implies addrs[i] != a by {
            lemma_plain_target(pre, root, vaddr, n, i);
            let frame = pte_addr(pre.spec_walk(root, (vaddr + i) as u32).unwrap());
            lemma_pages_apart(frame, table);
        }
        lemma_last_store_none(addrs, bytes, a);
        assert(pre.in_ram(a));
    }
    lemma_page_of_bytes(pre, post, table);
}

/// What is stored through a range of plain memory is found there: after
/// `bytes` were stored at the physical addresses that the virtual
/// addresses from `vaddr` on stand for, those virtual addresses hold
/// `bytes`, every walk finds what it found before, and the range is as
/// plain as it was.
pub proof fn lemma_stored_visible(
    pre: PhysMemory,
    post: PhysMemory,
    root: PAddr,
    vaddr: int,
    bytes: Seq<u8>,
)
    requires
        pre.wf(),
        post.wf(),
        pre.space_wf(root),
        pre.plain_range(root, vaddr, bytes.len() as int),
        pre.phys_addrs(root, vaddr, bytes.len() as int).is_some(),
        stored(pre, post, pre.phys_addrs(root, vaddr, bytes.len() as int).unwrap(), bytes),
    ensures
        post.space_wf(root),
        forall|v: VAddr| #[trigger] post.spec_walk(root, v) == pre.spec_walk(root, v),
        post.plain_range(root, vaddr, bytes.len() as int),
        post.virt_bytes(root, vaddr, bytes.len() as int) == Some(bytes),
{
    let n = bytes.len() as int;
    let addrs = pre.phys_addrs(root, vaddr, n).unwrap();
    assert forall|t: int| pre.is_table(root, t) implies #[trigger] post.page(t) == pre.page(t) by {
        lemma_plain_store_tables(pre, post, root, vaddr, bytes, t);
    }
    lemma_tables_kept(pre, post, root);
    assert forall|j: int, k: int|
        0 <= j < addrs.len() && 0 <= k < addrs.len() && j != k implies addrs[j] != addrs[k] by {
        lemma_plain_distinct(pre, root, vaddr, n, j, k);
    }
    assert forall|i: int| 0 <= i < n implies (#[trigger] post.virt_byte(root, (vaddr + i) as u32))
        == Some(bytes[i]) by {
        let v = (vaddr + i) as u32;
        lemma_plain_target(pre, root, vaddr, n, i);
        assert(post.spec_walk(root, v) == pre.spec_walk(root, v));
        assert(post.spec_translate(root, v) == Some(addrs[i]));
        lemma_last_store_at(addrs, bytes, i);
        assert(post.phys_byte(addrs[i]) == bytes[i]);
    }
    assert(post.virt_bytes(root, vaddr, n).unwrap() =~= bytes);
    assert forall|i: int| 0 <= i < n implies {
        let w = #[trigger] post.spec_walk(root, (vaddr + i) as u32);
        &&& w.is_some()
        &&& post.is_page(pte_addr(w.unwrap()))
        &&& !post.is_table(root, pte_addr(w.unwrap()))
    } by {
        assert(pre.spec_walk(root, (vaddr + i) as u32).is_some());
    }
}

} // verus!
