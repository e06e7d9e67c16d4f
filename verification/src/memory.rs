//! Physical memory: the page allocator and the Sv32 page tables.
//!
//! The free RAM of the machine is held as a sequence of pages of 1024 words
//! each. Pages are handed out from the bottom of free RAM upwards and never
//! taken back. A page table is a page whose words are page-table entries;
//! an address space is a root table and the second-level tables that its
//! valid entries point to.

use vstd::prelude::*;
use vstd::arithmetic::div_mod::lemma_fundamental_div_mod_converse;
use crate::common::{PAddr, VAddr};

verus! {

/// `satp` mode bit that selects Sv32 translation.
pub const SATP_SV32: u32 = 0x8000_0000;

/// Page-table entry flag: the entry is valid.
pub const PAGE_V: u32 = 1;

/// Page-table entry flag: the page can be read.
pub const PAGE_R: u32 = 2;

/// Page-table entry flag: the page can be written.
pub const PAGE_W: u32 = 4;

/// Page-table entry flag: the page can be executed.
pub const PAGE_X: u32 = 8;

/// Page-table entry flag: user mode may access the page.
pub const PAGE_U: u32 = 16;

/// Where the parts of the kernel image and the free RAM lie, as the boot
/// step found them.
#[derive(Clone, Copy, Debug, PartialEq, Eq, Structural)]
pub struct MemoryMap {
    /// First address of the kernel image.
    pub kernel_base: PAddr,
    /// First address of the RAM that the allocator hands out.
    pub free_ram: PAddr,
    /// End of the RAM that the allocator hands out.
    pub free_ram_end: PAddr,
    /// Top of the boot stack, below which the kernel stacks of the process
    /// slots lie.
    pub stack_top: VAddr,
    /// Address of the trampoline that a new process first returns to.
    pub user_entry: VAddr,
    /// Address of the trap vector.
    pub kernel_entry: VAddr,
}

impl MemoryMap {
    /// The three bounds lie on page boundaries, in order.
    pub open spec fn wf(&self) -> bool {
        &&& self.kernel_base % 4096 == 0
        &&& self.free_ram % 4096 == 0
        &&& self.free_ram_end % 4096 == 0
        &&& self.kernel_base <= self.free_ram <= self.free_ram_end
    }

    /// Whether the bounds lie on page boundaries, in order.
    pub fn is_wf(&self) -> (b: bool)
        ensures
            b == self.wf(),
    {
        self.kernel_base % 4096 == 0 && self.free_ram % 4096 == 0 && self.free_ram_end % 4096 == 0
            && self.kernel_base <= self.free_ram && self.free_ram <= self.free_ram_end
    }
}

/// Whether the entry `e` is valid.
pub open spec fn pte_valid(e: u32) -> bool {
    e & 1 == 1
}

/// The physical page number that the entry `e` holds.
pub open spec fn pte_ppn(e: u32) -> u32 {
    e >> 10
}

/// The flags (the low ten bits) of the entry `e`.
pub open spec fn pte_flags(e: u32) -> u32 {
    e & 0x3ff
}

/// The physical address that the entry `e` points to.
pub open spec fn pte_addr(e: u32) -> int {
    (e >> 10) * 4096
}

/// The leaf entry that maps a page to the physical page at `paddr` with
/// `flags`.
pub open spec fn leaf_pte(paddr: PAddr, flags: u32) -> u32 {
    ((paddr / 4096) << 10) | flags | 1
}

/// The entry of a root table that points to the second-level table at
/// `table`.
pub open spec fn table_pte(table: PAddr) -> u32 {
    ((table / 4096) << 10) | 1
}

/// Index into the root table for the virtual address `vaddr`.
pub open spec fn vpn1(vaddr: VAddr) -> int {
    ((vaddr >> 22) & 0x3ff) as int
}

/// Index into the second-level table for the virtual address `vaddr`.
pub open spec fn vpn0(vaddr: VAddr) -> int {
    ((vaddr >> 12) & 0x3ff) as int
}

/// Both table indices of an address are below the size of a table.
pub proof fn lemma_vpn_bounds(vaddr: VAddr)
    ensures
        0 <= vpn1(vaddr) < 1024,
        0 <= vpn0(vaddr) < 1024,
{
    assert((vaddr >> 22) & 0x3ff < 1024) by (bit_vector);
    assert((vaddr >> 12) & 0x3ff < 1024) by (bit_vector);
}

/// Two addresses with the same table indices lie in the same page.
pub proof fn lemma_vpn_page(a: VAddr, b: VAddr)
    requires
        vpn1(a) == vpn1(b),
        vpn0(a) == vpn0(b),
    ensures
        a / 4096 == b / 4096,
{
    assert(((a >> 22) & 0x3ff) == ((b >> 22) & 0x3ff) && ((a >> 12) & 0x3ff) == ((b >> 12)
        & 0x3ff) ==> a / 4096 == b / 4096) by (bit_vector);
}

/// An entry made for a table is valid and points to that table.
pub proof fn lemma_table_pte(table: PAddr)
    requires
        table % 4096 == 0,
    ensures
        pte_valid(table_pte(table)),
        pte_addr(table_pte(table)) == table,
{
    assert(table % 4096 == 0 ==> (((table / 4096) << 10) | 1) & 1 == 1 && ((((table / 4096)
        << 10) | 1) >> 10) * 4096 == table) by (bit_vector);
}

/// A leaf entry is valid. Where the flags keep to the low ten bits, it
/// holds the page number of the physical address, and its flags are the
/// given ones and the valid bit.
pub proof fn lemma_leaf_pte(paddr: PAddr, flags: u32)
    ensures
        pte_valid(leaf_pte(paddr, flags)),
        flags < 1024 ==> pte_ppn(leaf_pte(paddr, flags)) == paddr / 4096,
        flags < 1024 ==> pte_flags(leaf_pte(paddr, flags)) == flags | 1,
{
    assert((((paddr / 4096) << 10) | flags | 1) & 1 == 1) by (bit_vector);
    assert(flags < 1024 ==> (((paddr / 4096) << 10) | flags | 1) >> 10 == paddr / 4096)
        by (bit_vector);
    assert(flags < 1024 ==> (((paddr / 4096) << 10) | flags | 1) & 0x3ff == flags | 1)
        by (bit_vector);
}

/// The free RAM of the machine and the allocator's cursor into it.
pub struct PhysMemory {
    /// The memory map that the RAM belongs to.
    pub map: MemoryMap,
    /// The address of the next page to hand out.
    pub next_paddr: PAddr,
    /// The pages of `[map.free_ram, map.free_ram_end)`, lowest first.
    pub pages: Vec<[u32; 1024]>,
}

impl PhysMemory {
    /// The memory map is in order, the RAM has a page for every page of
    /// free RAM, and the cursor lies on a page boundary within it.
    pub open spec fn wf(&self) -> bool {
        &&& self.map.wf()
        &&& self.pages@.len() == (self.map.free_ram_end - self.map.free_ram) / 4096
        &&& self.map.free_ram <= self.next_paddr <= self.map.free_ram_end
        &&& self.next_paddr % 4096 == 0
    }

    /// Number of pages that can still be handed out.
    pub open spec fn free_pages(&self) -> int {
        (self.map.free_ram_end - self.next_paddr) / 4096
    }

    /// Whether `addr` is the address of a page of free RAM.
    pub open spec fn is_page(&self, addr: int) -> bool {
        &&& addr % 4096 == 0
        &&& self.map.free_ram <= addr < self.map.free_ram_end
    }

    /// Whether `addr` is the address of a page that was handed out.
    pub open spec fn is_allocated(&self, addr: int) -> bool {
        &&& addr % 4096 == 0
        &&& self.map.free_ram <= addr < self.next_paddr
    }

    /// Index in `pages` of the page at `addr`.
    pub open spec fn page_index(&self, addr: int) -> int {
        (addr - self.map.free_ram) / 4096
    }

    /// The words of the page at `addr`.
    pub open spec fn page(&self, addr: int) -> Seq<u32> {
        self.pages@[self.page_index(addr)]@
    }

    /// Word `i` of the page at `addr`: entry `i` of the table there.
    pub open spec fn entry(&self, addr: int, i: int) -> u32 {
        self.page(addr)[i]
    }

    /// The leaf entry that a walk of the tables under `root` finds for the
    /// virtual address `vaddr`, if the address is mapped: the root entry
    /// must be valid and point to a page of RAM, and the entry for the
    /// address in the table there must be valid too.
    pub open spec fn spec_walk(&self, root: PAddr, vaddr: VAddr) -> Option<u32> {
        let e1 = self.entry(root as int, vpn1(vaddr));
        if !pte_valid(e1) || !self.is_page(pte_addr(e1)) {
            None
        } else {
            let e0 = self.entry(pte_addr(e1), vpn0(vaddr));
            if pte_valid(e0) {
                Some(e0)
            } else {
                None
            }
        }
    }

    /// The tables under `root` form an address space: the root is a page
    /// that was handed out, and its valid entries point to pages that were
    /// handed out, each to one of its own, none to the root.
    pub open spec fn space_wf(&self, root: PAddr) -> bool {
        &&& self.is_allocated(root as int)
        &&& forall|i: int|
            0 <= i < 1024 && pte_valid(#[trigger] self.entry(root as int, i)) ==> {
                &&& self.is_allocated(pte_addr(self.entry(root as int, i)))
                &&& pte_addr(self.entry(root as int, i)) != root
            }
        &&& forall|i: int, j: int|
            0 <= i < 1024 && 0 <= j < 1024 && i != j && pte_valid(
                #[trigger] self.entry(root as int, i),
            ) && pte_valid(#[trigger] self.entry(root as int, j)) ==> pte_addr(
                self.entry(root as int, i),
            ) != pte_addr(self.entry(root as int, j))
    }

    /// RAM with nothing handed out yet, every word zero.
    pub fn new(map: MemoryMap) -> (mem: PhysMemory)
        requires
            map.wf(),
        ensures
            mem.wf(),
            mem.map == map,
            mem.next_paddr == map.free_ram,
            forall|p: int, i: int|
                0 <= p < mem.pages@.len() && 0 <= i < 1024 ==> (#[trigger] mem.pages@[p]@[i]) == 0,
    {
        let n: usize = ((map.free_ram_end - map.free_ram) / 4096) as usize;
        let mut pages: Vec<[u32; 1024]> = Vec::new();
        let mut k: usize = 0;
        while k < n
            invariant
                k <= n,
                pages@.len() == k,
                forall|p: int, i: int|
                    0 <= p < pages@.len() && 0 <= i < 1024 ==> (#[trigger] pages@[p]@[i]) == 0,
            decreases n - k,
        {
            pages.push([0u32; 1024]);
            k += 1;
        }
        PhysMemory { map, next_paddr: map.free_ram, pages }
    }

    /// Whether `n` more pages can be handed out.
    pub fn can_alloc(&self, n: usize) -> (b: bool)
        requires
            self.wf(),
        ensures
            b == (n <= self.free_pages()),
    {
        n <= ((self.map.free_ram_end - self.next_paddr) / 4096) as usize
    }
}

/// The address that an entry points to is the address of a page.
pub proof fn lemma_pte_addr_aligned(e: u32)
    ensures
        pte_addr(e) % 4096 == 0,
        0 <= pte_addr(e),
{
    let n = (e >> 10) as int;
    assert((n * 4096) % 4096 == 0) by (nonlinear_arith);
}

/// The page at an address of free RAM has an index in `pages`, and the
/// address is the start of free RAM and that many pages.
pub proof fn lemma_page_index(mem: PhysMemory, addr: int)
    requires
        mem.wf(),
        mem.is_page(addr),
    ensures
        0 <= mem.page_index(addr) < mem.pages@.len(),
        addr == mem.map.free_ram + 4096 * mem.page_index(addr),
        addr + 4096 <= mem.map.free_ram_end,
{
    let fr = mem.map.free_ram as int;
    let end = mem.map.free_ram_end as int;
    let d = addr - fr;
    let size = end - fr;
    assert(d % 4096 == 0 && size % 4096 == 0 && 0 <= d < size);
    assert(d == 4096 * (d / 4096));
    assert(size == 4096 * (size / 4096));
}

/// Different pages lie a page or more apart.
pub proof fn lemma_pages_apart(a: int, b: int)
    requires
        a % 4096 == 0,
        b % 4096 == 0,
        a != b,
    ensures
        a + 4096 <= b || b + 4096 <= a,
{
    lemma_page_multiple(a);
    lemma_page_multiple(b);
}

/// A multiple of the page size is the page size times its quotient.
pub proof fn lemma_page_multiple(x: int)
    requires
        x % 4096 == 0,
    ensures
        x == 4096 * (x / 4096),
{
}

/// The page at the address `first + 4096 * k`, counted from the page at
/// `first`, has the index of that page and `k`.
pub proof fn lemma_page_index_add(mem: PhysMemory, first: int, k: int)
    requires
        mem.map.free_ram % 4096 == 0,
        first % 4096 == 0,
    ensures
        mem.page_index(first + 4096 * k) == mem.page_index(first) + k,
{
    let fr = mem.map.free_ram as int;
    lemma_page_multiple(first - fr);
    let q = (first - fr) / 4096;
    lemma_fundamental_div_mod_converse(first + 4096 * k - fr, 4096, q + k, 0);
}

/// `post` is `pre` after `n` pages were handed out at `paddr`: the pages
/// start at the old cursor, the cursor moved behind them, they hold zeros,
/// and every other page is as it was.
pub open spec fn allocated(pre: PhysMemory, post: PhysMemory, n: int, paddr: PAddr) -> bool {
    &&& post.map == pre.map
    &&& post.pages@.len() == pre.pages@.len()
    &&& paddr == pre.next_paddr
    &&& post.next_paddr == pre.next_paddr + n * 4096
    &&& forall|p: int, i: int|
        pre.page_index(paddr as int) <= p < pre.page_index(paddr as int) + n && 0 <= i < 1024
            ==> (#[trigger] post.pages@[p]@[i]) == 0
    &&& forall|p: int|
        0 <= p < pre.pages@.len() && !(pre.page_index(paddr as int) <= p < pre.page_index(
            paddr as int,
        ) + n) ==> #[trigger] post.pages@[p] == pre.pages@[p]
}

/// Hands out `n` pages of zeroed memory and returns the address of the
/// first.
pub fn alloc_pages(mem: &mut PhysMemory, n: usize) -> (paddr: PAddr)
    requires
        old(mem).wf(),
        n <= old(mem).free_pages(),
    ensures
        final(mem).wf(),
        allocated(*old(mem), *final(mem), n as int, paddr),
        paddr % 4096 == 0,
{
    let paddr = mem.next_paddr;
    proof {
        lemma_page_multiple(paddr - mem.map.free_ram);
        lemma_page_multiple(mem.map.free_ram_end - mem.map.free_ram);
        lemma_page_multiple(mem.map.free_ram_end - paddr);
    }
    let first: usize = ((paddr - mem.map.free_ram) / 4096) as usize;
    let len: usize = mem.pages.len();
    let mut k: usize = 0;
    while k < n
        invariant
            k <= n,
            first + n <= len == mem.pages@.len(),
            mem.map == old(mem).map,
            mem.next_paddr == old(mem).next_paddr,
            mem.pages@.len() == old(mem).pages@.len(),
            forall|p: int, i: int|
                first <= p < first + k && 0 <= i < 1024 ==> (#[trigger] mem.pages@[p]@[i]) == 0,
            forall|p: int|
                0 <= p < mem.pages@.len() && !(first <= p < first + k) ==> #[trigger] mem.pages@[p]
                    == old(mem).pages@[p],
        decreases n - k,
    {
        mem.pages[first + k] = [0u32; 1024];
        k += 1;
    }
    mem.next_paddr = paddr + (n * 4096) as u32;
    paddr
}

/// Pages are handed out upwards: of two allocations, the later one starts
/// at or behind the end of the earlier one, whatever was allocated in
/// between. Both addresses are multiples of the page size, and every page
/// handed out holds zeros when it is handed out.
pub proof fn lemma_alloc_monotonic(
    s0: PhysMemory,
    s1: PhysMemory,
    s2: PhysMemory,
    s3: PhysMemory,
    first_n: int,
    first: PAddr,
    second_n: int,
    second: PAddr,
)
    requires
        s0.wf(),
        0 <= first_n,
        0 <= second_n,
        allocated(s0, s1, first_n, first),
        s1.map == s2.map,
        s1.next_paddr <= s2.next_paddr,
        s2.wf(),
        allocated(s2, s3, second_n, second),
    ensures
        second >= first + first_n * 4096,
        first % 4096 == 0,
        second % 4096 == 0,
        forall|a: int, i: int|
            first <= a < first + first_n * 4096 && a % 4096 == 0 && 0 <= i < 1024
                ==> #[trigger] s1.entry(a, i) == 0,
        forall|a: int, i: int|
            second <= a < second + second_n * 4096 && a % 4096 == 0 && 0 <= i < 1024
                ==> #[trigger] s3.entry(a, i) == 0,
{
    assert forall|a: int, i: int|
        first <= a < first + first_n * 4096 && a % 4096 == 0 && 0 <= i
            < 1024 implies #[trigger] s1.entry(a, i) == 0 by {
        let k = (a - first) / 4096;
        lemma_page_multiple(a - first);
        assert(0 <= k < first_n);
        lemma_page_index_add(s0, first as int, k);
        let p = s0.page_index(first as int) + k;
        assert(s1.page_index(a) == p);
        assert(s1.pages@[p]@[i] == 0);
    }
    assert forall|a: int, i: int|
        second <= a < second + second_n * 4096 && a % 4096 == 0 && 0 <= i
            < 1024 implies #[trigger] s3.entry(a, i) == 0 by {
        let k = (a - second) / 4096;
        lemma_page_multiple(a - second);
        assert(0 <= k < second_n);
        lemma_page_index_add(s2, second as int, k);
        let p = s2.page_index(second as int) + k;
        assert(s3.page_index(a) == p);
        assert(s3.pages@[p]@[i] == 0);
    }
}

/// A page of zeros.
pub open spec fn zero_page() -> Seq<u32> {
    Seq::new(1024, |i: int| 0u32)
}

/// The second-level table that serves `vaddr` under `root` once the address
/// is mapped: the one the root entry points to, or, where that entry is not
/// valid, the next page that the allocator hands out.
pub open spec fn table_for(pre: PhysMemory, root: PAddr, vaddr: VAddr) -> int {
    let e1 = pre.entry(root as int, vpn1(vaddr));
    if pte_valid(e1) {
        pte_addr(e1)
    } else {
        pre.next_paddr as int
    }
}

/// `post` is `pre` after the page of `vaddr` was mapped to the physical
/// page at `paddr` with `flags` in the address space under `root`.
///
/// Where the root entry for `vaddr` was not valid, one page was handed out
/// as the second-level table and the root entry points to it; otherwise the
/// root is unchanged. The entry for `vaddr` in the second-level table is
/// the leaf for `paddr` and `flags`. No other word of any page changed.
pub open spec fn mapped(
    pre: PhysMemory,
    post: PhysMemory,
    root: PAddr,
    vaddr: VAddr,
    paddr: PAddr,
    flags: u32,
) -> bool {
    let e1 = pre.entry(root as int, vpn1(vaddr));
    let table = table_for(pre, root, vaddr);
    &&& post.map == pre.map
    &&& post.pages@.len() == pre.pages@.len()
    &&& post.next_paddr == if pte_valid(e1) {
        pre.next_paddr as int
    } else {
        pre.next_paddr + 4096
    }
    &&& post.page(root as int) == if pte_valid(e1) {
        pre.page(root as int)
    } else {
        pre.page(root as int).update(vpn1(vaddr), table_pte(pre.next_paddr))
    }
    &&& post.page(table) == if pte_valid(e1) {
        pre.page(table).update(vpn0(vaddr), leaf_pte(paddr, flags))
    } else {
        zero_page().update(vpn0(vaddr), leaf_pte(paddr, flags))
    }
    &&& forall|p: int|
        0 <= p < pre.pages@.len() && p != pre.page_index(root as int) && p != pre.page_index(table)
            ==> #[trigger] post.pages@[p] == pre.pages@[p]
}

/// What mapping a page does to an address space.
///
/// The space stays well formed. A walk at the mapped address finds the leaf
/// for `paddr` and `flags`; a walk at an address of any other page finds
/// what it found before. The root has the valid entries it had, and the one
/// for `vaddr`.
#[verifier::rlimit(50)]
pub proof fn lemma_mapped(
    pre: PhysMemory,
    post: PhysMemory,
    root: PAddr,
    vaddr: VAddr,
    paddr: PAddr,
    flags: u32,
)
    requires
        pre.wf(),
        pre.space_wf(root),
        pte_valid(pre.entry(root as int, vpn1(vaddr))) || pre.free_pages() >= 1,
        mapped(pre, post, root, vaddr, paddr, flags),
    ensures
        post.wf(),
        post.space_wf(root),
        post.spec_walk(root, vaddr) == Some(leaf_pte(paddr, flags)),
        forall|v: VAddr|
            vpn1(v) != vpn1(vaddr) || vpn0(v) != vpn0(vaddr) ==> #[trigger] post.spec_walk(root, v)
                == pre.spec_walk(root, v),
        forall|i: int|
            0 <= i < 1024 ==> pte_valid(#[trigger] post.entry(root as int, i)) == (pte_valid(
                pre.entry(root as int, i),
            ) || i == vpn1(vaddr)),
        forall|i: int|
            0 <= i < 1024 && pte_valid(pre.entry(root as int, i)) ==> #[trigger] post.entry(
                root as int,
                i,
            ) == pre.entry(root as int, i),
        pte_addr(post.entry(root as int, vpn1(vaddr))) == table_for(pre, root, vaddr),
{
    let i1 = vpn1(vaddr);
    let i0 = vpn0(vaddr);
    let e1 = pre.entry(root as int, i1);
    let table = table_for(pre, root, vaddr);
    let leaf = leaf_pte(paddr, flags);
    lemma_vpn_bounds(vaddr);
    lemma_leaf_pte(paddr, flags);
    if !pte_valid(e1) {
        lemma_table_pte(pre.next_paddr);
    }
    assert(pre.is_page(table) && post.is_allocated(table));
    assert(table != root);
    lemma_page_index(pre, table);
    lemma_page_index(pre, root as int);
    assert(pre.page_index(table) != pre.page_index(root as int));
    assert(0 <= pre.page_index(table) < pre.pages@.len());
    assert(0 <= pre.page_index(root as int) < pre.pages@.len());
    assert(post.entry(root as int, i1) == if pte_valid(e1) {
        e1
    } else {
        table_pte(pre.next_paddr)
    });
    assert(pte_valid(post.entry(root as int, i1)));
    assert(pte_addr(post.entry(root as int, i1)) == table);
    assert forall|i: int| 0 <= i < 1024 && i != i1 implies #[trigger] post.entry(root as int, i)
        == pre.entry(root as int, i) by {}
    assert(post.entry(table, i0) == leaf);
    assert(post.spec_walk(root, vaddr) == Some(leaf));
    assert forall|v: VAddr| vpn1(v) != i1 || vpn0(v) != i0 implies #[trigger] post.spec_walk(
        root,
        v,
    ) == pre.spec_walk(root, v) by {
        lemma_vpn_bounds(v);
        let j1 = vpn1(v);
        let j0 = vpn0(v);
        if j1 != i1 {
            let e = pre.entry(root as int, j1);
            assert(post.entry(root as int, j1) == e);
            if pte_valid(e) && pre.is_page(pte_addr(e)) {
                let t = pte_addr(e);
                assert(pre.is_allocated(t));
                assert(t != table);
                assert(t != root);
                lemma_page_index(pre, t);
                assert(pre.page_index(t) != pre.page_index(table));
                assert(pre.page_index(t) != pre.page_index(root as int));
                assert(0 <= pre.page_index(t) < pre.pages@.len());
                assert(post.pages@[pre.page_index(t)] == pre.pages@[pre.page_index(t)]);
            }
        } else {
            if pte_valid(e1) {
                assert(post.entry(table, j0) == pre.entry(table, j0));
            } else {
                assert(post.entry(table, j0) == 0u32);
                assert(0u32 & 1 == 0) by (bit_vector);
            }
        }
    }
    assert forall|i: int|
        0 <= i < 1024 && pte_valid(#[trigger] post.entry(root as int, i)) implies {
        &&& post.is_allocated(pte_addr(post.entry(root as int, i)))
        &&& pte_addr(post.entry(root as int, i)) != root
    } by {
        if i != i1 {
            assert(pte_valid(pre.entry(root as int, i)));
        }
    }
    assert forall|i: int, j: int|
        0 <= i < 1024 && 0 <= j < 1024 && i != j && pte_valid(
            #[trigger] post.entry(root as int, i),
        ) && pte_valid(#[trigger] post.entry(root as int, j)) implies pte_addr(
        post.entry(root as int, i),
    ) != pte_addr(post.entry(root as int, j)) by {
        if i != i1 {
            assert(pte_valid(pre.entry(root as int, i)));
        }
        if j != i1 {
            assert(pte_valid(pre.entry(root as int, j)));
        }
    }
}

/// An entry is valid or not, by its lowest bit.
pub proof fn lemma_pte_valid_bit(e: u32)
    ensures
        pte_valid(e) <==> e & 1 != 0,
{
    assert(e & 1 == 1 <==> e & 1 != 0) by (bit_vector);
}

/// Maps the page of the virtual address `vaddr` to the physical page at
/// `paddr` with `flags`, in the address space under the root table at
/// `table1`. Where the root has no second-level table for the address yet,
/// one page is handed out for it.
#[verifier::rlimit(50)]
pub fn map_page(mem: &mut PhysMemory, table1: PAddr, vaddr: VAddr, paddr: PAddr, flags: u32)
    requires
        old(mem).wf(),
        old(mem).space_wf(table1),
        vaddr % 4096 == 0,
        paddr % 4096 == 0,
        pte_valid(old(mem).entry(table1 as int, vpn1(vaddr))) || old(mem).free_pages() >= 1,
    ensures
        final(mem).wf(),
        final(mem).space_wf(table1),
        mapped(*old(mem), *final(mem), table1, vaddr, paddr, flags),
        final(mem).spec_walk(table1, vaddr) == Some(leaf_pte(paddr, flags)),
        forall|v: VAddr|
            vpn1(v) != vpn1(vaddr) || vpn0(v) != vpn0(vaddr) ==> #[trigger] final(mem).spec_walk(
                table1,
                v,
            ) == old(mem).spec_walk(table1, v),
{
    proof {
        lemma_vpn_bounds(vaddr);
    }
    let i1: usize = ((vaddr >> 22) & 0x3ff) as usize;
    let i0: usize = ((vaddr >> 12) & 0x3ff) as usize;
    proof {
        lemma_page_index(*mem, table1 as int);
    }
    let ri: usize = ((table1 - mem.map.free_ram) / 4096) as usize;
    let ghost table = table_for(*old(mem), table1, vaddr);
    proof {
        lemma_pte_valid_bit(mem.pages@[ri as int]@[i1 as int]);
    }
    if mem.pages[ri][i1] & PAGE_V == 0 {
        let pt = alloc_pages(mem, 1);
        proof {
            lemma_table_pte(pt);
            assert(mem.pages@[ri as int] == old(mem).pages@[ri as int]);
        }
        mem.pages[ri][i1] = ((pt / 4096) << 10) | PAGE_V;
    }
    let e1: u32 = mem.pages[ri][i1];
    assert(pte_addr(e1) == table);
    assert(mem.is_allocated(table));
    proof {
        lemma_page_index(*mem, table);
        lemma_page_index(*mem, table1 as int);
    }
    let table0: u32 = (e1 >> 10) * 4096;
    let ti: usize = ((table0 - mem.map.free_ram) / 4096) as usize;
    assert(ti != ri);
    mem.pages[ti][i0] = ((paddr / 4096) << 10) | flags | PAGE_V;
    proof {
        let had_table = pte_valid(old(mem).entry(table1 as int, vpn1(vaddr)));
        assert(mem.page(table1 as int) =~= if had_table {
            old(mem).page(table1 as int)
        } else {
            old(mem).page(table1 as int).update(vpn1(vaddr), table_pte(old(mem).next_paddr))
        });
        assert(mem.page(table) =~= if had_table {
            old(mem).page(table).update(vpn0(vaddr), leaf_pte(paddr, flags))
        } else {
            zero_page().update(vpn0(vaddr), leaf_pte(paddr, flags))
        });
        lemma_mapped(*old(mem), *mem, table1, vaddr, paddr, flags);
    }
}

/// Walks the tables under `root` for the virtual address `vaddr`, and
/// returns the leaf entry where the address is mapped.
pub fn walk(mem: &PhysMemory, root: PAddr, vaddr: VAddr) -> (r: Option<u32>)
    requires
        mem.wf(),
        mem.is_page(root as int),
    ensures
        r == mem.spec_walk(root, vaddr),
{
    proof {
        lemma_vpn_bounds(vaddr);
        lemma_page_index(*mem, root as int);
    }
    let i1: usize = ((vaddr >> 22) & 0x3ff) as usize;
    let i0: usize = ((vaddr >> 12) & 0x3ff) as usize;
    let ri: usize = ((root - mem.map.free_ram) / 4096) as usize;
    let e1: u32 = mem.pages[ri][i1];
    proof {
        lemma_pte_valid_bit(e1);
        lemma_pte_addr_aligned(e1);
    }
    if e1 & PAGE_V == 0 {
        return None;
    }
    let ppn: u32 = e1 >> 10;
    let table: u64 = ppn as u64 * 4096;
    assert(table == pte_addr(e1));
    if table < mem.map.free_ram as u64 || table >= mem.map.free_ram_end as u64 {
        return None;
    }
    proof {
        lemma_page_index(*mem, table as int);
    }
    let ti: usize = ((table - mem.map.free_ram as u64) / 4096) as usize;
    let e0: u32 = mem.pages[ti][i0];
    proof {
        lemma_pte_valid_bit(e0);
    }
    if e0 & PAGE_V == 0 {
        None
    } else {
        Some(e0)
    }
}

/// Mapping a page and walking the tables at its address gives the page
/// back: the leaf found is valid, holds the page number of the physical
/// address, and has the flags that were asked for. This holds for flags
/// that keep to the ten flag bits of an entry.
pub proof fn lemma_map_then_walk(
    pre: PhysMemory,
    post: PhysMemory,
    root: PAddr,
    vaddr: VAddr,
    paddr: PAddr,
    flags: u32,
)
    requires
        pre.wf(),
        pre.space_wf(root),
        vaddr % 4096 == 0,
        paddr % 4096 == 0,
        flags < 1024,
        pte_valid(pre.entry(root as int, vpn1(vaddr))) || pre.free_pages() >= 1,
        mapped(pre, post, root, vaddr, paddr, flags),
    ensures
        post.spec_walk(root, vaddr).is_some(),
        pte_valid(post.spec_walk(root, vaddr).unwrap()),
        pte_ppn(post.spec_walk(root, vaddr).unwrap()) == paddr / 4096,
        pte_flags(post.spec_walk(root, vaddr).unwrap()) == flags | PAGE_V,
        pte_flags(post.spec_walk(root, vaddr).unwrap()) & flags == flags,
        pte_flags(post.spec_walk(root, vaddr).unwrap()) & PAGE_V == PAGE_V,
{
    lemma_mapped(pre, post, root, vaddr, paddr, flags);
    lemma_leaf_pte(paddr, flags);
    assert((flags | 1) & flags == flags && (flags | 1) & 1 == 1) by (bit_vector);
}

/// Addresses in the same page have the same table indices.
pub proof fn lemma_page_vpn(a: VAddr, b: VAddr)
    requires
        a / 4096 == b / 4096,
    ensures
        vpn1(a) == vpn1(b),
        vpn0(a) == vpn0(b),
{
    assert(a / 4096 == b / 4096 ==> ((a >> 22) & 0x3ff) == ((b >> 22) & 0x3ff) && ((a >> 12)
        & 0x3ff) == ((b >> 12) & 0x3ff)) by (bit_vector);
}

impl PhysMemory {
    /// The indices of the valid entries of the root table at `root`: the
    /// second-level tables that the address space has.
    pub open spec fn tables(&self, root: PAddr) -> Set<int> {
        Set::new(|i: int| 0 <= i < 1024 && pte_valid(self.entry(root as int, i)))
    }

    /// Whether the page at `addr` is a table of the address space under
    /// `root`: the root itself, or a second-level table of it.
    pub open spec fn is_table(&self, root: PAddr, addr: int) -> bool {
        addr == root || exists|i: int|
            0 <= i < 1024 && pte_valid(#[trigger] self.entry(root as int, i)) && pte_addr(
                self.entry(root as int, i),
            ) == addr
    }
}

/// Mapping a page leaves every page alone that was handed out before and
/// is no table of the address space, and makes no such page a table.
pub proof fn lemma_mapped_frame(
    pre: PhysMemory,
    post: PhysMemory,
    root: PAddr,
    vaddr: VAddr,
    paddr: PAddr,
    flags: u32,
    addr: int,
)
    requires
        pre.wf(),
        pre.space_wf(root),
        pte_valid(pre.entry(root as int, vpn1(vaddr))) || pre.free_pages() >= 1,
        mapped(pre, post, root, vaddr, paddr, flags),
        pre.is_allocated(addr),
        !pre.is_table(root, addr),
    ensures
        post.page(addr) == pre.page(addr),
        !post.is_table(root, addr),
{
    lemma_mapped(pre, post, root, vaddr, paddr, flags);
    lemma_vpn_bounds(vaddr);
    let table = table_for(pre, root, vaddr);
    assert(addr != table);
    lemma_page_index(pre, addr);
    lemma_page_index(pre, table);
    lemma_page_index(pre, root as int);
    assert(pre.page_index(addr) != pre.page_index(table));
    assert(pre.page_index(addr) != pre.page_index(root as int));
    assert(0 <= pre.page_index(addr) < pre.pages@.len());
    assert forall|i: int|
        0 <= i < 1024 && pte_valid(#[trigger] post.entry(root as int, i)) implies pte_addr(
        post.entry(root as int, i),
    ) != addr by {
        if i != vpn1(vaddr) {
            assert(pte_valid(pre.entry(root as int, i)));
        }
    }
}

/// An address space is not affected by what happens to pages that are not
/// its tables: where the tables have kept their words, the space is still
/// well formed, has the same tables, and every walk finds what it found.
pub proof fn lemma_tables_kept(pre: PhysMemory, post: PhysMemory, root: PAddr)
    requires
        pre.wf(),
        post.wf(),
        pre.space_wf(root),
        post.map == pre.map,
        post.next_paddr >= pre.next_paddr,
        forall|addr: int| pre.is_table(root, addr) ==> #[trigger] post.page(addr) == pre.page(addr),
    ensures
        post.space_wf(root),
        forall|v: VAddr| #[trigger] post.spec_walk(root, v) == pre.spec_walk(root, v),
        forall|addr: int| post.is_table(root, addr) == pre.is_table(root, addr),
{
    assert(pre.is_table(root, root as int));
    assert(post.page(root as int) == pre.page(root as int));
    assert forall|i: int| 0 <= i < 1024 implies #[trigger] post.entry(root as int, i) == pre.entry(
        root as int,
        i,
    ) by {}
    assert forall|v: VAddr| #[trigger] post.spec_walk(root, v) == pre.spec_walk(root, v) by {
        lemma_vpn_bounds(v);
        let e1 = pre.entry(root as int, vpn1(v));
        assert(post.entry(root as int, vpn1(v)) == e1);
        if pte_valid(e1) {
            assert(pre.is_table(root, pte_addr(e1)));
            assert(post.page(pte_addr(e1)) == pre.page(pte_addr(e1)));
        }
    }
    assert forall|addr: int| post.is_table(root, addr) == pre.is_table(root, addr) by {
        if pre.is_table(root, addr) && addr != root {
            let i = choose|i: int|
                0 <= i < 1024 && pte_valid(#[trigger] pre.entry(root as int, i)) && pte_addr(
                    pre.entry(root as int, i),
                ) == addr;
            assert(pte_valid(post.entry(root as int, i)));
        }
        if post.is_table(root, addr) && addr != root {
            let i = choose|i: int|
                0 <= i < 1024 && pte_valid(#[trigger] post.entry(root as int, i)) && pte_addr(
                    post.entry(root as int, i),
                ) == addr;
            assert(pte_valid(pre.entry(root as int, i)));
        }
    }
}

} // verus!
