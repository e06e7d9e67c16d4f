//! Address spaces: the page tables of the idle process and of user
//! processes.
//!
//! Every address space maps the kernel window onto itself. That of a user
//! process maps the page of the virtio registers as well, and the image of
//! the process from `USER_BASE` on, each page of the image copied to a page
//! of its own.

use vstd::prelude::*;
use vstd::arithmetic::div_mod::{lemma_div_is_ordered, lemma_fundamental_div_mod_converse};
use vstd::set_lib::{lemma_int_range, lemma_len_subset, set_int_range};
use crate::common::{PAddr, VAddr};
use crate::memory::{
    alloc_pages, allocated, leaf_pte, lemma_mapped, lemma_mapped_frame, lemma_page_index,
    lemma_page_vpn, lemma_tables_kept, lemma_vpn_bounds, lemma_vpn_page, map_page, mapped, pte_addr,
    pte_valid, vpn0, vpn1, MemoryMap, PhysMemory,
};
use crate::process::USER_BASE;
use crate::usermem::{byte_of, lemma_byte_addr};

verus! {

/// Flags of the pages of the kernel window: read, write, execute.
pub const KERNEL_FLAGS: u32 = 14;

/// Flags of the page of the virtio registers: read, write.
pub const MMIO_FLAGS: u32 = 6;

/// Flags of the pages of a user image: user, read, write, execute.
pub const USER_FLAGS: u32 = 30;

/// Address of the page of the virtio registers.
pub const VIRTIO_PAGE: u32 = 0x1000_1000;

/// The root index of an address is the address divided by the span of a
/// second-level table, four mebibytes.
pub proof fn lemma_vpn1_div(vaddr: VAddr)
    ensures
        vpn1(vaddr) == vaddr / 0x40_0000,
{
    assert((vaddr >> 22) & 0x3ff == vaddr / 0x40_0000) by (bit_vector);
}

/// Whether a page of `[lo, hi)` has the root index `i`.
pub open spec fn touches(lo: int, hi: int, i: int) -> bool {
    lo < hi && lo / 0x40_0000 <= i <= (hi - 1) / 0x40_0000
}

impl PhysMemory {
    /// There is memory for the second-level tables that the address space
    /// under `root` still lacks among those with an index in `need`, and
    /// for `extra` pages more.
    pub open spec fn budget(&self, root: PAddr, need: Set<int>, extra: int) -> bool {
        &&& need.finite()
        &&& self.tables(root).subset_of(need)
        &&& self.free_pages() >= need.len() - self.tables(root).len() + extra
    }
}

/// A set of root indices is finite and has at most 1024 elements.
pub proof fn lemma_index_set_finite(s: Set<int>)
    requires
        forall|i: int| s.contains(i) ==> 0 <= i < 1024,
    ensures
        s.finite(),
        s.len() <= 1024,
{
    lemma_int_range(0, 1024);
    lemma_len_subset(s, set_int_range(0, 1024));
}

/// Within its budget, a page whose root index is among those the budget
/// counts can be mapped; and after it was mapped the budget still holds.
pub proof fn lemma_budget_step(
    pre: PhysMemory,
    post: PhysMemory,
    root: PAddr,
    need: Set<int>,
    extra: int,
    vaddr: VAddr,
    paddr: PAddr,
    flags: u32,
)
    requires
        pre.wf(),
        pre.space_wf(root),
        pre.budget(root, need, extra),
        extra >= 0,
        need.contains(vpn1(vaddr)),
    ensures
        pte_valid(pre.entry(root as int, vpn1(vaddr))) || pre.free_pages() >= 1,
        mapped(pre, post, root, vaddr, paddr, flags) ==> post.budget(root, need, extra),
{
    let i1 = vpn1(vaddr);
    lemma_vpn_bounds(vaddr);
    let t = pre.tables(root);
    lemma_len_subset(t, need);
    if !pte_valid(pre.entry(root as int, i1)) {
        assert(!t.contains(i1));
        lemma_len_subset(t.insert(i1), need);
    }
    if mapped(pre, post, root, vaddr, paddr, flags) {
        lemma_mapped(pre, post, root, vaddr, paddr, flags);
        assert(post.tables(root) =~= t.insert(i1));
        if pte_valid(pre.entry(root as int, i1)) {
            assert(t.contains(i1));
            assert(post.tables(root) =~= t);
        }
    }
}

/// Mapping a page adds the root index of its address to the tables of the
/// address space, and takes one page from the allocator exactly when that
/// index is new.
pub proof fn lemma_tables_step(
    pre: PhysMemory,
    post: PhysMemory,
    root: PAddr,
    vaddr: VAddr,
    paddr: PAddr,
    flags: u32,
)
    requires
        pre.wf(),
        pre.space_wf(root),
        pte_valid(pre.entry(root as int, vpn1(vaddr))) || pre.free_pages() >= 1,
        mapped(pre, post, root, vaddr, paddr, flags),
    ensures
        post.tables(root) == pre.tables(root).insert(vpn1(vaddr)),
        pre.tables(root).finite(),
        post.tables(root).finite(),
        post.next_paddr - 4096 * post.tables(root).len() == pre.next_paddr - 4096 * pre.tables(
            root,
        ).len(),
{
    let i1 = vpn1(vaddr);
    lemma_vpn_bounds(vaddr);
    lemma_mapped(pre, post, root, vaddr, paddr, flags);
    lemma_index_set_finite(pre.tables(root));
    lemma_index_set_finite(post.tables(root));
    assert(post.tables(root) =~= pre.tables(root).insert(i1));
    if pte_valid(pre.entry(root as int, i1)) {
        assert(pre.tables(root).contains(i1));
    } else {
        assert(!pre.tables(root).contains(i1));
    }
}

/// The start of the page that holds the address `v`.
pub open spec fn page_base(v: VAddr) -> VAddr {
    (v - v % 4096) as u32
}

/// The walks of an address space in which the pages of `[lo, v)` are
/// mapped onto themselves with `flags`, and which is otherwise as `before`.
pub open spec fn identity_upto(
    before: PhysMemory,
    mem: PhysMemory,
    root: PAddr,
    lo: int,
    v: int,
    flags: u32,
) -> bool {
    &&& forall|a: VAddr| #[trigger]
        mem.spec_walk(root, a) == if lo <= a < v {
            Some(leaf_pte(page_base(a), flags))
        } else {
            before.spec_walk(root, a)
        }
    &&& forall|i: int|
        #[trigger] mem.tables(root).contains(i) == (before.tables(root).contains(i) || (0 <= i
            < 1024 && touches(lo, v, i)))
    &&& kept(before, mem, root)
}

/// The pages that `before` had handed out and that are no tables of the
/// address space under `root` hold in `mem` what they held in `before`,
/// and are no tables in `mem` either.
pub open spec fn kept(before: PhysMemory, mem: PhysMemory, root: PAddr) -> bool {
    forall|addr: int|
        #![trigger mem.page(addr)]
        #![trigger mem.is_table(root, addr)]
        before.is_allocated(addr) && !before.is_table(root, addr) ==> {
            &&& mem.page(addr) == before.page(addr)
            &&& !mem.is_table(root, addr)
        }
}

/// The second-level tables for the pages of `[lo, v)` lie one behind the
/// other, in the order of their root indices, from where `before` had its
/// cursor.
pub open spec fn placed_upto(
    before: PhysMemory,
    mem: PhysMemory,
    root: PAddr,
    lo: int,
    v: int,
) -> bool {
    forall|i: int|
        touches(lo, v, i) ==> pte_addr(#[trigger] mem.entry(root as int, i)) == before.next_paddr
            + 4096 * (i - lo / 0x40_0000)
}

/// The span of a second-level table is a whole number of pages: an
/// address on a page boundary lies a page or more below the end of the
/// span it lies in, and on the boundary of a span where the address
/// before it lies in another span.
pub proof fn lemma_span_parts(v: int)
    requires
        0 <= v,
        v % 4096 == 0,
    ensures
        (v + 4095) / 0x40_0000 == v / 0x40_0000,
        v > 0 ==> (v - 1) / 0x40_0000 == if v % 0x40_0000 == 0 {
            v / 0x40_0000 - 1
        } else {
            v / 0x40_0000
        },
        v % 0x40_0000 == 0 ==> v == 0x40_0000 * (v / 0x40_0000),
{
    let q = v / 0x40_0000;
    let r = v % 0x40_0000;
    let a = v / 4096;
    assert(v == 0x40_0000 * q + r);
    assert(v == 4096 * a);
    lemma_fundamental_div_mod_converse(r, 4096, a - 1024 * q, 0);
    assert(r % 4096 == 0);
    assert(r == 4096 * (r / 4096));
    assert(r <= 0x40_0000 - 4096);
    lemma_fundamental_div_mod_converse(v + 4095, 0x40_0000, q, r + 4095);
    if v > 0 {
        if r == 0 {
            lemma_fundamental_div_mod_converse(v - 1, 0x40_0000, q - 1, 0x40_0000 - 1);
        } else {
            lemma_fundamental_div_mod_converse(v - 1, 0x40_0000, q, r - 1);
        }
    }
}

/// The root indices of the pages of `[lo, v + 4096)` are those of the
/// pages of `[lo, v)` and that of the page at `v`.
pub proof fn lemma_touch_step(lo: int, v: int, i: int)
    requires
        0 <= lo <= v,
        v % 4096 == 0,
    ensures
        touches(lo, v + 4096, i) <==> touches(lo, v, i) || i == v / 0x40_0000,
{
    lemma_span_parts(v);
    lemma_div_is_ordered(lo, v, 0x40_0000);
    if lo < v {
        assert(v > 0);
    }
}

/// Where the page at `v` is the first of `[lo, v]` with its root index,
/// the root indices of `[lo, v)` are those from that of `lo` up to, and
/// without, that of `v`; and unless `v` is `lo`, it lies on the boundary
/// of the span of a second-level table.
pub proof fn lemma_touch_new(lo: int, v: int)
    requires
        0 <= lo <= v,
        v % 4096 == 0,
        !touches(lo, v, v / 0x40_0000),
    ensures
        lo / 0x40_0000 <= v / 0x40_0000,
        forall|i: int| touches(lo, v, i) <==> lo / 0x40_0000 <= i < v / 0x40_0000,
        lo < v ==> v == 0x40_0000 * (v / 0x40_0000),
{
    lemma_span_parts(v);
    lemma_div_is_ordered(lo, v, 0x40_0000);
}

/// A step further along a range that is mapped in an address space that
/// had no table before: the table for the page at `v`, where it is new,
/// lies behind those for the pages before it.
proof fn lemma_placed_step(
    before: PhysMemory,
    pre: PhysMemory,
    post: PhysMemory,
    root: PAddr,
    lo: u32,
    v: u32,
    flags: u32,
)
    requires
        pre.wf(),
        pre.space_wf(root),
        lo <= v,
        v % 4096 == 0,
        before.map == pre.map,
        before.tables(root) == Set::<int>::empty(),
        identity_upto(before, pre, root, lo as int, v as int, flags),
        pre.next_paddr - 4096 * pre.tables(root).len() == before.next_paddr,
        placed_upto(before, pre, root, lo as int, v as int),
        pte_valid(pre.entry(root as int, vpn1(v))) || pre.free_pages() >= 1,
        mapped(pre, post, root, v, v, flags),
    ensures
        placed_upto(before, post, root, lo as int, v + 4096),
{
    let j = vpn1(v);
    lemma_mapped(pre, post, root, v, v, flags);
    lemma_vpn_bounds(v);
    lemma_vpn1_div(v);
    assert forall|i: int| touches(lo as int, v + 4096, i) implies pte_addr(
        #[trigger] post.entry(root as int, i),
    ) == before.next_paddr + 4096 * (i - lo / 0x40_0000) by {
        lemma_touch_step(lo as int, v as int, i);
        if touches(lo as int, v as int, i) {
            assert(0 <= i < 1024);
            assert(pre.tables(root).contains(i));
            assert(pte_valid(pre.entry(root as int, i)));
        } else {
            lemma_touch_new(lo as int, v as int);
            let first = lo as int / 0x40_0000;
            assert(!pre.tables(root).contains(j));
            assert(pre.tables(root) =~= set_int_range(first, j));
            lemma_int_range(first, j);
        }
    }
}

/// A step further along a range of addresses of which each page is mapped
/// onto itself.
#[verifier::rlimit(50)]
proof fn lemma_identity_step(
    before: PhysMemory,
    pre: PhysMemory,
    post: PhysMemory,
    root: PAddr,
    lo: u32,
    v: u32,
    flags: u32,
)
    requires
        pre.wf(),
        pre.space_wf(root),
        lo <= v,
        v % 4096 == 0,
        v + 4096 <= 0x1_0000_0000,
        before.next_paddr <= pre.next_paddr,
        before.map == pre.map,
        identity_upto(before, pre, root, lo as int, v as int, flags),
        pte_valid(pre.entry(root as int, vpn1(v))) || pre.free_pages() >= 1,
        mapped(pre, post, root, v, v, flags),
    ensures
        identity_upto(before, post, root, lo as int, v + 4096, flags),
{
    lemma_mapped(pre, post, root, v, v, flags);
    lemma_tables_step(pre, post, root, v, v, flags);
    lemma_vpn_bounds(v);
    lemma_vpn1_div(v);
    assert forall|i: int|
        #[trigger] post.tables(root).contains(i) == (before.tables(root).contains(i) || (0 <= i
            < 1024 && touches(lo as int, v + 4096, i))) by {
        lemma_touch_step(lo as int, v as int, i);
    }
    assert forall|a: VAddr| #[trigger]
        post.spec_walk(root, a) == if lo <= a < v + 4096 {
            Some(leaf_pte(page_base(a), flags))
        } else {
            before.spec_walk(root, a)
        } by {
        if a / 4096 == v / 4096 {
            lemma_page_vpn(a, v);
            assert(page_base(a) == v);
        } else {
            if vpn1(a) == vpn1(v) && vpn0(a) == vpn0(v) {
                lemma_vpn_page(a, v);
            }
            assert(post.spec_walk(root, a) == pre.spec_walk(root, a));
        }
    }
    assert forall|addr: int|
        #![trigger post.page(addr)]
        #![trigger post.is_table(root, addr)]
        before.is_allocated(addr) && !before.is_table(root, addr) implies {
        &&& post.page(addr) == before.page(addr)
        &&& !post.is_table(root, addr)
    } by {
        assert(pre.page(addr) == before.page(addr));
        lemma_mapped_frame(pre, post, root, v, v, flags, addr);
    }
}

/// Maps every page of `[lo, hi)` to the physical page of the same address,
/// with `flags`.
#[verifier::rlimit(50)]
pub(crate) fn map_identity(
    mem: &mut PhysMemory,
    root: PAddr,
    lo: u32,
    hi: u32,
    flags: u32,
    Ghost(need): Ghost<Set<int>>,
    Ghost(extra): Ghost<int>,
)
    requires
        old(mem).wf(),
        old(mem).space_wf(root),
        lo % 4096 == 0,
        hi % 4096 == 0,
        lo <= hi,
        extra >= 0,
        old(mem).budget(root, need, extra),
        forall|i: int| touches(lo as int, hi as int, i) ==> need.contains(i),
    ensures
        final(mem).wf(),
        final(mem).space_wf(root),
        final(mem).budget(root, need, extra),
        final(mem).map == old(mem).map,
        final(mem).pages@.len() == old(mem).pages@.len(),
        final(mem).next_paddr >= old(mem).next_paddr,
        final(mem).next_paddr - 4096 * final(mem).tables(root).len() == old(mem).next_paddr - 4096
            * old(mem).tables(root).len(),
        identity_upto(*old(mem), *final(mem), root, lo as int, hi as int, flags),
        old(mem).tables(root) == Set::<int>::empty() ==> placed_upto(
            *old(mem),
            *final(mem),
            root,
            lo as int,
            hi as int,
        ),
{
    let mut v: u32 = lo;
    assert(identity_upto(*old(mem), *mem, root, lo as int, lo as int, flags));
    while v < hi
        invariant
            lo <= v <= hi,
            v % 4096 == 0,
            hi % 4096 == 0,
            extra >= 0,
            mem.wf(),
            mem.space_wf(root),
            mem.budget(root, need, extra),
            mem.map == old(mem).map,
            mem.pages@.len() == old(mem).pages@.len(),
            mem.next_paddr >= old(mem).next_paddr,
            mem.next_paddr - 4096 * mem.tables(root).len() == old(mem).next_paddr - 4096
                * old(mem).tables(root).len(),
            forall|i: int| touches(lo as int, hi as int, i) ==> need.contains(i),
            identity_upto(*old(mem), *mem, root, lo as int, v as int, flags),
            old(mem).tables(root) == Set::<int>::empty() ==> placed_upto(
                *old(mem),
                *mem,
                root,
                lo as int,
                v as int,
            ),
        decreases hi - v,
    {
        let ghost before = *mem;
        proof {
            lemma_vpn1_div(v);
            assert(touches(lo as int, hi as int, vpn1(v)));
            lemma_budget_step(before, before, root, need, extra, v, v, flags);
        }
        map_page(mem, root, v, v, flags);
        proof {
            lemma_budget_step(before, *mem, root, need, extra, v, v, flags);
            lemma_tables_step(before, *mem, root, v, v, flags);
            lemma_identity_step(*old(mem), before, *mem, root, lo, v, flags);
            if old(mem).tables(root) == Set::<int>::empty() {
                lemma_placed_step(*old(mem), before, *mem, root, lo, v, flags);
            }
        }
        if hi - v == 4096 {
            v = hi;
        } else {
            v = v + 4096;
        }
    }
}

/// The root indices of the kernel window `[kernel_base, free_ram_end)`.
pub open spec fn kernel_tables(map: MemoryMap) -> Set<int> {
    Set::new(
        |i: int| 0 <= i < 1024 && touches(map.kernel_base as int, map.free_ram_end as int, i),
    )
}

/// Number of pages that `init` takes from the allocator: the root table
/// and a second-level table for every four mebibytes that the kernel
/// window reaches into.
pub open spec fn pages_for_init(map: MemoryMap) -> int {
    1 + kernel_tables(map).len() as int
}

/// The address space under `root` maps the kernel window onto itself, page
/// by page, readable, writable and executable, and nothing else.
pub open spec fn kernel_space(mem: PhysMemory, root: PAddr) -> bool {
    forall|v: VAddr| #[trigger]
        mem.spec_walk(root, v) == if mem.map.kernel_base <= v < mem.map.free_ram_end {
            Some(leaf_pte(page_base(v), KERNEL_FLAGS))
        } else {
            None
        }
}

/// A page of zeros holds no valid entry: as a root table it is an empty
/// address space.
pub proof fn lemma_fresh_root(pre: PhysMemory, mem: PhysMemory, root: PAddr)
    requires
        pre.wf(),
        mem.wf(),
        allocated(pre, mem, 1, root),
    ensures
        mem.space_wf(root),
        mem.tables(root) == Set::<int>::empty(),
        forall|v: VAddr| (#[trigger] mem.spec_walk(root, v)).is_none(),
        forall|addr: int| mem.is_table(root, addr) ==> addr == root,
        untouched(pre, mem, root),
{
    assert(0u32 & 1 == 0) by (bit_vector);
    let p = pre.page_index(root as int);
    lemma_page_index(mem, root as int);
    assert forall|i: int| 0 <= i < 1024 implies #[trigger] mem.entry(root as int, i) == 0 by {
        assert(mem.pages@[p]@[i] == 0);
    }
    assert(mem.tables(root) =~= Set::<int>::empty());
    assert forall|v: VAddr| (#[trigger] mem.spec_walk(root, v)).is_none() by {
        lemma_vpn_bounds(v);
    }
    assert forall|addr: int|
        #![trigger mem.page(addr)]
        #![trigger mem.is_table(root, addr)]
        pre.is_allocated(addr) implies {
        &&& mem.page(addr) == pre.page(addr)
        &&& !mem.is_table(root, addr)
    } by {
        let q = pre.page_index(addr);
        lemma_page_index(mem, addr);
        assert(0 <= q < p);
        assert(mem.pages@[q] == pre.pages@[q]);
    }
}

/// What was untouched when an address space was begun is untouched after
/// pages were mapped in it.
pub proof fn lemma_untouched_kept(
    before: PhysMemory,
    begun: PhysMemory,
    mem: PhysMemory,
    root: PAddr,
)
    requires
        before.map == begun.map,
        before.next_paddr <= begun.next_paddr,
        untouched(before, begun, root),
        kept(begun, mem, root),
    ensures
        untouched(before, mem, root),
{
    assert forall|addr: int|
        #![trigger mem.page(addr)]
        #![trigger mem.is_table(root, addr)]
        before.is_allocated(addr) implies {
        &&& mem.page(addr) == before.page(addr)
        &&& !mem.is_table(root, addr)
    } by {
        assert(begun.is_allocated(addr));
        assert(begun.page(addr) == before.page(addr));
        assert(!begun.is_table(root, addr));
    }
}

/// Number of pages that an image of `len` bytes takes.
pub open spec fn image_pages(len: int) -> int {
    (len + 4095) / 4096
}

/// End of the virtual addresses that an image of `len` bytes is mapped at.
pub open spec fn user_end(len: int) -> int {
    USER_BASE + image_pages(len) * 4096
}

/// The root indices of the address space of a process with an image of
/// `len` bytes: those of the kernel window, of the virtio page and of the
/// image.
pub open spec fn process_tables(map: MemoryMap, len: int) -> Set<int> {
    Set::new(
        |i: int|
            0 <= i < 1024 && (touches(map.kernel_base as int, map.free_ram_end as int, i) || i
                == 64 || touches(USER_BASE as int, user_end(len), i)),
    )
}

/// Number of pages that `create` takes from the allocator for an image of
/// `len` bytes: the root table, the second-level tables, and the pages of
/// the image.
pub open spec fn pages_for_create(map: MemoryMap, len: int) -> int {
    1 + process_tables(map, len).len() as int + image_pages(len)
}

/// Byte `off` of the image, and zero behind its end.
pub open spec fn image_byte(image: Seq<u8>, off: int) -> u8 {
    if 0 <= off < image.len() {
        image[off]
    } else {
        0
    }
}

/// The four bytes `b0` to `b3` as a little-endian word.
pub open spec fn word_le(b0: u8, b1: u8, b2: u8, b3: u8) -> u32 {
    (b0 as u32) | (b1 as u32) << 8 | (b2 as u32) << 16 | (b3 as u32) << 24
}

/// The word of the image at byte offset `off`.
pub open spec fn image_word(image: Seq<u8>, off: int) -> u32 {
    word_le(
        image_byte(image, off),
        image_byte(image, off + 1),
        image_byte(image, off + 2),
        image_byte(image, off + 3),
    )
}

/// Page `k` of the image as the words of a page of memory; what lies
/// behind the end of the image is zero.
pub open spec fn image_page(image: Seq<u8>, k: int) -> Seq<u32> {
    Seq::new(1024, |j: int| image_word(image, k * 4096 + 4 * j))
}

/// The physical page that the user address `v` is mapped to under `root`.
pub open spec fn user_frame(mem: PhysMemory, root: PAddr, v: VAddr) -> int {
    pte_addr(mem.spec_walk(root, v).unwrap())
}

/// The physical page that page `k` of the image of a process lies in,
/// where the pages of the address space were handed out from `lo` on: it
/// lies behind the root table, the second-level tables that the address
/// space has when the image page is reached, and the image pages before
/// it.
pub open spec fn frame_place(map: MemoryMap, lo: int, k: int) -> int {
    lo + 4096 * (1 + table_set(map, true, USER_BASE + 4096 * k).len() + k)
}

/// The physical page that holds the second-level table with the root
/// index `i` of an address space whose pages were handed out from `lo` on.
///
/// The tables of the kernel window lie behind the root table, in the order
/// of their indices. The table of the virtio page, unless it is one of
/// those, lies behind them. A table that only the image needs lies behind
/// the first image page that needs it.
pub open spec fn table_place(map: MemoryMap, lo: int, i: int) -> int {
    if touches(map.kernel_base as int, map.free_ram_end as int, i) {
        lo + 4096 * (1 + i - map.kernel_base / 0x40_0000)
    } else if i == 64 {
        lo + 4096 * (1 + kernel_tables(map).len())
    } else {
        frame_place(map, lo, (i - 4) * 1024) + 4096
    }
}

/// Every second-level table of the address space under `root` lies where
/// `table_place` says.
pub open spec fn tables_placed(mem: PhysMemory, root: PAddr, lo: int) -> bool {
    forall|i: int|
        0 <= i < 1024 && pte_valid(#[trigger] mem.entry(root as int, i)) ==> pte_addr(
            mem.entry(root as int, i),
        ) == table_place(mem.map, lo, i)
}

/// The user address `v` is mapped, for user mode, readable, writable and
/// executable, to the page that its page of the image lies in; that page
/// was handed out, is no page table, and holds the page of the image.
pub open spec fn user_page_ok(
    mem: PhysMemory,
    root: PAddr,
    image: Seq<u8>,
    v: VAddr,
    lo: int,
) -> bool {
    let frame = user_frame(mem, root, v);
    &&& mem.spec_walk(root, v) == Some(leaf_pte(frame as u32, USER_FLAGS))
    &&& frame == frame_place(mem.map, lo, (v - USER_BASE) / 4096)
    &&& mem.is_allocated(frame)
    &&& !mem.is_table(root, frame)
    &&& mem.page(frame) == image_page(image, (v - USER_BASE) / 4096)
}

/// What a walk under `root` finds at an address outside the user image:
/// the virtio page is mapped onto itself, readable and writable; the rest
/// of the kernel window is mapped onto itself, readable, writable and
/// executable; nothing else is mapped.
pub open spec fn kernel_walk(map: MemoryMap, v: VAddr) -> Option<u32> {
    if v / 4096 == VIRTIO_PAGE / 4096 {
        Some(leaf_pte(VIRTIO_PAGE, MMIO_FLAGS))
    } else if map.kernel_base <= v < map.free_ram_end {
        Some(leaf_pte(page_base(v), KERNEL_FLAGS))
    } else {
        None
    }
}

/// The first `off` bytes of the user addresses are mapped to the pages of
/// the image `image`, one page of its own for each page of the image, and
/// outside of them the kernel's part of the space is as in every process.
pub open spec fn image_mapped(
    mem: PhysMemory,
    root: PAddr,
    image: Seq<u8>,
    lo: int,
    off: int,
) -> bool {
    &&& forall|v: VAddr|
        USER_BASE <= v < USER_BASE + off ==> user_page_ok(mem, root, image, v, lo)
    &&& forall|v: VAddr|
        !(USER_BASE <= v < USER_BASE + off) ==> #[trigger] mem.spec_walk(root, v) == kernel_walk(
            mem.map,
            v,
        )
    &&& forall|v1: VAddr, v2: VAddr|
        USER_BASE <= v1 < USER_BASE + off && USER_BASE <= v2 < USER_BASE + off && v1 / 4096 != v2
            / 4096 ==> #[trigger] user_frame(mem, root, v1) != #[trigger] user_frame(mem, root, v2)
}

/// The address space under `root` is that of a process with the image
/// `image`: the whole image is mapped from `USER_BASE` on, and outside the
/// image the kernel's part of the space is as in every process.
pub open spec fn process_space(mem: PhysMemory, root: PAddr, image: Seq<u8>, lo: int) -> bool {
    image_mapped(mem, root, image, lo, image_pages(image.len() as int) * 4096)
}

/// The pages that `before` had handed out hold in `mem` what they held in
/// `before`, and none of them is a table of the address space under `root`.
pub open spec fn untouched(before: PhysMemory, mem: PhysMemory, root: PAddr) -> bool {
    forall|addr: int|
        #![trigger mem.page(addr)]
        #![trigger mem.is_table(root, addr)]
        before.is_allocated(addr) ==> {
            &&& mem.page(addr) == before.page(addr)
            &&& !mem.is_table(root, addr)
        }
}

/// An address space is not affected by what happens to pages that are not
/// its tables: where every page that was handed out before has kept its
/// words, the space is still well formed, has the same tables, and every
/// walk finds what it found.
pub proof fn lemma_untouched(pre: PhysMemory, post: PhysMemory, root: PAddr)
    requires
        pre.wf(),
        post.wf(),
        pre.space_wf(root),
        post.map == pre.map,
        post.next_paddr >= pre.next_paddr,
        forall|addr: int| pre.is_allocated(addr) ==> #[trigger] post.page(addr) == pre.page(addr),
    ensures
        post.space_wf(root),
        post.tables(root) == pre.tables(root),
        forall|v: VAddr| #[trigger] post.spec_walk(root, v) == pre.spec_walk(root, v),
        forall|addr: int| post.is_table(root, addr) == pre.is_table(root, addr),
{
    assert forall|addr: int| pre.is_table(root, addr) implies #[trigger] post.page(addr)
        == pre.page(addr) by {
        if addr != root {
            let i = choose|i: int|
                0 <= i < 1024 && pte_valid(#[trigger] pre.entry(root as int, i)) && pte_addr(
                    pre.entry(root as int, i),
                ) == addr;
            assert(pre.is_allocated(pte_addr(pre.entry(root as int, i))));
        }
    }
    lemma_tables_kept(pre, post, root);
    assert(post.page(root as int) == pre.page(root as int));
    assert forall|i: int| 0 <= i < 1024 implies #[trigger] post.entry(root as int, i) == pre.entry(
        root as int,
        i,
    ) by {}
    assert(post.tables(root) =~= pre.tables(root));
}

/// Packs four bytes into a little-endian word.
fn pack_le(b0: u8, b1: u8, b2: u8, b3: u8) -> (w: u32)
    ensures
        w == word_le(b0, b1, b2, b3),
{
    (b0 as u32) | (b1 as u32) << 8 | (b2 as u32) << 16 | (b3 as u32) << 24
}

/// Byte `off` of the image, and zero behind its end.
fn byte_at(image: &[u8], off: usize) -> (b: u8)
    ensures
        b == image_byte(image@, off as int),
{
    if off < image.len() {
        image[off]
    } else {
        0
    }
}

/// Hands out one page and copies page `k` of the image into it.
fn alloc_image_page(mem: &mut PhysMemory, image: &[u8], k: usize) -> (frame: PAddr)
    requires
        old(mem).wf(),
        old(mem).free_pages() >= 1,
        k * 4096 < image@.len(),
        image@.len() <= 0xFF00_0000,
    ensures
        final(mem).wf(),
        final(mem).map == old(mem).map,
        frame == old(mem).next_paddr,
        final(mem).next_paddr == old(mem).next_paddr + 4096,
        final(mem).page(frame as int) == image_page(image@, k as int),
        forall|addr: int| old(mem).is_allocated(addr) ==> #[trigger] final(mem).page(addr) == old(
            mem,
        ).page(addr),
{
    let frame = alloc_pages(mem, 1);
    proof {
        lemma_page_index(*mem, frame as int);
    }
    let p: usize = ((frame - mem.map.free_ram) / 4096) as usize;
    let ghost after_alloc = *mem;
    let mut j: usize = 0;
    while j < 1024
        invariant
            j <= 1024,
            k * 4096 < image@.len() <= 0xFF00_0000,
            mem.wf(),
            mem.map == after_alloc.map,
            mem.next_paddr == after_alloc.next_paddr,
            mem.pages@.len() == after_alloc.pages@.len(),
            p == mem.page_index(frame as int),
            0 <= p < mem.pages@.len(),
            forall|q: int| 0 <= q < mem.pages@.len() && q != p ==> #[trigger] mem.pages@[q]
                == after_alloc.pages@[q],
            forall|i: int| 0 <= i < j ==> #[trigger] mem.pages@[p as int]@[i] == image_word(
                image@,
                k * 4096 + 4 * i,
            ),
        decreases 1024 - j,
    {
        let off: usize = k * 4096 + 4 * j;
        let w = pack_le(
            byte_at(image, off),
            byte_at(image, off + 1),
            byte_at(image, off + 2),
            byte_at(image, off + 3),
        );
        mem.pages[p][j] = w;
        j += 1;
    }
    proof {
        assert(mem.page(frame as int) =~= image_page(image@, k as int));
        assert forall|addr: int| old(mem).is_allocated(addr) implies #[trigger] mem.page(addr)
            == old(mem).page(addr) by {
            let q = old(mem).page_index(addr);
            lemma_page_index(*mem, addr);
            lemma_page_index(*mem, frame as int);
            assert(q != p);
            assert(after_alloc.pages@[q] == old(mem).pages@[q]);
        }
    }
    frame
}

/// A user page that is mapped stays as it is when another page is mapped
/// in the same address space.
proof fn lemma_user_page_kept(
    pre: PhysMemory,
    post: PhysMemory,
    root: PAddr,
    image: Seq<u8>,
    lo: int,
    v: VAddr,
    vaddr: VAddr,
    paddr: PAddr,
    flags: u32,
)
    requires
        pre.wf(),
        pre.space_wf(root),
        pte_valid(pre.entry(root as int, vpn1(vaddr))) || pre.free_pages() >= 1,
        mapped(pre, post, root, vaddr, paddr, flags),
        v / 4096 != vaddr / 4096,
        user_page_ok(pre, root, image, v, lo),
    ensures
        user_page_ok(post, root, image, v, lo),
        user_frame(post, root, v) == user_frame(pre, root, v),
{
    lemma_mapped(pre, post, root, vaddr, paddr, flags);
    if vpn1(v) == vpn1(vaddr) && vpn0(v) == vpn0(vaddr) {
        lemma_vpn_page(v, vaddr);
    }
    assert(post.spec_walk(root, v) == pre.spec_walk(root, v));
    lemma_mapped_frame(pre, post, root, vaddr, paddr, flags, user_frame(pre, root, v));
}

/// A user page that is mapped stays as it is when pages that are no
/// tables change or are handed out.
proof fn lemma_user_page_untouched(
    pre: PhysMemory,
    post: PhysMemory,
    root: PAddr,
    image: Seq<u8>,
    lo: int,
    v: VAddr,
)
    requires
        pre.wf(),
        post.wf(),
        pre.space_wf(root),
        post.map == pre.map,
        post.next_paddr >= pre.next_paddr,
        forall|addr: int| pre.is_allocated(addr) ==> #[trigger] post.page(addr) == pre.page(addr),
        user_page_ok(pre, root, image, v, lo),
    ensures
        user_page_ok(post, root, image, v, lo),
        user_frame(post, root, v) == user_frame(pre, root, v),
{
    lemma_untouched(pre, post, root);
    assert(post.spec_walk(root, v) == pre.spec_walk(root, v));
    let frame = user_frame(pre, root, v);
    assert(post.page(frame) == pre.page(frame));
    assert(post.is_table(root, frame) == pre.is_table(root, frame));
}

/// The entry that maps a page for user mode points to that page.
proof fn lemma_user_leaf(frame: PAddr)
    requires
        frame % 4096 == 0,
    ensures
        pte_addr(leaf_pte(frame, USER_FLAGS)) == frame,
{
    assert(frame % 4096 == 0 ==> ((((frame / 4096) << 10) | 30u32 | 1) >> 10) * 4096 == frame)
        by (bit_vector);
}

/// One step of mapping an image: where the first `off` bytes are mapped,
/// a fresh page is handed out and filled with the next page of the image,
/// and that page is mapped at the next user address, the first `off + 4096`
/// bytes are mapped.
#[verifier::rlimit(50)]
proof fn lemma_image_step(
    s0: PhysMemory,
    s1: PhysMemory,
    s2: PhysMemory,
    root: PAddr,
    image: Seq<u8>,
    lo: int,
    off: int,
    frame: PAddr,
)
    requires
        s0.wf(),
        s1.wf(),
        s0.space_wf(root),
        image_mapped(s0, root, image, lo, off),
        off % 4096 == 0,
        0 <= off,
        USER_BASE + off + 4096 <= 0x1_0000_0000,
        s1.map == s0.map,
        frame == s0.next_paddr,
        frame == frame_place(s0.map, lo, off / 4096),
        s1.next_paddr == s0.next_paddr + 4096,
        s1.page(frame as int) == image_page(image, off / 4096),
        forall|addr: int| s0.is_allocated(addr) ==> #[trigger] s1.page(addr) == s0.page(addr),
        pte_valid(s1.entry(root as int, vpn1((USER_BASE + off) as u32))) || s1.free_pages() >= 1,
        mapped(s1, s2, root, (USER_BASE + off) as u32, frame, USER_FLAGS),
    ensures
        image_mapped(s2, root, image, lo, off + 4096),
{
    let va = (USER_BASE + off) as u32;
    lemma_untouched(s0, s1, root);
    lemma_mapped(s1, s2, root, va, frame, USER_FLAGS);
    lemma_user_leaf(frame);
    assert(!s1.is_table(root, frame as int)) by {
        if s1.is_table(root, frame as int) {
            assert(s0.is_table(root, frame as int));
        }
    }
    lemma_mapped_frame(s1, s2, root, va, frame, USER_FLAGS, frame as int);
    assert forall|v: VAddr| !(USER_BASE <= v < USER_BASE + off + 4096) implies #[trigger] s2.spec_walk(
        root,
        v,
    ) == kernel_walk(s2.map, v) by {
        if vpn1(v) == vpn1(va) && vpn0(v) == vpn0(va) {
            lemma_vpn_page(v, va);
        }
        assert(s1.spec_walk(root, v) == s0.spec_walk(root, v));
    }
    assert forall|v: VAddr| USER_BASE <= v < USER_BASE + off + 4096 implies user_page_ok(
        s2,
        root,
        image,
        v,
        lo,
    ) && (v / 4096 != va / 4096 ==> user_frame(s2, root, v) == user_frame(s0, root, v) && user_frame(
        s0,
        root,
        v,
    ) < frame) && (v / 4096 == va / 4096 ==> user_frame(s2, root, v) == frame) by {
        if v / 4096 == va / 4096 {
            lemma_page_vpn(v, va);
            assert(s2.spec_walk(root, v) == s2.spec_walk(root, va));
            assert((v - USER_BASE) / 4096 == off / 4096);
        } else {
            assert(user_page_ok(s0, root, image, v, lo));
            lemma_user_page_untouched(s0, s1, root, image, lo, v);
            lemma_user_page_kept(s1, s2, root, image, lo, v, va, frame, USER_FLAGS);
        }
    }
    assert forall|v1: VAddr, v2: VAddr|
        USER_BASE <= v1 < USER_BASE + off + 4096 && USER_BASE <= v2 < USER_BASE + off + 4096 && v1
            / 4096 != v2 / 4096 implies #[trigger] user_frame(s2, root, v1) != #[trigger] user_frame(
        s2,
        root,
        v2,
    ) by {
        assert(user_page_ok(s2, root, image, v1, lo));
        assert(user_page_ok(s2, root, image, v2, lo));
    }
}

/// One step of mapping an image leaves alone what was handed out before
/// the address space was begun.
proof fn lemma_kept_step(
    before: PhysMemory,
    s0: PhysMemory,
    s1: PhysMemory,
    s2: PhysMemory,
    root: PAddr,
    vaddr: VAddr,
    paddr: PAddr,
    flags: u32,
)
    requires
        s0.wf(),
        s1.wf(),
        s0.space_wf(root),
        before.map == s0.map,
        before.next_paddr <= s0.next_paddr,
        untouched(before, s0, root),
        s1.map == s0.map,
        s1.next_paddr >= s0.next_paddr,
        forall|addr: int| s0.is_allocated(addr) ==> #[trigger] s1.page(addr) == s0.page(addr),
        pte_valid(s1.entry(root as int, vpn1(vaddr))) || s1.free_pages() >= 1,
        mapped(s1, s2, root, vaddr, paddr, flags),
    ensures
        untouched(before, s2, root),
{
    lemma_untouched(s0, s1, root);
    assert forall|addr: int|
        #![trigger s2.page(addr)]
        #![trigger s2.is_table(root, addr)]
        before.is_allocated(addr) implies {
        &&& s2.page(addr) == before.page(addr)
        &&& !s2.is_table(root, addr)
    } by {
        assert(s0.is_allocated(addr));
        assert(s0.page(addr) == before.page(addr));
        assert(s1.page(addr) == s0.page(addr));
        assert(s1.is_table(root, addr) == s0.is_table(root, addr));
        lemma_mapped_frame(s1, s2, root, vaddr, paddr, flags, addr);
    }
}

/// After the kernel window and the virtio page were mapped in a fresh
/// address space, a walk finds the kernel's part of the space.
proof fn lemma_kernel_part(m1: PhysMemory, m2: PhysMemory, root: PAddr)
    requires
        m1.wf(),
        m1.space_wf(root),
        forall|v: VAddr| #[trigger]
            m1.spec_walk(root, v) == if m1.map.kernel_base <= v < m1.map.free_ram_end {
                Some(leaf_pte(page_base(v), KERNEL_FLAGS))
            } else {
                None
            },
        pte_valid(m1.entry(root as int, vpn1(VIRTIO_PAGE))) || m1.free_pages() >= 1,
        mapped(m1, m2, root, VIRTIO_PAGE, VIRTIO_PAGE, MMIO_FLAGS),
    ensures
        forall|v: VAddr| #[trigger] m2.spec_walk(root, v) == kernel_walk(m2.map, v),
{
    lemma_mapped(m1, m2, root, VIRTIO_PAGE, VIRTIO_PAGE, MMIO_FLAGS);
    assert forall|v: VAddr| #[trigger] m2.spec_walk(root, v) == kernel_walk(m2.map, v) by {
        if v / 4096 == VIRTIO_PAGE / 4096 {
            lemma_page_vpn(v, VIRTIO_PAGE);
        } else {
            if vpn1(v) == vpn1(VIRTIO_PAGE) && vpn0(v) == vpn0(VIRTIO_PAGE) {
                lemma_vpn_page(v, VIRTIO_PAGE);
            }
        }
    }
}

/// The root indices of the address space under `root` are those of the
/// kernel window, of the virtio page, and of the first `off` bytes of the
/// user addresses.
pub open spec fn tables_upto(mem: PhysMemory, root: PAddr, off: int) -> bool {
    forall|i: int|
        #[trigger] mem.tables(root).contains(i) == (0 <= i < 1024 && (touches(
            mem.map.kernel_base as int,
            mem.map.free_ram_end as int,
            i,
        ) || i == 64 || touches(USER_BASE as int, USER_BASE + off, i)))
}

/// Mapping the user page at offset `off` extends the root indices of the
/// address space by that of the page.
proof fn lemma_tables_upto_step(s1: PhysMemory, s2: PhysMemory, root: PAddr, off: int, frame: PAddr)
    requires
        s1.wf(),
        s1.space_wf(root),
        0 <= off,
        off % 4096 == 0,
        USER_BASE + off + 4096 <= 0x1_0000_0000,
        tables_upto(s1, root, off),
        pte_valid(s1.entry(root as int, vpn1((USER_BASE + off) as u32))) || s1.free_pages() >= 1,
        mapped(s1, s2, root, (USER_BASE + off) as u32, frame, USER_FLAGS),
    ensures
        tables_upto(s2, root, off + 4096),
{
    let va = (USER_BASE + off) as u32;
    lemma_tables_step(s1, s2, root, va, frame, USER_FLAGS);
    lemma_vpn_bounds(va);
    lemma_vpn1_div(va);
    assert forall|i: int|
        #[trigger] s2.tables(root).contains(i) == (0 <= i < 1024 && (touches(
            s2.map.kernel_base as int,
            s2.map.free_ram_end as int,
            i,
        ) || i == 64 || touches(USER_BASE as int, USER_BASE + off + 4096, i))) by {
        lemma_touch_step(USER_BASE as int, USER_BASE + off, i);
    }
}

/// The kernel's part of an address space: a fresh root table with the
/// kernel window and the virtio page mapped onto themselves.
#[verifier::rlimit(50)]
pub(crate) fn build_kernel_part(mem: &mut PhysMemory, Ghost(len): Ghost<int>) -> (root: PAddr)
    requires
        old(mem).wf(),
        0 <= len,
        old(mem).free_pages() >= pages_for_create(old(mem).map, len),
    ensures
        root == old(mem).next_paddr,
        final(mem).wf(),
        final(mem).map == old(mem).map,
        final(mem).space_wf(root),
        final(mem).next_paddr > root,
        final(mem).budget(root, process_tables(old(mem).map, len), image_pages(len)),
        final(mem).tables(root).finite(),
        final(mem).next_paddr - 4096 * final(mem).tables(root).len() == root + 4096,
        tables_upto(*final(mem), root, 0),
        tables_placed(*final(mem), root, root as int),
        untouched(*old(mem), *final(mem), root),
        forall|v: VAddr| #[trigger] final(mem).spec_walk(root, v) == kernel_walk(final(mem).map, v),
{
    let ghost need = process_tables(mem.map, len);
    let ghost pages = image_pages(len);
    proof {
        lemma_index_set_finite(need);
    }
    let page_table = alloc_pages(mem, 1);
    let ghost r0 = *mem;
    proof {
        lemma_fresh_root(*old(mem), r0, page_table);
    }
    map_identity(
        mem,
        page_table,
        mem.map.kernel_base,
        mem.map.free_ram_end,
        KERNEL_FLAGS,
        Ghost(need),
        Ghost(pages),
    );
    let ghost m1 = *mem;
    proof {
        lemma_untouched_kept(*old(mem), r0, m1, page_table);
        lemma_vpn1_div(VIRTIO_PAGE);
        lemma_budget_step(m1, m1, page_table, need, pages, VIRTIO_PAGE, VIRTIO_PAGE, MMIO_FLAGS);
    }
    map_page(mem, page_table, VIRTIO_PAGE, VIRTIO_PAGE, MMIO_FLAGS);
    proof {
        let m2 = *mem;
        lemma_budget_step(m1, m2, page_table, need, pages, VIRTIO_PAGE, VIRTIO_PAGE, MMIO_FLAGS);
        lemma_tables_step(m1, m2, page_table, VIRTIO_PAGE, VIRTIO_PAGE, MMIO_FLAGS);
        lemma_kernel_part(m1, m2, page_table);
        lemma_kept_step(*old(mem), m1, m1, m2, page_table, VIRTIO_PAGE, VIRTIO_PAGE, MMIO_FLAGS);
        assert(tables_upto(m2, page_table, 0)) by {
            assert forall|i: int|
                #[trigger] m2.tables(page_table).contains(i) == (0 <= i < 1024 && (touches(
                    m2.map.kernel_base as int,
                    m2.map.free_ram_end as int,
                    i,
                ) || i == 64 || touches(USER_BASE as int, USER_BASE + 0, i))) by {
                assert(m2.tables(page_table).contains(i) == (m1.tables(page_table).contains(i) || i
                    == 64));
            }
        }
        lemma_kernel_placed(r0, m1, m2, page_table);
    }
    page_table
}

/// The tables of the address space of the idle process lie where
/// `table_place` says: behind the root table, in the order of their
/// indices.
pub proof fn lemma_idle_placed(r0: PhysMemory, mem: PhysMemory, root: PAddr)
    requires
        r0.map == mem.map,
        r0.next_paddr == root + 4096,
        placed_upto(r0, mem, root, mem.map.kernel_base as int, mem.map.free_ram_end as int),
        forall|i: int|
            #[trigger] mem.tables(root).contains(i) == (0 <= i < 1024 && touches(
                mem.map.kernel_base as int,
                mem.map.free_ram_end as int,
                i,
            )),
    ensures
        tables_placed(mem, root, root as int),
{
    assert forall|i: int| 0 <= i < 1024 && pte_valid(#[trigger] mem.entry(root as int, i)) implies pte_addr(
        mem.entry(root as int, i),
    ) == table_place(mem.map, root as int, i) by {
        assert(mem.tables(root).contains(i));
    }
}

/// The tables of the kernel's part of an address space lie where
/// `table_place` says: those of the kernel window behind the root table,
/// and that of the virtio page behind them.
proof fn lemma_kernel_placed(r0: PhysMemory, m1: PhysMemory, m2: PhysMemory, root: PAddr)
    requires
        m1.wf(),
        m1.space_wf(root),
        r0.map == m1.map,
        r0.next_paddr == root + 4096,
        placed_upto(r0, m1, root, m1.map.kernel_base as int, m1.map.free_ram_end as int),
        forall|i: int|
            #[trigger] m1.tables(root).contains(i) == (0 <= i < 1024 && touches(
                m1.map.kernel_base as int,
                m1.map.free_ram_end as int,
                i,
            )),
        m1.next_paddr - 4096 * m1.tables(root).len() == root + 4096,
        pte_valid(m1.entry(root as int, vpn1(VIRTIO_PAGE))) || m1.free_pages() >= 1,
        mapped(m1, m2, root, VIRTIO_PAGE, VIRTIO_PAGE, MMIO_FLAGS),
    ensures
        tables_placed(m2, root, root as int),
{
    lemma_mapped(m1, m2, root, VIRTIO_PAGE, VIRTIO_PAGE, MMIO_FLAGS);
    lemma_vpn1_div(VIRTIO_PAGE);
    assert(vpn1(VIRTIO_PAGE) == 64);
    assert(m1.tables(root) =~= kernel_tables(m1.map));
    assert forall|i: int| 0 <= i < 1024 && pte_valid(#[trigger] m2.entry(root as int, i)) implies pte_addr(
        m2.entry(root as int, i),
    ) == table_place(m2.map, root as int, i) by {
        if pte_valid(m1.entry(root as int, i)) {
            assert(m1.tables(root).contains(i));
            assert(m2.entry(root as int, i) == m1.entry(root as int, i));
        } else {
            assert(i == 64);
            assert(!m1.tables(root).contains(64));
        }
    }
}

/// One step of mapping an image keeps the tables where they belong: the
/// table that the image page at offset `off` needs, where it is new, lies
/// behind the page that the image page was copied to.
proof fn lemma_tables_placed_step(
    s0: PhysMemory,
    s1: PhysMemory,
    s2: PhysMemory,
    root: PAddr,
    off: int,
    frame: PAddr,
)
    requires
        s0.wf(),
        s1.wf(),
        s0.space_wf(root),
        0 <= off,
        off % 4096 == 0,
        USER_BASE + off + 4096 <= 0x1_0000_0000,
        tables_upto(s0, root, off),
        tables_placed(s0, root, root as int),
        s1.map == s0.map,
        frame == s0.next_paddr,
        frame == frame_place(s0.map, root as int, off / 4096),
        s1.next_paddr == s0.next_paddr + 4096,
        forall|addr: int| s0.is_allocated(addr) ==> #[trigger] s1.page(addr) == s0.page(addr),
        pte_valid(s1.entry(root as int, vpn1((USER_BASE + off) as u32))) || s1.free_pages() >= 1,
        mapped(s1, s2, root, (USER_BASE + off) as u32, frame, USER_FLAGS),
    ensures
        tables_placed(s2, root, root as int),
{
    let va = (USER_BASE + off) as u32;
    let u = vpn1(va);
    lemma_untouched(s0, s1, root);
    lemma_mapped(s1, s2, root, va, frame, USER_FLAGS);
    lemma_vpn_bounds(va);
    lemma_vpn1_div(va);
    assert(s1.page(root as int) == s0.page(root as int));
    assert forall|i: int| 0 <= i < 1024 && pte_valid(#[trigger] s2.entry(root as int, i)) implies pte_addr(
        s2.entry(root as int, i),
    ) == table_place(s2.map, root as int, i) by {
        assert(s1.entry(root as int, i) == s0.entry(root as int, i));
        if pte_valid(s1.entry(root as int, i)) {
            assert(s2.entry(root as int, i) == s1.entry(root as int, i));
        } else {
            assert(i == u);
            assert(!s0.tables(root).contains(u));
            assert(!touches(USER_BASE as int, USER_BASE + off, u));
            lemma_touch_new(USER_BASE as int, va as int);
            assert(off == 0x40_0000 * (u - 4));
            assert(off / 4096 == (u - 4) * 1024);
        }
    }
}

/// Builds the address space of a process with the image `image` and
/// returns the address of its root table.
#[verifier::rlimit(50)]
pub(crate) fn build_space(mem: &mut PhysMemory, image: &[u8]) -> (root: PAddr)
    requires
        old(mem).wf(),
        image@.len() <= 0xFF00_0000,
        old(mem).free_pages() >= pages_for_create(old(mem).map, image@.len() as int),
    ensures
        root == old(mem).next_paddr,
        final(mem).wf(),
        final(mem).map == old(mem).map,
        final(mem).next_paddr == old(mem).next_paddr + 4096 * pages_for_create(
            old(mem).map,
            image@.len() as int,
        ),
        untouched(*old(mem), *final(mem), root),
        final(mem).space_wf(root),
        process_space(*final(mem), root, image@, root as int),
        tables_placed(*final(mem), root, root as int),
{
    let ghost len = image@.len() as int;
    let ghost need = process_tables(mem.map, len);
    let ghost lo = mem.next_paddr as int;
    let ghost pages = image_pages(len);
    let page_table = build_kernel_part(mem, Ghost(len));
    assert(image_mapped(*mem, page_table, image@, lo, 0));
    let mut off: usize = 0;
    while off < image.len()
        invariant
            off % 4096 == 0,
            off <= image@.len() + 4095,
            len == image@.len() <= 0xFF00_0000,
            pages == image_pages(len),
            need == process_tables(mem.map, len),
            lo == old(mem).next_paddr,
            page_table == lo,
            old(mem).wf(),
            mem.wf(),
            mem.map == old(mem).map,
            mem.space_wf(page_table),
            mem.next_paddr > lo,
            off / 4096 <= pages,
            mem.budget(page_table, need, pages - off / 4096),
            mem.tables(page_table).finite(),
            mem.next_paddr - 4096 * mem.tables(page_table).len() - 4096 * (off / 4096) == lo + 4096,
            tables_upto(*mem, page_table, off as int),
            tables_placed(*mem, page_table, lo),
            untouched(*old(mem), *mem, page_table),
            image_mapped(*mem, page_table, image@, lo, off as int),
        decreases image@.len() + 4096 - off,
    {
        let ghost s0 = *mem;
        let k: usize = off / 4096;
        let va: u32 = USER_BASE + off as u32;
        proof {
            lemma_len_subset(s0.tables(page_table), need);
        }
        let frame = alloc_image_page(mem, image, k);
        let ghost s1 = *mem;
        proof {
            lemma_untouched(s0, s1, page_table);
            lemma_vpn1_div(va);
            assert(need.contains(vpn1(va))) by {
                lemma_vpn_bounds(va);
                assert(touches(USER_BASE as int, user_end(len), vpn1(va)));
            }
            assert(s1.budget(page_table, need, pages - k - 1));
            lemma_budget_step(s1, s1, page_table, need, pages - k - 1, va, frame, USER_FLAGS);
            assert(tables_upto(s1, page_table, off as int));
        }
        map_page(mem, page_table, va, frame, USER_FLAGS);
        proof {
            lemma_budget_step(s1, *mem, page_table, need, pages - k - 1, va, frame, USER_FLAGS);
            lemma_tables_step(s1, *mem, page_table, va, frame, USER_FLAGS);
            lemma_tables_upto_step(s1, *mem, page_table, off as int, frame);
            lemma_kept_step(*old(mem), s0, s1, *mem, page_table, va, frame, USER_FLAGS);
            assert(frame == frame_place(s0.map, lo, k as int)) by {
                assert(s0.tables(page_table) =~= table_set(s0.map, true, USER_BASE + 4096 * k));
            }
            lemma_image_step(s0, s1, *mem, page_table, image@, lo, off as int, frame);
            lemma_tables_placed_step(s0, s1, *mem, page_table, off as int, frame);
        }
        off = off + 4096;
    }
    proof {
        assert(USER_BASE + off == user_end(len));
        assert(mem.tables(page_table) =~= need);
    }
    page_table
}

/// Whether a page of `[lo, hi)` has the root index `i`.
fn range_touches(lo: u64, hi: u64, i: u64) -> (b: bool)
    ensures
        b == touches(lo as int, hi as int, i as int),
{
    lo < hi && lo / 0x40_0000 <= i && i <= (hi - 1) / 0x40_0000
}

/// Whether a process with an image that ends at the user address
/// `user_end` has a second-level table with the root index `i`; without
/// the user part where `user` is false.
fn needs_table(map: &MemoryMap, user: bool, user_end: u64, i: u64) -> (b: bool)
    ensures
        b == (touches(map.kernel_base as int, map.free_ram_end as int, i as int) || (user && (i
            == 64 || touches(USER_BASE as int, user_end as int, i as int)))),
{
    range_touches(map.kernel_base as u64, map.free_ram_end as u64, i) || (user && (i == 64
        || range_touches(USER_BASE as u64, user_end, i)))
}

/// The root indices of an address space: those of the kernel window and,
/// where `user` is true, those of the virtio page and of an image that
/// ends at the user address `user_end`.
pub open spec fn table_set(map: MemoryMap, user: bool, user_end: int) -> Set<int> {
    Set::new(
        |i: int|
            0 <= i < 1024 && (touches(map.kernel_base as int, map.free_ram_end as int, i) || (user
                && (i == 64 || touches(USER_BASE as int, user_end, i)))),
    )
}

/// Counts the second-level tables of an address space.
fn count_tables(map: &MemoryMap, user: bool, user_end: u64) -> (n: usize)
    ensures
        n == table_set(*map, user, user_end as int).len(),
        n <= 1024,
{
    let ghost all = table_set(*map, user, user_end as int);
    let mut n: usize = 0;
    let mut i: u64 = 0;
    let ghost mut part: Set<int> = Set::empty();
    while i < 1024
        invariant
            i <= 1024,
            n <= i,
            part.finite(),
            n == part.len(),
            part =~= Set::new(|j: int| 0 <= j < i && all.contains(j)),
            all == table_set(*map, user, user_end as int),
        decreases 1024 - i,
    {
        if needs_table(map, user, user_end, i) {
            proof {
                part = part.insert(i as int);
            }
            n += 1;
        }
        i += 1;
    }
    assert(part =~= all);
    n
}

/// Number of pages that `init` takes from the allocator.
pub fn init_pages(map: &MemoryMap) -> (n: usize)
    ensures
        n == pages_for_init(*map),
{
    let n = count_tables(map, false, 0);
    assert(kernel_tables(*map) =~= table_set(*map, false, 0));
    1 + n
}

/// Number of pages that `create` takes from the allocator for an image of
/// `len` bytes.
pub fn create_pages(map: &MemoryMap, len: usize) -> (n: usize)
    requires
        len <= 0xFF00_0000,
    ensures
        n == pages_for_create(*map, len as int),
{
    let pages: u64 = (len as u64 + 4095) / 4096;
    let end: u64 = USER_BASE as u64 + pages * 4096;
    let n = count_tables(map, true, end);
    assert(process_tables(*map, len as int) =~= table_set(*map, true, end as int));
    1 + n + pages as usize
}

/// A byte that was packed into a word is found there.
pub proof fn lemma_word_le_bytes(b0: u8, b1: u8, b2: u8, b3: u8)
    ensures
        byte_of(word_le(b0, b1, b2, b3), 0) == b0,
        byte_of(word_le(b0, b1, b2, b3), 1) == b1,
        byte_of(word_le(b0, b1, b2, b3), 2) == b2,
        byte_of(word_le(b0, b1, b2, b3), 3) == b3,
{
    let x0 = b0 as u32;
    let x1 = b1 as u32;
    let x2 = b2 as u32;
    let x3 = b3 as u32;
    assert(x0 < 256 && x1 < 256 && x2 < 256 && x3 < 256 ==> {
        &&& (x0 | x1 << 8 | x2 << 16 | x3 << 24) & 0xff == x0
        &&& ((x0 | x1 << 8 | x2 << 16 | x3 << 24) >> 8) & 0xff == x1
        &&& ((x0 | x1 << 8 | x2 << 16 | x3 << 24) >> 16) & 0xff == x2
        &&& ((x0 | x1 << 8 | x2 << 16 | x3 << 24) >> 24) & 0xff == x3
    }) by (bit_vector);
}

/// A process finds its image at `USER_BASE`: in the address space of a
/// process, byte `i` of the image is the byte at the user address
/// `USER_BASE + i`.
pub proof fn lemma_image_visible(mem: PhysMemory, root: PAddr, image: Seq<u8>, lo: int, i: int)
    requires
        mem.wf(),
        process_space(mem, root, image, lo),
        0 <= i < image.len() <= 0xFF00_0000,
    ensures
        mem.virt_byte(root, (USER_BASE + i) as u32) == Some(image[i]),
{
    let v = (USER_BASE + i) as u32;
    let k = i / 4096;
    let off = i % 4096;
    let j = off / 4;
    let m = off % 4;
    assert(i == 4096 * k + off);
    assert(off == 4 * j + m);
    lemma_fundamental_div_mod_converse(v as int, 4096, 4096 + k, off);
    lemma_fundamental_div_mod_converse(v - USER_BASE, 4096, k, off);
    assert(USER_BASE <= v < USER_BASE + image_pages(image.len() as int) * 4096);
    assert(user_page_ok(mem, root, image, v, lo));
    let frame = user_frame(mem, root, v);
    lemma_user_leaf(frame as u32);
    lemma_page_index(mem, frame);
    let addr = frame + off;
    assert(mem.spec_translate(root, v) == Some(addr));
    lemma_byte_addr(mem.map.free_ram as int, frame, j, m);
    let at = k * 4096 + 4 * j;
    assert(mem.phys_byte(addr) == byte_of(mem.page(frame)[j], m));
    assert(mem.page(frame)[j] == image_word(image, at));
    lemma_word_le_bytes(
        image_byte(image, at),
        image_byte(image, at + 1),
        image_byte(image, at + 2),
        image_byte(image, at + 3),
    );
    assert(at + m == i);
}

/// The image of a process lies in plain memory: every range of user
/// addresses within the image is mapped to pages that are no page tables,
/// different pages to different ones.
pub proof fn lemma_image_plain(
    mem: PhysMemory,
    root: PAddr,
    image: Seq<u8>,
    lo: int,
    vaddr: int,
    n: int,
)
    requires
        mem.wf(),
        process_space(mem, root, image, lo),
        image.len() <= 0xFF00_0000,
        0 <= n,
        USER_BASE <= vaddr,
        vaddr + n <= user_end(image.len() as int),
    ensures
        mem.plain_range(root, vaddr, n),
        mem.phys_addrs(root, vaddr, n).is_some(),
{
    assert forall|i: int| 0 <= i < n implies {
        let w = #[trigger] mem.spec_walk(root, (vaddr + i) as u32);
        &&& w.is_some()
        &&& mem.is_page(pte_addr(w.unwrap()))
        &&& !mem.is_table(root, pte_addr(w.unwrap()))
    } by {
        assert(user_page_ok(mem, root, image, (vaddr + i) as u32, lo));
    }
    assert forall|i: int, j: int|
        0 <= i < n && 0 <= j < n && (vaddr + i) / 4096 != (vaddr + j) / 4096 implies pte_addr(
        (#[trigger] mem.spec_walk(root, (vaddr + i) as u32)).unwrap(),
    ) != pte_addr((#[trigger] mem.spec_walk(root, (vaddr + j) as u32)).unwrap()) by {
        let vi = (vaddr + i) as u32;
        let vj = (vaddr + j) as u32;
        assert(user_frame(mem, root, vi) != user_frame(mem, root, vj));
    }
    assert forall|i: int| 0 <= i < n implies (#[trigger] mem.spec_translate(
        root,
        (vaddr + i) as u32,
    )).is_some() by {
        assert(mem.spec_walk(root, (vaddr + i) as u32).is_some());
    }
}

} // verus!
