//! The kernel's virtual address space: a cursor that hands out addresses upward from
//! `KERNEL_VIRT_AREA_START`, and the decisions of kernel page and heap allocation.
//! Installing a mapping in the page tables is the caller's part.

use vstd::prelude::*;
use super::phys::{alloc_outcome, alloc_page, PhysMemoryManager, PAGE_SIZE};

verus! {

/// Where the kernel's virtual address area starts.
pub const KERNEL_VIRT_AREA_START: u64 = 0xffff_8880_0000_0000;

/// `a + b` as a 64-bit register computes it: wrapping around at 2^64.
pub open spec fn add_wrapping(a: u64, b: u64) -> u64 {
    ((a + b) % 0x1_0000_0000_0000_0000int) as u64
}

/// The next free address of the kernel's virtual address area.
pub struct KernelVirtCursor {
    next: u64,
}

impl KernelVirtCursor {
    /// The address the next reservation starts at.
    pub closed spec fn next_addr(self) -> u64 {
        self.next
    }

    /// A cursor at the start of the kernel's virtual address area.
    pub fn new() -> (r: Self)
        ensures
            r.next_addr() == KERNEL_VIRT_AREA_START,
    {
        KernelVirtCursor { next: KERNEL_VIRT_AREA_START }
    }

    /// Reserves `size` bytes: returns the current address and moves the cursor up by
    /// `size`, wrapping around at 2^64 as an atomic fetch-and-add does.
    pub fn reserve(&mut self, size: u64) -> (start: u64)
        ensures
            start == old(self).next_addr(),
            final(self).next_addr() == add_wrapping(old(self).next_addr(), size),
    {
        let start = self.next;
        self.next = self.next.wrapping_add(size);
        start
    }
}

/// Reserves one page of kernel virtual address space and takes a physical page for it.
/// The cursor moves on whether or not a physical page is left; the result is the pair
/// (virtual, physical) that the caller maps, or `None` when no physical page is free.
pub fn alloc_kernel_page(
    cursor: &mut KernelVirtCursor,
    manager: &mut Option<PhysMemoryManager>,
) -> (r: Option<(u64, u64)>)
    ensures
        final(cursor).next_addr() == add_wrapping(old(cursor).next_addr(), PAGE_SIZE as u64),
        match *old(manager) {
            None => r is None && *final(manager) is None,
            Some(m) => *final(manager) matches Some(m2) && m2.min_addr() == m.min_addr() && ({
                let phys = match r {
                    Some(pair) => Some(pair.1),
                    None => None,
                };
                alloc_outcome(m.pages(), m.min_addr(), m2.pages(), phys)
            }) && (r matches Some(pair) ==> pair.0 == old(cursor).next_addr()),
        },
{
    let virt = cursor.reserve(PAGE_SIZE as u64);
    match alloc_page(manager) {
        Some(phys) => Some((virt, phys)),
        None => None,
    }
}

/// The offset of the heap page after the one at `offset`: a page further on, or the
/// heap's end when that is nearer.
pub open spec fn advance_offset(size: u64, offset: u64) -> int {
    if size - offset > PAGE_SIZE {
        offset + PAGE_SIZE
    } else {
        size as int
    }
}

/// The offset of the next heap page after `k` pages are mapped.
pub open spec fn heap_offset(size: u64, k: nat) -> int {
    if k * PAGE_SIZE < size {
        k * PAGE_SIZE
    } else {
        size as int
    }
}

/// What the caller of `KernelHeapMapping::next_step` does next.
#[derive(Clone, Copy, Debug, PartialEq, Eq)]
pub enum HeapStep {
    /// Map the page at `virt` to the physical page `phys`.
    MapPage { virt: u64, phys: u64 },
    /// Every page of the heap is mapped; the heap starts at `start`.
    Done { start: u64 },
    /// No physical page was left for the next heap page.
    OutOfMemory,
}

/// The mapping of a kernel heap of `size` bytes at `start`, one page at a time:
/// pages at offsets `0, PAGE_SIZE, 2 * PAGE_SIZE, ...` below `size`.
pub struct KernelHeapMapping {
    start: u64,
    size: u64,
    offset: u64,
}

impl KernelHeapMapping {
    #[verifier::type_invariant]
    spec fn offset_in_range(self) -> bool {
        self.offset <= self.size
    }

    pub closed spec fn start_addr(self) -> u64 {
        self.start
    }

    pub closed spec fn size_bytes(self) -> u64 {
        self.size
    }

    /// The offset of the next page to map; equal to `size` once all are mapped.
    pub closed spec fn next_offset(self) -> u64 {
        self.offset
    }

    /// Where the heap starts.
    pub fn start(&self) -> (r: u64)
        ensures
            r == self.start_addr(),
    {
        self.start
    }

    /// The heap's size in bytes.
    pub fn size(&self) -> (r: u64)
        ensures
            r == self.size_bytes(),
    {
        self.size
    }

    /// The offset of the next page to map.
    pub fn offset(&self) -> (r: u64)
        ensures
            r == self.next_offset(),
    {
        self.offset
    }

    /// Reserves `size` bytes of kernel virtual address space for a heap.
    pub fn begin(cursor: &mut KernelVirtCursor, size: u64) -> (r: Self)
        ensures
            r.start_addr() == old(cursor).next_addr(),
            r.size_bytes() == size,
            r.next_offset() == 0,
            final(cursor).next_addr() == add_wrapping(old(cursor).next_addr(), size),
    {
        let start = cursor.reserve(size);
        KernelHeapMapping { start, size, offset: 0 }
    }

    /// The next step: `Done` once every page is mapped; otherwise a physical page is
    /// taken for the page at `start + offset` and the offset moves to the next page, or
    /// `OutOfMemory` when none is left.
    pub fn next_step(&mut self, manager: &mut Option<PhysMemoryManager>) -> (step: HeapStep)
        requires
            old(self).next_offset() < old(self).size_bytes() ==> old(self).start_addr() + old(self).next_offset()
                <= u64::MAX,
        ensures
            final(self).start_addr() == old(self).start_addr(),
            final(self).size_bytes() == old(self).size_bytes(),
            old(self).next_offset() >= old(self).size_bytes() ==> step == (HeapStep::Done {
                start: old(self).start_addr(),
            }) && *final(manager) == *old(manager) && final(self).next_offset() == old(self).next_offset(),
            old(self).next_offset() < old(self).size_bytes() ==> match *old(manager) {
                None => step == HeapStep::OutOfMemory && *final(manager) is None
                    && final(self).next_offset() == old(self).next_offset(),
                Some(m) => *final(manager) matches Some(m2) && m2.min_addr() == m.min_addr() && ({
                    let phys = match step {
                        HeapStep::MapPage { virt: _, phys } => Some(phys),
                        _ => None,
                    };
                    &&& step is MapPage || step is OutOfMemory
                    &&& alloc_outcome(m.pages(), m.min_addr(), m2.pages(), phys)
                    &&& step matches HeapStep::MapPage { virt, phys: _ } ==> virt == old(self).start_addr()
                        + old(self).next_offset() && final(self).next_offset() == advance_offset(
                        old(self).size_bytes(),
                        old(self).next_offset(),
                    )
                    &&& step is OutOfMemory ==> final(self).next_offset() == old(self).next_offset()
                }),
            },
    {
        proof {
            use_type_invariant(&*self);
        }
        if self.offset >= self.size {
            return HeapStep::Done { start: self.start };
        }
        let virt = self.start + self.offset;
        match alloc_page(manager) {
            Some(phys) => {
                let ps = PAGE_SIZE as u64;
                if self.size - self.offset > ps {
                    self.offset = self.offset + ps;
                } else {
                    self.offset = self.size;
                }
                HeapStep::MapPage { virt, phys }
            },
            None => HeapStep::OutOfMemory,
        }
    }
}

} // verus!

verus! {

/// Two reservations in a row from one cursor are adjacent: the second starts where the
/// first ends, and so the two never overlap unless the address space wraps around.
pub proof fn lemma_reservations_adjacent(c0: u64, a: u64, c1: u64, b: u64, c2: u64)
    requires
        c1 == add_wrapping(c0, a),
        c2 == add_wrapping(c1, b),
        c0 + a + b <= u64::MAX,
    ensures
        c1 == c0 + a,
        c2 == c1 + b,
{
}

} // verus!

verus! {

/// Mapping a heap of `size` bytes page by page visits the offsets `k * PAGE_SIZE` for
/// every `k` below the number of pages the heap spans, in order, and then ends: the
/// offset after the `k`-th page is the next such offset, and after the last page it is
/// the heap's end.
pub proof fn lemma_heap_maps_every_page(size: u64, k: nat)
    ensures
        heap_offset(size, 0) == 0,
        heap_offset(size, k) < size ==> advance_offset(size, heap_offset(size, k) as u64)
            == heap_offset(size, k + 1),
        heap_offset(size, k) < size <==> k < (size + PAGE_SIZE - 1) / (PAGE_SIZE as int),
        heap_offset(size, ((size + PAGE_SIZE - 1) / (PAGE_SIZE as int)) as nat) == size,
{
    let p = PAGE_SIZE as int;
    let n = (size + p - 1) / p;
    assert(k * p < size <==> k < n) by (nonlinear_arith)
        requires
            p == 4096,
            n == (size + p - 1) / p,
            size >= 0,
            k >= 0,
    ;
    assert(n * p >= size) by (nonlinear_arith)
        requires
            p == 4096,
            n == (size + p - 1) / p,
            size >= 0,
    ;
    assert((k + 1) * p == k * p + p) by (nonlinear_arith);
}

} // verus!

verus! {

/// The bytes that the first `k` reservations of `sizes` take together.
pub open spec fn reserved_before(sizes: Seq<u64>, k: int) -> int
    decreases k,
{
    if k <= 0 {
        0
    } else {
        reserved_before(sizes, k - 1) + sizes[k - 1]
    }
}

proof fn lemma_reserved_before_monotone(sizes: Seq<u64>, j: int, k: int)
    requires
        0 <= j <= k <= sizes.len(),
    ensures
        reserved_before(sizes, j) <= reserved_before(sizes, k),
        j < k ==> reserved_before(sizes, j) + sizes[j] <= reserved_before(sizes, k),
    decreases k - j,
{
    if j < k {
        lemma_reserved_before_monotone(sizes, j, k - 1);
        if j < k - 1 {
            lemma_reserved_before_monotone(sizes, j + 1, k);
        }
    }
}

/// Over any history of reservations from one cursor that does not run past the end of
/// the address space: the `k`-th reservation starts where all before it end, any two
/// reservations are disjoint, and when the cursor starts on a page and every size is a
/// whole number of pages, every reservation starts on a page.
pub proof fn lemma_reservation_history(cursors: Seq<u64>, sizes: Seq<u64>)
    requires
        cursors.len() == sizes.len() + 1,
        forall|k: int| 0 <= k < sizes.len() ==> #[trigger] cursors[k + 1] == add_wrapping(cursors[k], sizes[k]),
        cursors[0] + reserved_before(sizes, sizes.len() as int) <= u64::MAX,
    ensures
        forall|k: int| 0 <= k <= sizes.len() ==> #[trigger] cursors[k] == cursors[0] + reserved_before(sizes, k),
        forall|j: int, k: int|
            0 <= j < k < sizes.len() ==> #[trigger] cursors[j] + sizes[j] <= #[trigger] cursors[k],
        (cursors[0] as int) % (PAGE_SIZE as int) == 0 && (forall|k: int|
            0 <= k < sizes.len() ==> (#[trigger] sizes[k] as int) % (PAGE_SIZE as int) == 0)
            ==> forall|k: int| 0 <= k <= sizes.len() ==> (#[trigger] cursors[k] as int) % (PAGE_SIZE as int) == 0,
{
    let n = sizes.len() as int;
    assert forall|k: int| 0 <= k <= n implies #[trigger] cursors[k] == cursors[0] + reserved_before(sizes, k) by {
        lemma_reservation_prefix(cursors, sizes, k);
    }
    assert forall|j: int, k: int| 0 <= j < k < n implies #[trigger] cursors[j] + sizes[j] <= #[trigger] cursors[k] by {
        lemma_reservation_prefix(cursors, sizes, j);
        lemma_reservation_prefix(cursors, sizes, k);
        lemma_reserved_before_monotone(sizes, j, k);
    }
    if (cursors[0] as int) % (PAGE_SIZE as int) == 0 && (forall|k: int|
        0 <= k < n ==> (#[trigger] sizes[k] as int) % (PAGE_SIZE as int) == 0) {
        assert forall|k: int| 0 <= k <= n implies (#[trigger] cursors[k] as int) % (PAGE_SIZE as int) == 0 by {
            lemma_reservation_prefix(cursors, sizes, k);
            lemma_reserved_aligned(sizes, k);
            vstd::arithmetic::div_mod::lemma_add_mod_noop(cursors[0] as int, reserved_before(sizes, k), 4096);
        }
    }
}

proof fn lemma_reserved_aligned(sizes: Seq<u64>, k: int)
    requires
        0 <= k <= sizes.len(),
        forall|j: int| 0 <= j < sizes.len() ==> (#[trigger] sizes[j] as int) % (PAGE_SIZE as int) == 0,
    ensures
        reserved_before(sizes, k) % (PAGE_SIZE as int) == 0,
    decreases k,
{
    if k > 0 {
        lemma_reserved_aligned(sizes, k - 1);
        vstd::arithmetic::div_mod::lemma_add_mod_noop(reserved_before(sizes, k - 1), sizes[k - 1] as int, 4096);
    }
}

proof fn lemma_reservation_prefix(cursors: Seq<u64>, sizes: Seq<u64>, k: int)
    requires
        cursors.len() == sizes.len() + 1,
        forall|j: int| 0 <= j < sizes.len() ==> #[trigger] cursors[j + 1] == add_wrapping(cursors[j], sizes[j]),
        cursors[0] + reserved_before(sizes, sizes.len() as int) <= u64::MAX,
        0 <= k <= sizes.len(),
    ensures
        cursors[k] == cursors[0] + reserved_before(sizes, k),
    decreases k,
{
    if k > 0 {
        lemma_reservation_prefix(cursors, sizes, k - 1);
        lemma_reserved_before_monotone(sizes, k, sizes.len() as int);
        let j = k - 1;
        assert(cursors[j + 1] == add_wrapping(cursors[j], sizes[j]));
        assert(j + 1 == k);
    }
}

/// The pages that mapping a heap visits are distinct: each is a whole page past the one
/// before.
pub proof fn lemma_heap_pages_distinct(size: u64, j: nat, k: nat)
    requires
        j < k,
        heap_offset(size, k) < size,
    ensures
        heap_offset(size, j) + PAGE_SIZE <= heap_offset(size, k),
{
    assert(j * 4096 + 4096 <= k * 4096) by (nonlinear_arith)
        requires
            j < k,
    ;
}

} // verus!
