//! The physical page allocator: one bit per 4 KiB page, set when the page is in use.

use vstd::prelude::*;
use super::bits::{bit_is_set, lemma_bit_clear_and, lemma_bit_set_or, lemma_bit_test, lemma_full_byte};

verus! {

/// The size of a physical page, in bytes.
pub const PAGE_SIZE: usize = 4096;

/// Whether page `i` is marked used in the bitmap `bits`.
pub open spec fn page_used(bits: Seq<u8>, i: int) -> bool {
    bit_is_set(bits[i / 8], i % 8)
}

/// The state of every page that a bitmap covers: `true` for a used page.
pub open spec fn pages_of(bits: Seq<u8>) -> Seq<bool> {
    Seq::new(8 * bits.len(), |i: int| page_used(bits, i))
}

/// Page `i` is free and every page below it is used.
pub open spec fn is_lowest_free(pages: Seq<bool>, i: int) -> bool {
    &&& 0 <= i < pages.len()
    &&& !pages[i]
    &&& forall|j: int| 0 <= j < i ==> pages[j]
}

/// What `alloc_page` does: it takes the lowest free page and returns its address,
/// or returns `None` and changes nothing when every page is used.
pub open spec fn alloc_outcome(before: Seq<bool>, min_addr: u64, after: Seq<bool>, r: Option<u64>) -> bool {
    match r {
        Some(phys) => exists|i: int|
            #![trigger is_lowest_free(before, i)]
            is_lowest_free(before, i) && phys == min_addr + i * PAGE_SIZE && after == before.update(i, true),
        None => (forall|i: int| 0 <= i < before.len() ==> before[i]) && after == before,
    }
}

/// The index of the page that holds physical address `phys`.
pub open spec fn page_index(min_addr: u64, phys: u64) -> int {
    (phys - min_addr) / (PAGE_SIZE as int)
}

/// What `free_page` does: it marks the page that holds `phys` free.
pub open spec fn free_outcome(before: Seq<bool>, min_addr: u64, after: Seq<bool>, phys: u64) -> bool {
    after == before.update(page_index(min_addr, phys), false)
}

/// `free_page` accepts `phys`: it lies in the range that the bitmap covers.
pub open spec fn can_free(pages: Seq<bool>, min_addr: u64, phys: u64) -> bool {
    min_addr <= phys && page_index(min_addr, phys) < pages.len()
}

proof fn lemma_pages_after_set(bits: Seq<u8>, k: int, b: u8)
    requires
        0 <= k < bits.len(),
        b < 8,
    ensures
        pages_of(bits.update(k, bits[k] | (1u8 << b))) == pages_of(bits).update(8 * k + b, true),
{
    let nbits = bits.update(k, bits[k] | (1u8 << b));
    assert forall|i: int| 0 <= i < 8 * bits.len() implies #[trigger] page_used(nbits, i) == (
    if i == 8 * k + b {
        true
    } else {
        page_used(bits, i)
    }) by {
        let c = (i % 8) as u8;
        lemma_bit_set_or(bits[k], b, c);
    }
    assert(pages_of(nbits) =~= pages_of(bits).update(8 * k + b, true));
}

proof fn lemma_pages_after_clear(bits: Seq<u8>, k: int, b: u8)
    requires
        0 <= k < bits.len(),
        b < 8,
    ensures
        pages_of(bits.update(k, bits[k] & !(1u8 << b))) == pages_of(bits).update(8 * k + b, false),
{
    let nbits = bits.update(k, bits[k] & !(1u8 << b));
    assert forall|i: int| 0 <= i < 8 * bits.len() implies #[trigger] page_used(nbits, i) == (
    if i == 8 * k + b {
        false
    } else {
        page_used(bits, i)
    }) by {
        let c = (i % 8) as u8;
        lemma_bit_clear_and(bits[k], b, c);
    }
    assert(pages_of(nbits) =~= pages_of(bits).update(8 * k + b, false));
}

/// The physical memory manager: a bitmap with one bit per page, page `i` starting
/// at `min_addr + i * PAGE_SIZE`.
pub struct PhysMemoryManager {
    bitmap: &'static mut [u8],
    min_addr: u64,
}

impl PhysMemoryManager {
    /// Every free page has an address that fits in a `u64`.
    #[verifier::type_invariant]
    spec fn addressable(self) -> bool {
        forall|i: int|
            0 <= i < pages_of(self.bitmap@).len() && !#[trigger] pages_of(self.bitmap@)[i]
                ==> self.min_addr + i * PAGE_SIZE <= u64::MAX
    }

    /// The state of every page the bitmap covers (`true`: used).
    pub closed spec fn pages(self) -> Seq<bool> {
        pages_of(self.bitmap@)
    }

    /// The address of page 0.
    pub closed spec fn min_addr(self) -> u64 {
        self.min_addr
    }

    /// Builds a manager over `bitmap`; every free page must have an address that fits in a `u64`.
    pub(crate) fn from_parts(bitmap: &'static mut [u8], min_addr: u64) -> (r: Self)
        requires
            forall|i: int|
                0 <= i < pages_of(old(bitmap)@).len() && !#[trigger] pages_of(old(bitmap)@)[i]
                    ==> min_addr + i * PAGE_SIZE <= u64::MAX,
        ensures
            r.pages() == pages_of(old(bitmap)@),
            r.min_addr() == min_addr,
    {
        PhysMemoryManager { bitmap, min_addr }
    }

    fn page_idx(&self, phys: u64) -> (idx: u64)
        requires
            phys >= self.min_addr(),
        ensures
            idx == page_index(self.min_addr(), phys),
    {
        (phys - self.min_addr) / PAGE_SIZE as u64
    }

    /// Whether `free_page` accepts `phys`: it lies in the range the bitmap covers.
    pub fn covers(&self, phys: u64) -> (r: bool)
        ensures
            r == can_free(self.pages(), self.min_addr(), phys),
    {
        if phys < self.min_addr {
            return false;
        }
        let idx = self.page_idx(phys);
        let n = self.bitmap.len();
        idx / 8 < n as u64
    }

    /// Takes the lowest free page, marks it used and returns its physical address;
    /// `None` when every page is in use.
    pub fn alloc_page(&mut self) -> (r: Option<u64>)
        ensures
            final(self).min_addr() == old(self).min_addr(),
            alloc_outcome(old(self).pages(), old(self).min_addr(), final(self).pages(), r),
    {
        proof {
            use_type_invariant(&*self);
        }
        let n = self.bitmap.len();
        let mut byte_idx: usize = 0;
        while byte_idx < n
            invariant
                n == self.bitmap@.len(),
                self.bitmap@ == old(self).bitmap@,
                self.min_addr == old(self).min_addr,
                byte_idx <= n,
                forall|j: int| 0 <= j < 8 * byte_idx ==> #[trigger] page_used(self.bitmap@, j),
                forall|i: int|
                    0 <= i < pages_of(self.bitmap@).len() && !#[trigger] pages_of(self.bitmap@)[i]
                        ==> self.min_addr + i * PAGE_SIZE <= u64::MAX,
            decreases n - byte_idx,
        {
            let byte = self.bitmap[byte_idx];
            let mut bit: u8 = 0;
            while bit < 8
                invariant
                    n == self.bitmap@.len(),
                    self.bitmap@ == old(self).bitmap@,
                    self.min_addr == old(self).min_addr,
                    byte_idx < n,
                    byte == self.bitmap@[byte_idx as int],
                    bit <= 8,
                    forall|j: int| 0 <= j < 8 * byte_idx ==> #[trigger] page_used(self.bitmap@, j),
                    forall|c: int| 0 <= c < bit ==> #[trigger] bit_is_set(byte, c),
                    forall|i: int|
                        0 <= i < pages_of(self.bitmap@).len() && !#[trigger] pages_of(self.bitmap@)[i]
                            ==> self.min_addr + i * PAGE_SIZE <= u64::MAX,
                decreases 8 - bit,
            {
                proof {
                    lemma_bit_test(byte, bit);
                }
                if byte != 0xff && (byte >> bit) & 1 == 0 {
                    let ghost before = self.bitmap@;
                    let ghost i = 8 * byte_idx + bit;
                    proof {
                        assert(i / 8 == byte_idx && i % 8 == bit);
                        assert(!pages_of(before)[i]);
                        assert forall|j: int| 0 <= j < i implies pages_of(before)[j] by {
                            if j < 8 * byte_idx {
                                assert(page_used(before, j));
                            } else {
                                assert(j / 8 == byte_idx && j % 8 < bit);
                                assert(bit_is_set(byte, j % 8));
                            }
                        }
                        lemma_pages_after_set(before, byte_idx as int, bit);
                    }
                    self.bitmap[byte_idx] = byte | (1u8 << bit);
                    let page_idx = byte_idx as u64 * 8 + bit as u64;
                    let phys = self.min_addr + page_idx * PAGE_SIZE as u64;
                    proof {
                        assert(is_lowest_free(pages_of(before), i));
                    }
                    return Some(phys);
                }
                proof {
                    if byte == 0xff {
                        lemma_full_byte(bit);
                    }
                }
                bit = bit + 1;
            }
            proof {
                assert forall|j: int| 0 <= j < 8 * (byte_idx + 1) implies #[trigger] page_used(
                    self.bitmap@,
                    j,
                ) by {
                    if j >= 8 * byte_idx {
                        assert(j / 8 == byte_idx);
                        assert(bit_is_set(byte, j % 8));
                    }
                }
            }
            byte_idx = byte_idx + 1;
        }
        proof {
            assert forall|i: int| 0 <= i < old(self).pages().len() implies old(self).pages()[i] by {
                assert(page_used(self.bitmap@, i));
            }
        }
        None
    }

    /// Marks the page that holds `phys` free.
    pub fn free_page(&mut self, phys: u64)
        requires
            can_free(old(self).pages(), old(self).min_addr(), phys),
        ensures
            final(self).min_addr() == old(self).min_addr(),
            free_outcome(old(self).pages(), old(self).min_addr(), final(self).pages(), phys),
    {
        proof {
            use_type_invariant(&*self);
        }
        let idx = self.page_idx(phys);
        let n = self.bitmap.len();
        assert(idx / 8 < n);
        let byte_idx = (idx / 8) as usize;
        let bit_idx = (idx % 8) as u8;
        proof {
            lemma_pages_after_clear(self.bitmap@, byte_idx as int, bit_idx);
            assert(8 * byte_idx + bit_idx == idx);
        }
        self.bitmap[byte_idx] &= !(1u8 << bit_idx);
    }
}

/// Takes a page from the manager, if there is one.
pub fn alloc_page(manager: &mut Option<PhysMemoryManager>) -> (r: Option<u64>)
    ensures
        match *old(manager) {
            None => r is None && *final(manager) is None,
            Some(m) => *final(manager) matches Some(m2) && m2.min_addr() == m.min_addr()
                && alloc_outcome(m.pages(), m.min_addr(), m2.pages(), r),
        },
{
    match manager {
        Some(a) => a.alloc_page(),
        None => None,
    }
}

/// Returns the page that holds `phys` to the manager, if there is one.
pub fn free_page(manager: &mut Option<PhysMemoryManager>, phys: u64)
    requires
        *old(manager) matches Some(m) ==> can_free(m.pages(), m.min_addr(), phys),
    ensures
        match *old(manager) {
            None => *final(manager) is None,
            Some(m) => *final(manager) matches Some(m2) && m2.min_addr() == m.min_addr()
                && free_outcome(m.pages(), m.min_addr(), m2.pages(), phys),
        },
{
    if let Some(a) = manager {
        a.free_page(phys);
    }
}

} // verus!

verus! {

/// The memory map entry type of memory that is free for the kernel to use.
pub const MEMMAP_USABLE: u64 = 0;

/// One entry of the bootloader's memory map.
#[derive(Clone, Copy, Debug, PartialEq, Eq)]
pub struct MemmapEntry {
    pub base: u64,
    pub length: u64,
    pub type_: u64,
}

/// Why a memory map cannot be turned into a page bitmap.
#[derive(Clone, Copy, Debug, PartialEq, Eq)]
pub enum MemmapError {
    /// An entry's end, or the highest end rounded up to a page, does not fit in a `u64`.
    AddressOverflow,
    /// The memory map has no entries.
    EmptyMemoryMap,
    /// No usable entry is large enough to hold the bitmap.
    NoBitmapRegion,
}

/// Where the page bitmap goes and which addresses it covers.
#[derive(Clone, Copy, Debug, PartialEq, Eq)]
pub struct BitmapLayout {
    /// The lowest base address of the memory map, rounded down to a page.
    pub min_addr: u64,
    /// The highest end address of the memory map, rounded up to a page.
    pub max_addr: u64,
    /// The bitmap's size in bytes: one bit per page from `min_addr` to `max_addr`.
    pub bitmap_bytes: u64,
    /// The base of the first usable entry that is large enough to hold the bitmap.
    pub bitmap_base: u64,
}

/// The lowest base address of the entries (`u64::MAX` when there are none).
pub open spec fn lowest_base(entries: Seq<MemmapEntry>) -> u64
    decreases entries.len(),
{
    if entries.len() == 0 {
        u64::MAX
    } else {
        let rest = lowest_base(entries.drop_last());
        if entries.last().base < rest {
            entries.last().base
        } else {
            rest
        }
    }
}

/// The highest end address of the entries (0 when there are none).
pub open spec fn highest_end(entries: Seq<MemmapEntry>) -> int
    decreases entries.len(),
{
    if entries.len() == 0 {
        0
    } else {
        let rest = highest_end(entries.drop_last());
        let end = entries.last().base + entries.last().length;
        if end > rest {
            end
        } else {
            rest
        }
    }
}

/// Every entry's end address fits in a `u64`.
pub open spec fn ends_fit(entries: Seq<MemmapEntry>) -> bool {
    forall|k: int| 0 <= k < entries.len() ==> #[trigger] entries[k].base + entries[k].length <= u64::MAX
}

/// The entries' addresses, their highest end rounded up to a page included, fit in a `u64`.
pub open spec fn addresses_fit(entries: Seq<MemmapEntry>) -> bool {
    ends_fit(entries) && highest_end(entries) + PAGE_SIZE - 1 <= u64::MAX
}

pub open spec fn align_down(x: int) -> int {
    x / (PAGE_SIZE as int) * (PAGE_SIZE as int)
}

pub open spec fn align_up(x: int) -> int {
    (x + PAGE_SIZE - 1) / (PAGE_SIZE as int) * (PAGE_SIZE as int)
}

/// The number of pages that a run of `length` bytes starting on a page boundary spans.
pub open spec fn pages_spanned(length: int) -> int {
    (length + PAGE_SIZE - 1) / (PAGE_SIZE as int)
}

/// The bitmap size, in bytes, for the memory from `min_addr` to `max_addr`.
pub open spec fn bitmap_bytes_for(min_addr: int, max_addr: int) -> int {
    ((max_addr - min_addr) / (PAGE_SIZE as int) + 7) / 8
}

/// Entry `e` is usable memory of at least `bytes` bytes.
pub open spec fn holds_bitmap(e: MemmapEntry, bytes: int) -> bool {
    e.type_ == MEMMAP_USABLE && e.length >= bytes
}

/// Entry `k` is the first that can hold a bitmap of `bytes` bytes.
pub open spec fn is_first_fit(entries: Seq<MemmapEntry>, bytes: int, k: int) -> bool {
    &&& 0 <= k < entries.len()
    &&& holds_bitmap(entries[k], bytes)
    &&& forall|j: int| 0 <= j < k ==> !holds_bitmap(#[trigger] entries[j], bytes)
}

/// `l` is the bitmap layout of `entries`.
pub open spec fn layout_of(entries: Seq<MemmapEntry>, l: BitmapLayout) -> bool {
    &&& addresses_fit(entries)
    &&& entries.len() > 0
    &&& l.min_addr == align_down(lowest_base(entries) as int)
    &&& l.max_addr == align_up(highest_end(entries))
    &&& l.bitmap_bytes == bitmap_bytes_for(l.min_addr as int, l.max_addr as int)
    &&& exists|k: int|
        #![trigger is_first_fit(entries, l.bitmap_bytes as int, k)]
        is_first_fit(entries, l.bitmap_bytes as int, k) && entries[k].base == l.bitmap_base
}

/// Page `i` lies in a usable entry among the first `upto` entries: the pages that
/// an entry spans run from the page of its base for as many pages as its length needs.
pub open spec fn usable_among(entries: Seq<MemmapEntry>, min_addr: u64, upto: int, i: int) -> bool {
    exists|k: int|
        #![trigger entries[k]]
        0 <= k < upto && entries[k].type_ == MEMMAP_USABLE && page_index(min_addr, entries[k].base) <= i
            < page_index(min_addr, entries[k].base) + pages_spanned(entries[k].length as int)
}

/// Page `i` lies in a usable entry of the memory map.
pub open spec fn usable_page(entries: Seq<MemmapEntry>, min_addr: u64, i: int) -> bool {
    usable_among(entries, min_addr, entries.len() as int, i)
}

/// Page `i` holds part of the bitmap itself.
pub open spec fn bitmap_page(l: BitmapLayout, i: int) -> bool {
    page_index(l.min_addr, l.bitmap_base) <= i < page_index(l.min_addr, l.bitmap_base)
        + pages_spanned(l.bitmap_bytes as int)
}

proof fn lemma_extremes(entries: Seq<MemmapEntry>, k: int)
    requires
        0 <= k < entries.len(),
        ends_fit(entries),
    ensures
        lowest_base(entries) <= entries[k].base,
        entries[k].base + entries[k].length <= highest_end(entries),
    decreases entries.len(),
{
    if k < entries.len() - 1 {
        let rest = entries.drop_last();
        assert(rest[k] == entries[k]);
        assert(ends_fit(rest)) by {
            assert forall|j: int| 0 <= j < rest.len() implies #[trigger] rest[j].base + rest[j].length
                <= u64::MAX by {
                assert(rest[j] == entries[j]);
            }
        }
        lemma_extremes(rest, k);
    }
}

proof fn lemma_span_within(b: int, len: int, lo: int, hi: int)
    requires
        lo <= b,
        0 <= len,
        b + len <= hi,
        hi % (PAGE_SIZE as int) == 0,
        lo % (PAGE_SIZE as int) == 0,
    ensures
        (b - lo) / (PAGE_SIZE as int) + pages_spanned(len) <= (hi - lo) / (PAGE_SIZE as int),
{
    let p = PAGE_SIZE as int;
    let q = (b - lo) / p;
    let r = (b - lo) % p;
    assert(b - lo == q * p + r && 0 <= r < p);
    assert((hi - lo) % p == 0);
    let t = (hi - lo) / p;
    assert(hi - lo == t * p);
    let s = pages_spanned(len);
    assert(s * p <= len + p - 1 < (s + 1) * p);
    assert(q * p + r + len <= t * p);
    assert((q + s) * p <= t * p + p - 1) by (nonlinear_arith)
        requires
            q * p + r + len <= t * p,
            s * p <= len + p - 1,
            0 <= r,
            p == 4096,
    ;
    assert(q + s <= t) by (nonlinear_arith)
        requires
            (q + s) * p <= t * p + p - 1,
            p == 4096,
    ;
}

/// Works out where the page bitmap for `entries` goes: the covered range runs from the
/// lowest base rounded down to a page to the highest end rounded up, one bit per page,
/// and the bitmap is placed at the base of the first usable entry that can hold it.
pub fn bitmap_layout(entries: &[MemmapEntry]) -> (r: Result<BitmapLayout, MemmapError>)
    ensures
        (r == Err::<BitmapLayout, MemmapError>(MemmapError::AddressOverflow)) == !addresses_fit(
            entries@,
        ),
        (r == Err::<BitmapLayout, MemmapError>(MemmapError::EmptyMemoryMap)) == (addresses_fit(
            entries@,
        ) && entries@.len() == 0),
        r matches Ok(l) ==> layout_of(entries@, l),
        r matches Ok(l) ==> exists|k: int|
            0 <= k < entries@.len() && #[trigger] entries@[k].base == l.bitmap_base
                && entries@[k].type_ == MEMMAP_USABLE && entries@[k].length >= l.bitmap_bytes
                && forall|j: int|
                0 <= j < k ==> !(#[trigger] entries@[j].type_ == MEMMAP_USABLE && entries@[j].length
                    >= l.bitmap_bytes),
        (r == Err::<BitmapLayout, MemmapError>(MemmapError::NoBitmapRegion)) == (addresses_fit(
            entries@,
        ) && entries@.len() > 0 && forall|l: BitmapLayout| !layout_of(entries@, l)),
{
    let n = entries.len();
    let mut min_addr: u64 = u64::MAX;
    let mut max_addr: u64 = 0;
    let mut i: usize = 0;
    while i < n
        invariant
            n == entries@.len(),
            i <= n,
            min_addr == lowest_base(entries@.take(i as int)),
            max_addr == highest_end(entries@.take(i as int)),
            ends_fit(entries@.take(i as int)),
        decreases n - i,
    {
        let entry = entries[i];
        assert(entries@.take(i + 1).drop_last() =~= entries@.take(i as int));
        if entry.length > u64::MAX - entry.base {
            assert(!ends_fit(entries@)) by {
                assert(entries@[i as int] == entry);
            }
            return Err(MemmapError::AddressOverflow);
        }
        let start = entry.base;
        let end = entry.base + entry.length;
        if start < min_addr {
            min_addr = start;
        }
        if end > max_addr {
            max_addr = end;
        }
        proof {
            let t = entries@.take(i + 1);
            assert(t.last() == entry);
            assert forall|k: int| 0 <= k < t.len() implies #[trigger] t[k].base + t[k].length
                <= u64::MAX by {
                if k < i {
                    assert(t[k] == entries@.take(i as int)[k]);
                }
            }
        }
        i = i + 1;
    }
    assert(entries@.take(n as int) =~= entries@);
    let ps = PAGE_SIZE as u64;
    if max_addr > u64::MAX - (ps - 1) {
        return Err(MemmapError::AddressOverflow);
    }
    if n == 0 {
        return Err(MemmapError::EmptyMemoryMap);
    }
    proof {
        lemma_extremes(entries@, 0);
    }
    let min_al = (min_addr / ps) * ps;
    let max_al = (max_addr + (ps - 1)) / ps * ps;
    let total_pages = (max_al - min_al) / ps;
    let bitmap_bytes = (total_pages + 7) / 8;
    assert(addresses_fit(entries@));
    let mut k: usize = 0;
    while k < n
        invariant
            n == entries@.len(),
            n > 0,
            k <= n,
            addresses_fit(entries@),
            min_al == align_down(lowest_base(entries@) as int),
            max_al == align_up(highest_end(entries@)),
            bitmap_bytes == bitmap_bytes_for(min_al as int, max_al as int),
            forall|j: int| 0 <= j < k ==> !holds_bitmap(#[trigger] entries@[j], bitmap_bytes as int),
        decreases n - k,
    {
        let entry = entries[k];
        if entry.type_ == MEMMAP_USABLE && entry.length >= bitmap_bytes {
            let l = BitmapLayout {
                min_addr: min_al,
                max_addr: max_al,
                bitmap_bytes,
                bitmap_base: entry.base,
            };
            assert(is_first_fit(entries@, bitmap_bytes as int, k as int));
            assert(layout_of(entries@, l));
            return Ok(l);
        }
        k = k + 1;
    }
    proof {
        assert forall|l: BitmapLayout| !layout_of(entries@, l) by {
            if layout_of(entries@, l) {
                let k = choose|k: int| is_first_fit(entries@, l.bitmap_bytes as int, k) && entries@[k].base == l.bitmap_base;
                assert(!holds_bitmap(entries@[k], bitmap_bytes as int));
            }
        }
    }
    Err(MemmapError::NoBitmapRegion)
}

} // verus!

verus! {

/// The bitmap of a layout starts at the base of a usable entry that is at least as
/// long as the bitmap, and no entry before that one is both usable and that long: the
/// bitmap goes into the lowest-indexed entry that can hold it, whatever the sizes of
/// the entries after it.
pub proof fn lemma_bitmap_in_first_fit(entries: Seq<MemmapEntry>, l: BitmapLayout)
    requires
        layout_of(entries, l),
    ensures
        exists|k: int|
            0 <= k < entries.len() && #[trigger] entries[k].base == l.bitmap_base
                && entries[k].type_ == MEMMAP_USABLE && entries[k].length >= l.bitmap_bytes
                && forall|j: int|
                0 <= j < k ==> !(#[trigger] entries[j].type_ == MEMMAP_USABLE && entries[j].length
                    >= l.bitmap_bytes),
{
    let k = choose|k: int|
        is_first_fit(entries, l.bitmap_bytes as int, k) && entries[k].base == l.bitmap_base;
    assert forall|j: int| 0 <= j < k implies !(#[trigger] entries[j].type_ == MEMMAP_USABLE
        && entries[j].length >= l.bitmap_bytes) by {
        assert(!holds_bitmap(entries[j], l.bitmap_bytes as int));
    }
    assert(entries[k].base == l.bitmap_base);
}

proof fn lemma_entry_pages_within(entries: Seq<MemmapEntry>, l: BitmapLayout, k: int, len: int)
    requires
        layout_of(entries, l),
        0 <= k < entries.len(),
        0 <= len <= entries[k].length,
    ensures
        l.min_addr <= entries[k].base,
        entries[k].base + entries[k].length <= l.max_addr,
        l.min_addr <= l.max_addr,
        l.max_addr <= u64::MAX,
        page_index(l.min_addr, entries[k].base) + pages_spanned(len) <= (l.max_addr - l.min_addr)
            / (PAGE_SIZE as int),
        (l.max_addr - l.min_addr) / (PAGE_SIZE as int) <= 8 * l.bitmap_bytes,
        (l.max_addr - l.min_addr) / (PAGE_SIZE as int) * (PAGE_SIZE as int) == l.max_addr
            - l.min_addr,
        (l.max_addr as int) % (PAGE_SIZE as int) == 0,
{
    lemma_extremes(entries, k);
    let p = PAGE_SIZE as int;
    let lo = lowest_base(entries) as int;
    let hi = highest_end(entries);
    assert(align_down(lo) <= lo && align_down(lo) % p == 0) by (nonlinear_arith)
        requires
            p == 4096,
            lo >= 0,
            align_down(lo) == lo / p * p,
    ;
    assert(align_up(hi) >= hi && align_up(hi) % p == 0 && align_up(hi) <= hi + p - 1) by (nonlinear_arith)
        requires
            p == 4096,
            hi >= 0,
            align_up(hi) == (hi + p - 1) / p * p,
    ;
    assert((l.max_addr - l.min_addr) % p == 0) by (nonlinear_arith)
        requires
            p == 4096,
            (l.max_addr as int) % p == 0,
            (l.min_addr as int) % p == 0,
            l.min_addr <= l.max_addr,
    ;
    lemma_span_within(entries[k].base as int, len, l.min_addr as int, l.max_addr as int);
}

/// Builds the physical memory manager for `entries` over `bitmap`, the memory that
/// `layout` places the bitmap in: every page starts used, every page that a usable
/// entry spans is then marked free, and last the bitmap's own pages are marked used.
pub fn init_physical_memory(
    entries: &[MemmapEntry],
    layout: &BitmapLayout,
    bitmap: &'static mut [u8],
) -> (r: PhysMemoryManager)
    requires
        layout_of(entries@, *layout),
        old(bitmap)@.len() == layout.bitmap_bytes,
    ensures
        r.min_addr() == layout.min_addr,
        initial_pages(entries@, *layout, r.pages()),
{
    let ps = PAGE_SIZE as u64;
    let min_addr = layout.min_addr;
    let n = bitmap.len();
    let ghost total = (layout.max_addr - layout.min_addr) / (PAGE_SIZE as int);
    proof {
        let k = choose|k: int| is_first_fit(entries@, layout.bitmap_bytes as int, k) && entries@[k].base == layout.bitmap_base;
        lemma_entry_pages_within(entries@, *layout, k, 0);
    }

    let mut j: usize = 0;
    while j < n
        invariant
            n == bitmap@.len(),
            j <= n,
            forall|b: int| 0 <= b < j ==> bitmap@[b] == 0xffu8,
        decreases n - j,
    {
        bitmap[j] = 0xff;
        j = j + 1;
    }
    assert forall|p: int| 0 <= p < 8 * n implies #[trigger] page_used(bitmap@, p) by {
        lemma_full_byte((p % 8) as u8);
    }

    let count = entries.len();
    let mut k: usize = 0;
    while k < count
        invariant
            count == entries@.len(),
            n == bitmap@.len(),
            n == layout.bitmap_bytes,
            min_addr == layout.min_addr,
            ps == PAGE_SIZE,
            layout_of(entries@, *layout),
            total == (layout.max_addr - layout.min_addr) / (PAGE_SIZE as int),
            total <= 8 * n,
            k <= count,
            forall|p: int|
                0 <= p < 8 * n ==> #[trigger] page_used(bitmap@, p) == !usable_among(
                    entries@,
                    min_addr,
                    k as int,
                    p,
                ),
        decreases count - k,
    {
        let entry = entries[k];
        let ghost first = page_index(min_addr, entry.base);
        let ghost span = pages_spanned(entry.length as int);
        proof {
            lemma_entry_pages_within(entries@, *layout, k as int, entry.length as int);
        }
        if entry.type_ == MEMMAP_USABLE {
            let start = entry.base;
            let end = entry.base + entry.length;
            let mut addr = start;
            let ghost mut done: int = 0;
            while addr < end
                invariant
                    n == bitmap@.len(),
                    min_addr <= start,
                    end <= layout.max_addr,
                    layout.max_addr <= u64::MAX,
                    (layout.max_addr as int) % (PAGE_SIZE as int) == 0,
                    ps == PAGE_SIZE,
                    first == page_index(min_addr, start),
                    span == pages_spanned(end - start),
                    first + span <= total,
                    total <= 8 * n,
                    0 <= done <= span,
                    addr == start + done * PAGE_SIZE,
                    forall|p: int|
                        0 <= p < 8 * n ==> #[trigger] page_used(bitmap@, p) == !(usable_among(
                            entries@,
                            min_addr,
                            k as int,
                            p,
                        ) || (first <= p < first + done)),
                decreases span - done,
            {
                let idx = (addr - min_addr) / ps;
                proof {
                    assert(idx == first + done) by (nonlinear_arith)
                        requires
                            idx == (addr - min_addr) / 4096,
                            addr == start + done * 4096,
                            first == (start - min_addr) / 4096,
                            min_addr <= start,
                            done >= 0,
                    ;
                    assert(done < span) by (nonlinear_arith)
                        requires
                            addr < end,
                            addr == start + done * 4096,
                            span == (end - start + 4095) / 4096,
                    ;
                }
                let byte_idx = (idx / 8) as usize;
                let bit_idx = (idx % 8) as u8;
                proof {
                    lemma_pages_after_clear(bitmap@, byte_idx as int, bit_idx);
                    assert(8 * byte_idx + bit_idx == idx);
                    assert forall|p: int| 0 <= p < 8 * n implies #[trigger] page_used(
                        bitmap@.update(byte_idx as int, bitmap@[byte_idx as int] & !(1u8 << bit_idx)),
                        p,
                    ) == (p != idx && page_used(bitmap@, p)) by {
                        assert(pages_of(
                            bitmap@.update(byte_idx as int, bitmap@[byte_idx as int] & !(1u8 << bit_idx)),
                        )[p] == pages_of(bitmap@).update(idx as int, false)[p]);
                    }
                }
                bitmap[byte_idx] &= !(1u8 << bit_idx);
                proof {
                    assert(addr + 4096 <= u64::MAX) by (nonlinear_arith)
                        requires
                            addr < layout.max_addr,
                            layout.max_addr <= u64::MAX,
                            (layout.max_addr as int) % 4096 == 0,
                    ;
                }
                addr = addr + ps;
                proof {
                    done = done + 1;
                }
            }
            proof {
                assert(done == span) by (nonlinear_arith)
                    requires
                        addr >= end,
                        addr == start + done * 4096,
                        span == (end - start + 4095) / 4096,
                        0 <= done <= span,
                ;
            }
        }
        proof {
            assert forall|p: int| 0 <= p < 8 * n implies #[trigger] page_used(bitmap@, p)
                == !usable_among(entries@, min_addr, k + 1, p) by {
                if usable_among(entries@, min_addr, k + 1, p) {
                    let w = choose|w: int|
                        #![trigger entries@[w]]
                        0 <= w < k + 1 && entries@[w].type_ == MEMMAP_USABLE && page_index(
                            min_addr,
                            entries@[w].base,
                        ) <= p < page_index(min_addr, entries@[w].base) + pages_spanned(
                            entries@[w].length as int,
                        );
                    if w < k {
                        assert(usable_among(entries@, min_addr, k as int, p));
                    }
                }
                if usable_among(entries@, min_addr, k as int, p) {
                    let w = choose|w: int|
                        #![trigger entries@[w]]
                        0 <= w < k && entries@[w].type_ == MEMMAP_USABLE && page_index(
                            min_addr,
                            entries@[w].base,
                        ) <= p < page_index(min_addr, entries@[w].base) + pages_spanned(
                            entries@[w].length as int,
                        );
                    assert(entries@[w] == entries@[w]);
                }
                if entry.type_ == MEMMAP_USABLE && first <= p < first + span {
                    assert(entries@[k as int] == entry);
                }
            }
        }
        k = k + 1;
    }

    let bitmap_base = layout.bitmap_base;
    let bitmap_pages = (layout.bitmap_bytes + (ps - 1)) / ps;
    let ghost g = page_index(min_addr, bitmap_base);
    proof {
        let w = choose|w: int| is_first_fit(entries@, layout.bitmap_bytes as int, w) && entries@[w].base == layout.bitmap_base;
        lemma_entry_pages_within(entries@, *layout, w, layout.bitmap_bytes as int);
    }
    let mut i: u64 = 0;
    while i < bitmap_pages
        invariant
            n == bitmap@.len(),
            n == layout.bitmap_bytes,
            ps == PAGE_SIZE,
            min_addr == layout.min_addr,
            bitmap_base == layout.bitmap_base,
            min_addr <= bitmap_base,
            bitmap_base + layout.bitmap_bytes <= u64::MAX,
            g == page_index(min_addr, bitmap_base),
            bitmap_pages == pages_spanned(layout.bitmap_bytes as int),
            g + bitmap_pages <= total,
            total <= 8 * n,
            i <= bitmap_pages,
            forall|p: int|
                0 <= p < 8 * n ==> #[trigger] page_used(bitmap@, p) == ((g <= p < g + i)
                    || !usable_page(entries@, min_addr, p)),
        decreases bitmap_pages - i,
    {
        proof {
            assert(i * 4096 < layout.bitmap_bytes) by (nonlinear_arith)
                requires
                    i < bitmap_pages,
                    bitmap_pages == (layout.bitmap_bytes + 4095) / 4096,
            ;
        }
        let page_addr = bitmap_base + i * ps;
        let idx = (page_addr - min_addr) / ps;
        proof {
            assert(idx == g + i) by (nonlinear_arith)
                requires
                    idx == (page_addr - min_addr) / 4096,
                    page_addr == bitmap_base + i * 4096,
                    g == (bitmap_base - min_addr) / 4096,
                    min_addr <= bitmap_base,
                    i >= 0,
            ;
        }
        let byte_idx = (idx / 8) as usize;
        let bit_idx = (idx % 8) as u8;
        proof {
            lemma_pages_after_set(bitmap@, byte_idx as int, bit_idx);
            assert(8 * byte_idx + bit_idx == idx);
            assert forall|p: int| 0 <= p < 8 * n implies #[trigger] page_used(
                bitmap@.update(byte_idx as int, bitmap@[byte_idx as int] | (1u8 << bit_idx)),
                p,
            ) == (p == idx || page_used(bitmap@, p)) by {
                assert(pages_of(
                    bitmap@.update(byte_idx as int, bitmap@[byte_idx as int] | (1u8 << bit_idx)),
                )[p] == pages_of(bitmap@).update(idx as int, true)[p]);
            }
        }
        bitmap[byte_idx] |= 1u8 << bit_idx;
        i = i + 1;
    }

    proof {
        assert forall|p: int|
            0 <= p < pages_of(bitmap@).len() && !#[trigger] pages_of(bitmap@)[p] implies min_addr + p
            * PAGE_SIZE <= u64::MAX by {
            assert(!page_used(bitmap@, p));
            let w = choose|w: int|
                #![trigger entries@[w]]
                0 <= w < entries@.len() && entries@[w].type_ == MEMMAP_USABLE && page_index(
                    min_addr,
                    entries@[w].base,
                ) <= p < page_index(min_addr, entries@[w].base) + pages_spanned(
                    entries@[w].length as int,
                );
            lemma_entry_pages_within(entries@, *layout, w, entries@[w].length as int);
            assert(min_addr + p * 4096 <= layout.max_addr) by (nonlinear_arith)
                requires
                    p < total,
                    total * 4096 == layout.max_addr - min_addr,
                    p >= 0,
            ;
        }
    }
    let ghost bits = bitmap@;
    let r = PhysMemoryManager::from_parts(bitmap, min_addr);
    proof {
        assert forall|p: int| 0 <= p < r.pages().len() implies #[trigger] r.pages()[p] == (
        bitmap_page(*layout, p) || !usable_page(entries@, layout.min_addr, p)) by {
            assert(r.pages()[p] == page_used(bits, p));
        }
    }
    r
}

} // verus!

verus! {

/// Freeing the page that an allocation returned undoes that allocation: the pages are
/// as they were before it, and `free_page` accepts the address.
pub proof fn lemma_free_undoes_alloc(
    before: Seq<bool>,
    min_addr: u64,
    mid: Seq<bool>,
    phys: u64,
    after: Seq<bool>,
)
    requires
        alloc_outcome(before, min_addr, mid, Some(phys)),
        free_outcome(mid, min_addr, after, phys),
    ensures
        can_free(mid, min_addr, phys),
        after == before,
{
    let i = lemma_alloc_index(before, min_addr, mid, phys);
    assert(after =~= before);
}

/// Two allocations in a row, with no free between them, return different pages,
/// the second above the first.
pub proof fn lemma_allocations_distinct(
    p0: Seq<bool>,
    min_addr: u64,
    p1: Seq<bool>,
    a: u64,
    p2: Seq<bool>,
    b: u64,
)
    requires
        alloc_outcome(p0, min_addr, p1, Some(a)),
        alloc_outcome(p1, min_addr, p2, Some(b)),
    ensures
        a < b,
{
    let i = lemma_alloc_index(p0, min_addr, p1, a);
    let j = lemma_alloc_index(p1, min_addr, p2, b);
    assert(p1[i]);
    if j <= i {
        assert(p0[j]);
        assert(false);
    }
    assert(a < b) by (nonlinear_arith)
        requires
            i < j,
            a == min_addr + i * 4096,
            b == min_addr + j * 4096,
    ;
}

/// After a page is freed, the next allocation succeeds and returns that page or a lower one.
pub proof fn lemma_alloc_after_free(
    p0: Seq<bool>,
    min_addr: u64,
    phys: u64,
    p1: Seq<bool>,
    p2: Seq<bool>,
    r: Option<u64>,
)
    requires
        can_free(p0, min_addr, phys),
        free_outcome(p0, min_addr, p1, phys),
        alloc_outcome(p1, min_addr, p2, r),
    ensures
        r matches Some(a) && a <= phys,
{
    let k = page_index(min_addr, phys);
    assert(!p1[k]);
    if r is None {
        assert(p1[k]);
    }
    let a = r->0;
    let i = lemma_alloc_index(p1, min_addr, p2, a);
    if i > k {
        assert(p1[k]);
    }
    assert(a <= phys) by (nonlinear_arith)
        requires
            i <= k,
            0 <= i,
            k == (phys - min_addr) / 4096,
            min_addr <= phys,
            a == min_addr + i * 4096,
    ;
}

/// The state `init_physical_memory` leaves the pages in.
pub open spec fn initial_pages(entries: Seq<MemmapEntry>, l: BitmapLayout, pages: Seq<bool>) -> bool {
    &&& pages.len() == 8 * l.bitmap_bytes
    &&& forall|i: int|
        0 <= i < pages.len() ==> #[trigger] pages[i] == (bitmap_page(l, i) || !usable_page(
            entries,
            l.min_addr,
            i,
        ))
}

/// Right after initialisation, an allocated page lies in a usable entry of the memory
/// map and never among the pages that hold the bitmap itself.
pub proof fn lemma_initial_allocation_usable(
    entries: Seq<MemmapEntry>,
    l: BitmapLayout,
    pages: Seq<bool>,
    after: Seq<bool>,
    phys: u64,
)
    requires
        initial_pages(entries, l, pages),
        alloc_outcome(pages, l.min_addr, after, Some(phys)),
    ensures
        l.min_addr <= phys,
        usable_page(entries, l.min_addr, page_index(l.min_addr, phys)),
        !bitmap_page(l, page_index(l.min_addr, phys)),
{
    let i = lemma_alloc_index(pages, l.min_addr, after, phys);
    assert(!pages[i]);
}

} // verus!

verus! {

/// One call of the page allocator: an allocation with what it returned, or a free of
/// an address.
#[derive(Clone, Copy, Debug, PartialEq, Eq)]
pub enum PageEvent {
    Alloc(Option<u64>),
    Free(u64),
}

/// The pages go from `before` to `after` by event `e`.
pub open spec fn event_outcome(min_addr: u64, before: Seq<bool>, after: Seq<bool>, e: PageEvent) -> bool {
    match e {
        PageEvent::Alloc(r) => alloc_outcome(before, min_addr, after, r),
        PageEvent::Free(p) => can_free(before, min_addr, p) && free_outcome(before, min_addr, after, p),
    }
}

/// A history of the allocator: `states[k + 1]` follows from `states[k]` by `events[k]`.
pub open spec fn is_history(min_addr: u64, states: Seq<Seq<bool>>, events: Seq<PageEvent>) -> bool {
    &&& states.len() == events.len() + 1
    &&& forall|k: int|
        0 <= k < events.len() ==> event_outcome(min_addr, states[k], states[k + 1], #[trigger] events[k])
}

/// The pages that the first `n` events handed out and did not free again.
pub open spec fn outstanding(min_addr: u64, events: Seq<PageEvent>, n: int) -> Set<int>
    decreases n,
{
    if n <= 0 {
        Set::empty()
    } else {
        let prev = outstanding(min_addr, events, n - 1);
        match events[n - 1] {
            PageEvent::Alloc(Some(p)) => prev.insert(page_index(min_addr, p)),
            PageEvent::Alloc(None) => prev,
            PageEvent::Free(p) => prev.remove(page_index(min_addr, p)),
        }
    }
}

/// Page `i` is the page of an address that one of the first `n` events, an allocation,
/// returned.
pub open spec fn allocated_before(min_addr: u64, events: Seq<PageEvent>, n: int, i: int) -> bool {
    exists|j: int|
        0 <= j < n && (#[trigger] events[j] matches PageEvent::Alloc(Some(q)) && page_index(
            min_addr,
            q,
        ) == i)
}

/// Every free in the history gives back an address in a page that an earlier allocation
/// returned (freeing it more than once included).
pub open spec fn frees_only_allocated(min_addr: u64, events: Seq<PageEvent>) -> bool {
    forall|k: int|
        0 <= k < events.len() ==> (#[trigger] events[k] matches PageEvent::Free(p) ==> allocated_before(
            min_addr,
            events,
            k,
            page_index(min_addr, p),
        ))
}

/// Page `i` may be handed out: it lies in a usable entry and holds none of the bitmap.
pub open spec fn page_ok(entries: Seq<MemmapEntry>, l: BitmapLayout, i: int) -> bool {
    usable_page(entries, l.min_addr, i) && !bitmap_page(l, i)
}

proof fn lemma_alloc_index(before: Seq<bool>, min_addr: u64, after: Seq<bool>, p: u64) -> (i: int)
    requires
        alloc_outcome(before, min_addr, after, Some(p)),
    ensures
        is_lowest_free(before, i),
        p == min_addr + i * PAGE_SIZE,
        after == before.update(i, true),
        page_index(min_addr, p) == i,
{
    let i = choose|i: int| is_lowest_free(before, i) && p == min_addr + i * PAGE_SIZE && after == before.update(i, true);
    assert(page_index(min_addr, p) == i) by (nonlinear_arith)
        requires
            p == min_addr + i * 4096,
            i >= 0,
            page_index(min_addr, p) == (p - min_addr) / 4096,
    ;
    i
}

proof fn lemma_history_step(
    entries: Seq<MemmapEntry>,
    l: BitmapLayout,
    states: Seq<Seq<bool>>,
    events: Seq<PageEvent>,
    k: int,
)
    requires
        is_history(l.min_addr, states, events),
        0 <= k < events.len(),
        states[k].len() == 8 * l.bitmap_bytes,
        forall|i: int| #[trigger] outstanding(l.min_addr, events, k).contains(i) ==> 0 <= i
            < states[k].len() && states[k][i],
        frees_only_allocated(l.min_addr, events) ==> (forall|i: int|
            0 <= i < states[k].len() && !#[trigger] states[k][i] ==> page_ok(entries, l, i)) && (
        forall|i: int| #[trigger] allocated_before(l.min_addr, events, k, i) ==> page_ok(entries, l, i)),
    ensures
        states[k + 1].len() == 8 * l.bitmap_bytes,
        forall|i: int| #[trigger] outstanding(l.min_addr, events, k + 1).contains(i) ==> 0 <= i
            < states[k + 1].len() && states[k + 1][i],
        frees_only_allocated(l.min_addr, events) ==> (forall|i: int|
            0 <= i < states[k + 1].len() && !#[trigger] states[k + 1][i] ==> page_ok(entries, l, i)) && (
        forall|i: int| #[trigger] allocated_before(l.min_addr, events, k + 1, i) ==> page_ok(
            entries,
            l,
            i,
        )),
{
    let min = l.min_addr;
    let e = events[k];
    assert(event_outcome(min, states[k], states[k + 1], e));
    let out = outstanding(min, events, k);
    let mut fresh: int = -1;
    match e {
        PageEvent::Alloc(Some(p)) => {
            let j = lemma_alloc_index(states[k], min, states[k + 1], p);
            assert(outstanding(min, events, k + 1) == out.insert(j));
            fresh = j;
        },
        PageEvent::Alloc(None) => {
            assert(outstanding(min, events, k + 1) == out);
        },
        PageEvent::Free(p) => {
            let j = page_index(min, p);
            assert(outstanding(min, events, k + 1) == out.remove(j));
            if frees_only_allocated(min, events) {
                assert(allocated_before(min, events, k, j));
            }
        },
    }
    if frees_only_allocated(min, events) {
        assert forall|i: int| #[trigger] allocated_before(min, events, k + 1, i) implies page_ok(
            entries,
            l,
            i,
        ) by {
            let j = choose|j: int|
                0 <= j < k + 1 && (#[trigger] events[j] matches PageEvent::Alloc(Some(q))
                    && page_index(min, q) == i);
            if j < k {
                assert(allocated_before(min, events, k, i));
            } else {
                assert(i == fresh);
                assert(!states[k][fresh]);
            }
        }
    }
}

proof fn lemma_history_upto(
    entries: Seq<MemmapEntry>,
    l: BitmapLayout,
    states: Seq<Seq<bool>>,
    events: Seq<PageEvent>,
    k: int,
)
    requires
        is_history(l.min_addr, states, events),
        initial_pages(entries, l, states[0]),
        0 <= k <= events.len(),
    ensures
        states[k].len() == 8 * l.bitmap_bytes,
        forall|i: int| #[trigger] outstanding(l.min_addr, events, k).contains(i) ==> 0 <= i
            < states[k].len() && states[k][i],
        frees_only_allocated(l.min_addr, events) ==> (forall|i: int|
            0 <= i < states[k].len() && !#[trigger] states[k][i] ==> page_ok(entries, l, i)) && (
        forall|i: int| #[trigger] allocated_before(l.min_addr, events, k, i) ==> page_ok(entries, l, i)),
    decreases k,
{
    if k == 0 {
        assert(outstanding(l.min_addr, events, 0) == Set::<int>::empty());
    } else {
        lemma_history_upto(entries, l, states, events, k - 1);
        lemma_history_step(entries, l, states, events, k - 1);
    }
}

/// Over any history of the allocator from its initial state, no page is handed out
/// twice while it is allocated: every allocation returns a page that is not among those
/// handed out and not freed since. When every free gives back an address in a page that
/// an earlier allocation returned, every allocated address is page-aligned, lies in the
/// covered range and in a usable entry of the memory map, and is never among the
/// bitmap's own pages.
pub proof fn lemma_history_allocations(
    entries: Seq<MemmapEntry>,
    l: BitmapLayout,
    states: Seq<Seq<bool>>,
    events: Seq<PageEvent>,
)
    requires
        layout_of(entries, l),
        is_history(l.min_addr, states, events),
        initial_pages(entries, l, states[0]),
    ensures
        forall|k: int|
            0 <= k < events.len() ==> (#[trigger] events[k] matches PageEvent::Alloc(Some(p))
                ==> !outstanding(l.min_addr, events, k).contains(page_index(l.min_addr, p))),
        frees_only_allocated(l.min_addr, events) ==> forall|k: int|
            0 <= k < events.len() ==> (#[trigger] events[k] matches PageEvent::Alloc(Some(p)) ==> {
                &&& l.min_addr <= p < l.max_addr
                &&& (p - l.min_addr) % (PAGE_SIZE as int) == 0
                &&& page_ok(entries, l, page_index(l.min_addr, p))
            }),
{
    let min = l.min_addr;
    assert forall|k: int| 0 <= k < events.len() implies (#[trigger] events[k] matches PageEvent::Alloc(
        Some(p),
    ) ==> !outstanding(min, events, k).contains(page_index(min, p))) by {
        lemma_history_upto(entries, l, states, events, k);
        if let PageEvent::Alloc(Some(p)) = events[k] {
            assert(event_outcome(min, states[k], states[k + 1], events[k]));
            let i = lemma_alloc_index(states[k], min, states[k + 1], p);
        }
    }
    if frees_only_allocated(min, events) {
        assert forall|k: int| 0 <= k < events.len() implies (#[trigger] events[k] matches PageEvent::Alloc(
            Some(p),
        ) ==> {
            &&& min <= p < l.max_addr
            &&& (p - min) % (PAGE_SIZE as int) == 0
            &&& page_ok(entries, l, page_index(min, p))
        }) by {
            lemma_history_upto(entries, l, states, events, k);
            if let PageEvent::Alloc(Some(p)) = events[k] {
                assert(event_outcome(min, states[k], states[k + 1], events[k]));
                let i = lemma_alloc_index(states[k], min, states[k + 1], p);
                assert(page_ok(entries, l, i));
                let w = choose|w: int|
                    #![trigger entries[w]]
                    0 <= w < entries.len() && entries[w].type_ == MEMMAP_USABLE && page_index(
                        min,
                        entries[w].base,
                    ) <= i < page_index(min, entries[w].base) + pages_spanned(
                        entries[w].length as int,
                    );
                lemma_entry_pages_within(entries, l, w, entries[w].length as int);
                let total = (l.max_addr - min) / (PAGE_SIZE as int);
                assert(p < l.max_addr && (p - min) % 4096 == 0) by (nonlinear_arith)
                    requires
                        p == min + i * 4096,
                        0 <= i < total,
                        total * 4096 == l.max_addr - min,
                ;
            }
        }
    }
}

} // verus!
