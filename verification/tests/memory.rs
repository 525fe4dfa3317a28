use minikernel::memory::phys::{
    bitmap_layout, init_physical_memory, BitmapLayout, MemmapEntry, MemmapError,
    PhysMemoryManager, MEMMAP_USABLE, PAGE_SIZE,
};
use minikernel::memory::virt::{alloc_kernel_page, HeapStep, KernelHeapMapping, KernelVirtCursor, KERNEL_VIRT_AREA_START};
use minikernel::memory::{alloc_page, free_page};

const RESERVED: u64 = 1;

fn storage(n: u64) -> &'static mut [u8] {
    Box::leak(vec![0u8; n as usize].into_boxed_slice())
}

fn entry(base: u64, length: u64, type_: u64) -> MemmapEntry {
    MemmapEntry { base, length, type_ }
}

fn sample_map() -> Vec<MemmapEntry> {
    vec![
        entry(0x1000, 0x3000, MEMMAP_USABLE),
        entry(0x4000, 0x1000, RESERVED),
        entry(0x5000, 0x4000, MEMMAP_USABLE),
    ]
}

fn manager_for(entries: &[MemmapEntry]) -> PhysMemoryManager {
    let layout = bitmap_layout(entries).expect("layout");
    init_physical_memory(entries, &layout, storage(layout.bitmap_bytes))
}

#[test]
fn layout_of_sample_map() {
    let layout = bitmap_layout(&sample_map()).unwrap();
    assert_eq!(
        layout,
        BitmapLayout { min_addr: 0x1000, max_addr: 0x9000, bitmap_bytes: 1, bitmap_base: 0x1000 }
    );
}

#[test]
fn layout_rounds_to_pages() {
    let layout = bitmap_layout(&[entry(0x1800, 0x2000, MEMMAP_USABLE)]).unwrap();
    assert_eq!(
        layout,
        BitmapLayout { min_addr: 0x1000, max_addr: 0x4000, bitmap_bytes: 1, bitmap_base: 0x1800 }
    );
}

#[test]
fn layout_bitmap_bytes_round_up() {
    // 9 pages need 2 bytes of bitmap; the first usable entry is too small for them.
    let entries = [entry(0x0, 0x1, MEMMAP_USABLE), entry(0x1000, 0x8000, MEMMAP_USABLE)];
    let layout = bitmap_layout(&entries).unwrap();
    assert_eq!(
        layout,
        BitmapLayout { min_addr: 0, max_addr: 0x9000, bitmap_bytes: 2, bitmap_base: 0x1000 }
    );
}

#[test]
fn layout_errors() {
    assert_eq!(bitmap_layout(&[]), Err(MemmapError::EmptyMemoryMap));
    assert_eq!(
        bitmap_layout(&[entry(u64::MAX - 10, 100, MEMMAP_USABLE)]),
        Err(MemmapError::AddressOverflow)
    );
    assert_eq!(
        bitmap_layout(&[entry(0, u64::MAX - 100, MEMMAP_USABLE)]),
        Err(MemmapError::AddressOverflow)
    );
    assert_eq!(
        bitmap_layout(&[entry(0x1000, 0x1000, RESERVED)]),
        Err(MemmapError::NoBitmapRegion)
    );
}

#[test]
fn init_frees_usable_pages_but_the_bitmap() {
    let mut m = manager_for(&sample_map());
    // Page 0x1000 holds the bitmap, page 0x4000 is reserved.
    let got: Vec<u64> = std::iter::from_fn(|| m.alloc_page()).collect();
    assert_eq!(got, vec![0x2000, 0x3000, 0x5000, 0x6000, 0x7000, 0x8000]);
    assert_eq!(m.alloc_page(), None);
}

#[test]
fn init_with_unaligned_region() {
    // The region 0x1800..0x3800 frees the pages at 0x1000 and 0x2000 only; the bitmap
    // sits in the first of them.
    let mut m = manager_for(&[entry(0x1800, 0x2000, MEMMAP_USABLE)]);
    assert_eq!(m.alloc_page(), Some(0x2000));
    assert_eq!(m.alloc_page(), None);
}

#[test]
fn alloc_returns_lowest_free_page() {
    let mut m = manager_for(&sample_map());
    assert_eq!(m.alloc_page(), Some(0x2000));
    assert_eq!(m.alloc_page(), Some(0x3000));
    m.free_page(0x2000);
    assert_eq!(m.alloc_page(), Some(0x2000));
    assert_eq!(m.alloc_page(), Some(0x5000));
}

#[test]
fn free_page_uses_the_page_that_holds_the_address() {
    let mut m = manager_for(&sample_map());
    assert_eq!(m.alloc_page(), Some(0x2000));
    m.free_page(0x2abc);
    assert_eq!(m.alloc_page(), Some(0x2000));
}

#[test]
fn freeing_reserved_page_makes_it_allocatable() {
    let mut m = manager_for(&sample_map());
    m.free_page(0x4000);
    let got: Vec<u64> = std::iter::from_fn(|| m.alloc_page()).collect();
    assert_eq!(got, vec![0x2000, 0x3000, 0x4000, 0x5000, 0x6000, 0x7000, 0x8000]);
}

#[test]
fn global_functions_without_manager() {
    let mut none: Option<PhysMemoryManager> = None;
    assert_eq!(alloc_page(&mut none), None);
    free_page(&mut none, 0x2000);
    assert!(none.is_none());
}

#[test]
fn test_physical_pages() {
    let mut phys = Some(manager_for(&sample_map()));
    let page1 = alloc_page(&mut phys).expect("alloc_page failed");
    let page2 = alloc_page(&mut phys).expect("alloc_page failed");
    assert!(page1 != page2, "Pages should be different");
    free_page(&mut phys, page1);
    let page3 = alloc_page(&mut phys).expect("alloc_page failed");
    assert_eq!(page3, page1);
    free_page(&mut phys, page2);
    free_page(&mut phys, page3);
    assert_eq!(alloc_page(&mut phys), Some(page1));
}

#[test]
fn law_free_undoes_alloc() {
    let mut m = manager_for(&sample_map());
    let before: Vec<u64> = {
        let mut probe = manager_for(&sample_map());
        std::iter::from_fn(|| probe.alloc_page()).collect()
    };
    let p = m.alloc_page().unwrap();
    m.free_page(p);
    let after: Vec<u64> = std::iter::from_fn(|| m.alloc_page()).collect();
    assert_eq!(before, after);
}

#[test]
fn law_consecutive_allocations_increase() {
    let mut m = manager_for(&sample_map());
    let a = m.alloc_page().unwrap();
    let b = m.alloc_page().unwrap();
    assert!(a < b);
}

#[test]
fn law_alloc_after_free_succeeds() {
    let mut m = manager_for(&sample_map());
    while m.alloc_page().is_some() {}
    m.free_page(0x7000);
    assert_eq!(m.alloc_page(), Some(0x7000));
}

#[test]
fn law_initial_allocations_avoid_bitmap_and_reserved() {
    let mut m = manager_for(&sample_map());
    while let Some(p) = m.alloc_page() {
        assert!(p != 0x1000 && p != 0x4000);
        assert!((0x1000..0x4000).contains(&p) || (0x5000..0x9000).contains(&p));
    }
}

#[test]
fn cursor_reserves_upward() {
    let mut c = KernelVirtCursor::new();
    assert_eq!(c.reserve(PAGE_SIZE as u64), KERNEL_VIRT_AREA_START);
    assert_eq!(c.reserve(100), KERNEL_VIRT_AREA_START + 0x1000);
    assert_eq!(c.reserve(0), KERNEL_VIRT_AREA_START + 0x1000 + 100);
}

#[test]
fn cursor_wraps_around() {
    let mut c = KernelVirtCursor::new();
    c.reserve(0x0000_7780_0000_0000);
    assert_eq!(c.reserve(5), 0);
    assert_eq!(c.reserve(1), 5);
}

#[test]
fn kernel_page_pairs_virtual_and_physical() {
    let mut c = KernelVirtCursor::new();
    let mut phys = Some(manager_for(&sample_map()));
    assert_eq!(alloc_kernel_page(&mut c, &mut phys), Some((KERNEL_VIRT_AREA_START, 0x2000)));
    assert_eq!(
        alloc_kernel_page(&mut c, &mut phys),
        Some((KERNEL_VIRT_AREA_START + 0x1000, 0x3000))
    );
}

#[test]
fn kernel_page_without_memory_still_moves_cursor() {
    let mut c = KernelVirtCursor::new();
    let mut none: Option<PhysMemoryManager> = None;
    assert_eq!(alloc_kernel_page(&mut c, &mut none), None);
    assert_eq!(c.reserve(0), KERNEL_VIRT_AREA_START + 0x1000);
}

#[test]
fn heap_maps_each_page_then_finishes() {
    let mut c = KernelVirtCursor::new();
    let mut phys = Some(manager_for(&sample_map()));
    let size = 3 * 0x1000 + 100;
    let mut heap = KernelHeapMapping::begin(&mut c, size);
    let s = KERNEL_VIRT_AREA_START;
    assert_eq!(heap.next_step(&mut phys), HeapStep::MapPage { virt: s, phys: 0x2000 });
    assert_eq!(heap.next_step(&mut phys), HeapStep::MapPage { virt: s + 0x1000, phys: 0x3000 });
    assert_eq!(heap.next_step(&mut phys), HeapStep::MapPage { virt: s + 0x2000, phys: 0x5000 });
    assert_eq!(heap.next_step(&mut phys), HeapStep::MapPage { virt: s + 0x3000, phys: 0x6000 });
    assert_eq!(heap.next_step(&mut phys), HeapStep::Done { start: s });
    assert_eq!(heap.next_step(&mut phys), HeapStep::Done { start: s });
    assert_eq!(c.reserve(0), s + size);
}

#[test]
fn heap_runs_out_of_memory() {
    let mut c = KernelVirtCursor::new();
    let mut phys = Some(manager_for(&[entry(0x1800, 0x2000, MEMMAP_USABLE)]));
    let mut heap = KernelHeapMapping::begin(&mut c, 2 * 0x1000);
    let s = KERNEL_VIRT_AREA_START;
    assert_eq!(heap.next_step(&mut phys), HeapStep::MapPage { virt: s, phys: 0x2000 });
    assert_eq!(heap.next_step(&mut phys), HeapStep::OutOfMemory);
}

#[test]
fn empty_heap_is_done_at_once() {
    let mut c = KernelVirtCursor::new();
    let mut none: Option<PhysMemoryManager> = None;
    let mut heap = KernelHeapMapping::begin(&mut c, 0);
    assert_eq!(heap.next_step(&mut none), HeapStep::Done { start: KERNEL_VIRT_AREA_START });
}

#[test]
fn law_reservations_adjacent() {
    let mut c = KernelVirtCursor::new();
    let a = c.reserve(0x3000);
    let b = c.reserve(0x5000);
    assert_eq!(b, a + 0x3000);
    assert_eq!(c.reserve(0), b + 0x5000);
}

#[test]
fn law_heap_maps_every_page() {
    let mut c = KernelVirtCursor::new();
    let mut phys = Some(manager_for(&sample_map()));
    let mut heap = KernelHeapMapping::begin(&mut c, 2 * 0x1000);
    let s = KERNEL_VIRT_AREA_START;
    assert_eq!((heap.start(), heap.size(), heap.offset()), (s, 0x2000, 0));
    assert!(matches!(heap.next_step(&mut phys), HeapStep::MapPage { virt, .. } if virt == s));
    assert_eq!(heap.offset(), 0x1000);
    assert!(matches!(heap.next_step(&mut phys), HeapStep::MapPage { virt, .. } if virt == s + 0x1000));
    assert_eq!(heap.offset(), 0x2000);
    assert_eq!(heap.next_step(&mut phys), HeapStep::Done { start: s });
}

#[test]
fn covers_matches_bitmap_range() {
    let m = manager_for(&sample_map());
    assert!(!m.covers(0xfff));
    assert!(m.covers(0x1000));
    assert!(m.covers(0x8fff));
    // The bitmap's one byte covers 8 pages from 0x1000.
    assert!(!m.covers(0x9000));
}

#[test]
fn law_history_never_hands_out_outstanding_page() {
    let mut m = manager_for(&sample_map());
    let mut outstanding: Vec<u64> = Vec::new();
    for round in 0..20u64 {
        if round % 3 == 2 {
            if let Some(p) = outstanding.pop() {
                m.free_page(p);
            }
        } else if let Some(p) = m.alloc_page() {
            assert!(!outstanding.contains(&p));
            assert_eq!((p - 0x1000) % 0x1000, 0);
            assert!(p != 0x1000 && p != 0x4000 && (0x1000..0x9000).contains(&p));
            outstanding.push(p);
        }
    }
}

#[test]
fn law_reservation_history_disjoint_and_aligned() {
    let mut c = KernelVirtCursor::new();
    let sizes = [0x1000u64, 0x4000, 0x2000, 0x1000];
    let starts: Vec<u64> = sizes.iter().map(|&s| c.reserve(s)).collect();
    for (k, &s) in starts.iter().enumerate() {
        assert_eq!(s % 0x1000, 0);
        for j in 0..k {
            assert!(starts[j] + sizes[j] <= s);
        }
    }
}

#[test]
fn law_repeated_frees_keep_allocations_usable() {
    let mut m = manager_for(&sample_map());
    let p = m.alloc_page().unwrap();
    let q = m.alloc_page().unwrap();
    m.free_page(p);
    m.free_page(p + 0x10);
    m.free_page(q);
    let got: Vec<u64> = std::iter::from_fn(|| m.alloc_page()).collect();
    assert_eq!(got, vec![0x2000, 0x3000, 0x5000, 0x6000, 0x7000, 0x8000]);
}
