use kernel::mem::align_val;
use kernel::mem::align_val_down;
use kernel::mem::init;
use kernel::mem::page_down;
use kernel::mem::Allocator;
use kernel::mem::Run;
use kernel::mem::MAX_PAGE;
use kernel::symbols::PAGE_ORDER;
use kernel::symbols::PAGE_SIZE;
use kernel::test_alloc;
use kernel::KernelError;

const HEAP: usize = 0x8009_0000;

fn fresh() -> Box<Allocator> {
    let mut alloc = Box::new(Allocator::new());
    init(&mut alloc, HEAP);
    alloc
}

fn live_pages(alloc: &Allocator) -> usize {
    alloc.debug().iter().map(|run| run.pages).sum()
}

#[test]
fn align_val_rounds_up() {
    assert_eq!(align_val(0, 12), 0);
    assert_eq!(align_val(1, 12), 4096);
    assert_eq!(align_val(4095, 12), 4096);
    assert_eq!(align_val(4096, 12), 4096);
    assert_eq!(align_val(4097, 12), 8192);
    assert_eq!(align_val(5, 0), 5);
    assert_eq!(align_val(5, 1), 6);
    assert_eq!(align_val(0x8004_f123, PAGE_ORDER), 0x8005_0000);
}

#[test]
fn align_val_down_rounds_down() {
    assert_eq!(align_val_down(0, 12), 0);
    assert_eq!(align_val_down(1, 12), 0);
    assert_eq!(align_val_down(4095, 12), 0);
    assert_eq!(align_val_down(4096, 12), 4096);
    assert_eq!(align_val_down(8191, 12), 4096);
    assert_eq!(align_val_down(5, 0), 5);
    assert_eq!(align_val_down(5, 1), 4);
    assert_eq!(align_val_down(usize::MAX, 12), usize::MAX - 4095);
}

#[test]
fn page_down_rounds_to_page() {
    assert_eq!(page_down(0), 0);
    assert_eq!(page_down(4095), 0);
    assert_eq!(page_down(4096), 4096);
    assert_eq!(page_down(0x8004_f123), 0x8004_f000);
}

#[test]
fn new_allocator_has_every_page_free() {
    let alloc = Box::new(Allocator::new());
    assert_eq!(alloc.base_addr, 0);
    assert!(alloc.page_allocated.iter().all(|slot| *slot == 0));
    assert_eq!(alloc.page_allocated.len(), MAX_PAGE);
    assert_eq!(MAX_PAGE, 128 * 1024 * 1024 / 4096);
    assert!(alloc.debug().is_empty());
}

#[test]
fn init_sets_base_and_clears_table() {
    let mut alloc = Box::new(Allocator::new());
    assert_eq!(alloc.allocate(3 * PAGE_SIZE), Ok(0));
    init(&mut alloc, 0x8004_f123);
    assert_eq!(alloc.base_addr, 0x8005_0000);
    assert!(alloc.page_allocated.iter().all(|slot| *slot == 0));
    init(&mut alloc, 0x8005_0000);
    assert_eq!(alloc.base_addr, 0x8005_0000);
}

#[test]
fn offsets_convert_between_slots_and_addresses() {
    let alloc = fresh();
    assert_eq!(alloc.offset_addr_of(0), HEAP);
    assert_eq!(alloc.offset_addr_of(3), HEAP + 3 * 4096);
    assert_eq!(alloc.offset_addr_of(MAX_PAGE), HEAP + 128 * 1024 * 1024);
    assert_eq!(alloc.offset_page_of(HEAP), 0);
    assert_eq!(alloc.offset_page_of(HEAP + 4095), 0);
    assert_eq!(alloc.offset_page_of(HEAP + 4096), 1);
    assert_eq!(alloc.offset_page_of(HEAP + 7 * 4096 + 17), 7);
}

#[test]
fn allocate_takes_first_fit_and_marks_run_length() {
    let mut alloc = fresh();
    assert_eq!(alloc.allocate(3 * PAGE_SIZE), Ok(HEAP));
    assert_eq!(&alloc.page_allocated[0..4], &[3, 3, 3, 0]);
    assert_eq!(alloc.allocate(1), Ok(HEAP + 3 * PAGE_SIZE));
    assert_eq!(&alloc.page_allocated[0..5], &[3, 3, 3, 1, 0]);
    assert_eq!(alloc.allocate(PAGE_SIZE + 1), Ok(HEAP + 4 * PAGE_SIZE));
    assert_eq!(&alloc.page_allocated[0..7], &[3, 3, 3, 1, 2, 2, 0]);
    assert!(alloc.page_allocated[7..].iter().all(|slot| *slot == 0));
}

#[test]
fn allocate_rounds_size_up_to_pages() {
    let mut alloc = fresh();
    assert_eq!(alloc.allocate(1), Ok(HEAP));
    assert_eq!(alloc.allocate(4096), Ok(HEAP + 4096));
    assert_eq!(alloc.allocate(4097), Ok(HEAP + 2 * 4096));
    assert_eq!(alloc.allocate(8192), Ok(HEAP + 4 * 4096));
    assert_eq!(&alloc.page_allocated[0..7], &[1, 1, 2, 2, 2, 2, 0]);
}

#[test]
fn allocate_returns_page_aligned_addresses() {
    let mut alloc = fresh();
    for size in [1, 5000, 4096, 100_000, 7] {
        let addr = alloc.allocate(size).unwrap();
        assert_eq!(addr % PAGE_SIZE, 0);
        assert!(addr >= HEAP && addr < HEAP + MAX_PAGE * PAGE_SIZE);
    }
}

#[test]
fn allocate_skips_holes_that_are_too_short() {
    let mut alloc = fresh();
    let a = alloc.allocate(2 * PAGE_SIZE).unwrap();
    let _b = alloc.allocate(PAGE_SIZE).unwrap();
    alloc.deallocate(a);
    assert_eq!(&alloc.page_allocated[0..4], &[0, 0, 1, 0]);
    assert_eq!(alloc.allocate(3 * PAGE_SIZE), Ok(HEAP + 3 * PAGE_SIZE));
    assert_eq!(&alloc.page_allocated[0..7], &[0, 0, 1, 3, 3, 3, 0]);
    assert_eq!(alloc.allocate(2 * PAGE_SIZE), Ok(HEAP));
    assert_eq!(&alloc.page_allocated[0..7], &[2, 2, 1, 3, 3, 3, 0]);
}

#[test]
fn allocate_nothing_returns_first_free_page_and_marks_nothing() {
    let mut alloc = fresh();
    assert_eq!(alloc.allocate(0), Ok(HEAP));
    assert!(alloc.page_allocated.iter().all(|slot| *slot == 0));
    assert_eq!(alloc.allocate(2 * PAGE_SIZE), Ok(HEAP));
    assert_eq!(alloc.allocate(0), Ok(HEAP + 2 * PAGE_SIZE));
    assert_eq!(&alloc.page_allocated[0..3], &[2, 2, 0]);
}

#[test]
fn live_allocations_do_not_overlap() {
    let mut alloc = fresh();
    let sizes = [1usize, 3, 2, 64, 1, 5];
    let mut live: Vec<(usize, usize)> = Vec::new();
    for pages in sizes {
        let addr = alloc.allocate(pages * PAGE_SIZE).unwrap();
        live.push((addr, addr + pages * PAGE_SIZE));
    }
    let (freed, _) = live.remove(2);
    alloc.deallocate(freed);
    for pages in [1usize, 4, 1] {
        let addr = alloc.allocate(pages * PAGE_SIZE).unwrap();
        live.push((addr, addr + pages * PAGE_SIZE));
    }
    for (i, a) in live.iter().enumerate() {
        for b in live.iter().skip(i + 1) {
            assert!(a.1 <= b.0 || b.1 <= a.0);
        }
    }
}

#[test]
fn freed_range_serves_same_size_again() {
    let mut alloc = fresh();
    let _a = alloc.allocate(4 * PAGE_SIZE).unwrap();
    let b = alloc.allocate(3 * PAGE_SIZE).unwrap();
    let _c = alloc.allocate(2 * PAGE_SIZE).unwrap();
    alloc.deallocate(b);
    assert_eq!(&alloc.page_allocated[4..7], &[0, 0, 0]);
    assert_eq!(alloc.allocate(3 * PAGE_SIZE), Ok(b));
    assert_eq!(&alloc.page_allocated[4..7], &[3, 3, 3]);
}

#[test]
fn run_length_stays_until_the_run_is_freed() {
    let mut alloc = fresh();
    let a = alloc.allocate(2 * PAGE_SIZE).unwrap();
    let b = alloc.allocate(5 * PAGE_SIZE).unwrap();
    assert_eq!(&alloc.page_allocated[2..7], &[5, 5, 5, 5, 5]);
    let c = alloc.allocate(PAGE_SIZE).unwrap();
    alloc.deallocate(a);
    let _d = alloc.allocate(PAGE_SIZE).unwrap();
    alloc.deallocate(c);
    assert_eq!(&alloc.page_allocated[2..7], &[5, 5, 5, 5, 5]);
    alloc.deallocate(b);
    assert_eq!(&alloc.page_allocated[2..7], &[0, 0, 0, 0, 0]);
}

#[test]
fn adjacent_runs_of_equal_length_are_told_apart() {
    let mut alloc = fresh();
    let a = alloc.allocate(2 * PAGE_SIZE).unwrap();
    let b = alloc.allocate(2 * PAGE_SIZE).unwrap();
    assert_eq!(&alloc.page_allocated[0..5], &[2, 2, 2, 2, 0]);
    assert_eq!(alloc.debug().len(), 2);
    assert!(alloc.may_deallocate(a));
    assert!(alloc.may_deallocate(b));
    assert!(!alloc.may_deallocate(a + PAGE_SIZE));
    assert!(!alloc.may_deallocate(b + PAGE_SIZE));
    alloc.deallocate(b);
    assert_eq!(&alloc.page_allocated[0..5], &[2, 2, 0, 0, 0]);
}

#[test]
fn dump_pages_equal_pages_of_live_allocations() {
    let mut alloc = fresh();
    assert_eq!(live_pages(&alloc), 0);
    let a = alloc.allocate(10 * PAGE_SIZE).unwrap();
    let b = alloc.allocate(1).unwrap();
    let c = alloc.allocate(3 * PAGE_SIZE + 1).unwrap();
    assert_eq!(live_pages(&alloc), 10 + 1 + 4);
    alloc.deallocate(b);
    assert_eq!(live_pages(&alloc), 10 + 4);
    let _d = alloc.allocate(2 * PAGE_SIZE).unwrap();
    assert_eq!(live_pages(&alloc), 10 + 4 + 2);
    alloc.deallocate(a);
    alloc.deallocate(c);
    assert_eq!(live_pages(&alloc), 2);
    let taken = alloc.page_allocated.iter().filter(|slot| **slot != 0).count();
    assert_eq!(taken, 2);
}

#[test]
fn whole_pool_can_be_taken_exactly_once() {
    let mut alloc = fresh();
    assert_eq!(alloc.allocate(MAX_PAGE * PAGE_SIZE), Ok(HEAP));
    assert!(alloc.page_allocated.iter().all(|slot| *slot == MAX_PAGE));
    assert_eq!(alloc.allocate(MAX_PAGE * PAGE_SIZE), Err(KernelError::OutOfMemory));
    assert_eq!(alloc.allocate(1), Err(KernelError::OutOfMemory));
    assert_eq!(alloc.allocate(0), Err(KernelError::OutOfMemory));
    assert!(alloc.page_allocated.iter().all(|slot| *slot == MAX_PAGE));
    alloc.deallocate(HEAP);
    assert!(alloc.page_allocated.iter().all(|slot| *slot == 0));
    assert_eq!(alloc.allocate(MAX_PAGE * PAGE_SIZE), Ok(HEAP));
}

#[test]
fn request_larger_than_pool_is_out_of_memory() {
    let mut alloc = fresh();
    assert_eq!(alloc.allocate(MAX_PAGE * PAGE_SIZE + 1), Err(KernelError::OutOfMemory));
    assert_eq!(alloc.allocate(usize::MAX), Err(KernelError::OutOfMemory));
    assert_eq!(alloc.allocate(usize::MAX - 4095), Err(KernelError::OutOfMemory));
    assert!(alloc.page_allocated.iter().all(|slot| *slot == 0));
}

#[test]
fn request_that_fits_only_at_the_end_is_served_there() {
    let mut alloc = fresh();
    let a = alloc.allocate((MAX_PAGE - 2) * PAGE_SIZE).unwrap();
    assert_eq!(a, HEAP);
    assert_eq!(alloc.allocate(3 * PAGE_SIZE), Err(KernelError::OutOfMemory));
    assert_eq!(alloc.allocate(2 * PAGE_SIZE), Ok(HEAP + (MAX_PAGE - 2) * PAGE_SIZE));
    assert_eq!(alloc.page_allocated[MAX_PAGE - 1], 2);
    assert_eq!(alloc.page_allocated[MAX_PAGE - 2], 2);
    assert_eq!(alloc.page_allocated[MAX_PAGE - 3], MAX_PAGE - 2);
}

#[test]
fn deallocate_accepts_any_address_in_the_first_page_of_a_run() {
    let mut alloc = fresh();
    let a = alloc.allocate(2 * PAGE_SIZE).unwrap();
    assert!(alloc.may_deallocate(a + 100));
    alloc.deallocate(a + 100);
    assert_eq!(&alloc.page_allocated[0..3], &[0, 0, 0]);
}

#[test]
fn deallocate_of_a_free_page_changes_nothing() {
    let mut alloc = fresh();
    let _a = alloc.allocate(2 * PAGE_SIZE).unwrap();
    assert!(alloc.may_deallocate(HEAP + 5 * PAGE_SIZE));
    alloc.deallocate(HEAP + 5 * PAGE_SIZE);
    assert_eq!(&alloc.page_allocated[0..7], &[2, 2, 0, 0, 0, 0, 0]);
}

#[test]
fn may_deallocate_refuses_addresses_outside_the_pool() {
    let mut alloc = fresh();
    let _a = alloc.allocate(PAGE_SIZE).unwrap();
    assert!(!alloc.may_deallocate(HEAP - 1));
    assert!(!alloc.may_deallocate(0));
    assert!(!alloc.may_deallocate(HEAP + MAX_PAGE * PAGE_SIZE));
    assert!(alloc.may_deallocate(HEAP + MAX_PAGE * PAGE_SIZE - 1));
}

#[test]
fn debug_lists_runs_in_address_order() {
    let mut alloc = fresh();
    let _a = alloc.allocate(2 * PAGE_SIZE).unwrap();
    let b = alloc.allocate(PAGE_SIZE).unwrap();
    let _c = alloc.allocate(3 * PAGE_SIZE).unwrap();
    alloc.deallocate(b);
    assert_eq!(
        alloc.debug(),
        vec![
            Run { index: 0, from: HEAP, to: HEAP + 0x2000, pages: 2 },
            Run { index: 3, from: HEAP + 0x3000, to: HEAP + 0x6000, pages: 3 },
        ]
    );
}

#[test]
fn debug_reports_a_run_that_ends_with_the_pool() {
    let mut alloc = fresh();
    let _a = alloc.allocate(MAX_PAGE * PAGE_SIZE).unwrap();
    assert_eq!(
        alloc.debug(),
        vec![Run { index: 0, from: HEAP, to: HEAP + 0x800_0000, pages: MAX_PAGE }]
    );
}

#[test]
fn test_alloc_leaves_five_runs_in_a_fresh_pool() {
    let mut alloc = fresh();
    let runs = test_alloc(&mut alloc).unwrap();
    assert_eq!(
        runs,
        vec![
            Run { index: 0, from: HEAP, to: HEAP + 64 * 4096, pages: 64 },
            Run { index: 64, from: HEAP + 64 * 4096, to: HEAP + 65 * 4096, pages: 1 },
            Run { index: 66, from: HEAP + 66 * 4096, to: HEAP + 67 * 4096, pages: 1 },
            Run { index: 67, from: HEAP + 67 * 4096, to: HEAP + 68 * 4096, pages: 1 },
            Run { index: 68, from: HEAP + 68 * 4096, to: HEAP + 69 * 4096, pages: 1 },
        ]
    );
    assert_eq!(alloc.page_allocated[65], 0);
    assert_eq!(live_pages(&alloc), 68);
}

#[test]
fn test_alloc_stops_when_the_pool_is_full() {
    let mut alloc = fresh();
    let _all = alloc.allocate(MAX_PAGE * PAGE_SIZE).unwrap();
    assert_eq!(test_alloc(&mut alloc), Err(KernelError::OutOfMemory));
    assert!(alloc.page_allocated.iter().all(|slot| *slot == MAX_PAGE));
}
