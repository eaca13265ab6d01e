use nvalloc::array_unaligned::ArrayUnalignedAlloc;
use nvalloc::table::PT_LEN;
use nvalloc::{Error, Size, PAGE_SIZE};

const SPAN2: usize = PT_LEN * PT_LEN;
const BEGIN: u64 = 0x1000_0000;

fn fresh(cores: usize, subtrees: usize) -> ArrayUnalignedAlloc {
    let mut alloc = ArrayUnalignedAlloc::new();
    alloc.init(cores, BEGIN, subtrees * SPAN2 + 1, true).unwrap();
    alloc
}

#[test]
fn init_rejects_small_ranges() {
    let mut alloc = ArrayUnalignedAlloc::new();
    assert_eq!(alloc.init(2, BEGIN, 2047, true), Err(Error::Initialization));
    assert_eq!(alloc.init(1, BEGIN, 0, true), Err(Error::Initialization));
    assert_eq!(alloc.init(1, u64::MAX - 4096, 2048, true), Err(Error::Initialization));
    assert_eq!(alloc.pages(), 0);
    assert_eq!(alloc.init(2, BEGIN, 2048, true), Ok(()));
    assert_eq!(alloc.pages(), 3 * PT_LEN);
}

#[test]
fn get_small_frames() {
    let mut alloc = fresh(2, 2);
    assert_eq!(alloc.pages(), 2 * SPAN2);
    let a = alloc.get(0, Size::L0).unwrap();
    let b = alloc.get(0, Size::L0).unwrap();
    let c = alloc.get(1, Size::L0).unwrap();
    assert_eq!(a % PAGE_SIZE as u64, 0);
    assert!(a != b && b != c && a != c);
    assert!(a >= BEGIN && a < BEGIN + (2 * SPAN2 * PAGE_SIZE) as u64);
    // Each core allocates in a subtree of its own.
    assert_ne!((a - BEGIN) / (SPAN2 * PAGE_SIZE) as u64, (c - BEGIN) / (SPAN2 * PAGE_SIZE) as u64);
    assert_eq!((a - BEGIN) / (SPAN2 * PAGE_SIZE) as u64, (b - BEGIN) / (SPAN2 * PAGE_SIZE) as u64);
}

#[test]
fn get_giant_and_memory() {
    let mut alloc = fresh(1, 2);
    let a = alloc.get(0, Size::L2).unwrap();
    let b = alloc.get(0, Size::L2).unwrap();
    assert_ne!(a, b);
    assert_eq!((a - BEGIN) % (SPAN2 * PAGE_SIZE) as u64, 0);
    assert_eq!(alloc.get(0, Size::L2), Err(Error::Memory));
    assert_eq!(alloc.get(0, Size::L0), Err(Error::Memory));
    assert_eq!(alloc.get(0, Size::L1), Err(Error::Memory));
}

#[test]
fn get_huge_regions() {
    let mut alloc = fresh(1, 1);
    let mut seen = Vec::new();
    for _ in 0..PT_LEN {
        let a = alloc.get(0, Size::L1).unwrap();
        assert_eq!((a - BEGIN) % (PT_LEN * PAGE_SIZE) as u64, 0);
        assert!(!seen.contains(&a));
        seen.push(a);
    }
    assert_eq!(alloc.get(0, Size::L1), Err(Error::Memory));
    assert_eq!(alloc.get(0, Size::L0), Err(Error::Memory));
}

fn frees(alloc: &ArrayUnalignedAlloc) -> Vec<usize> {
    alloc.subtrees().iter().map(|e| e.free).collect()
}

#[test]
fn setup_counts() {
    let alloc = fresh(2, 3);
    assert_eq!(alloc.allocated_pages(), 0);
    assert_eq!(frees(&alloc), vec![SPAN2; 3]);
    for e in alloc.subtrees() {
        assert!(!e.reserved && !e.huge);
    }
}

#[test]
fn conservation() {
    let mut alloc = fresh(2, 2);
    let mut small = Vec::new();
    for i in 0..700 {
        small.push(alloc.get(i % 2, Size::L0).unwrap());
        assert_eq!(alloc.allocated_pages(), i + 1);
    }
    let huge = alloc.get(0, Size::L1);
    // Both subtrees serve single frames, so no region is to be had.
    assert_eq!(huge, Err(Error::Memory));
    assert_eq!(alloc.allocated_pages(), 700);
    for (i, a) in small.iter().enumerate() {
        assert_eq!(alloc.put(i % 2, *a, Size::L0), Ok(()));
        assert_eq!(alloc.allocated_pages(), 699 - i);
    }
    assert_eq!(frees(&alloc), vec![SPAN2; 2]);
}

#[test]
fn mixed_sizes() {
    let mut alloc = fresh(1, 3);
    let a = alloc.get(0, Size::L0).unwrap();
    let b = alloc.get(0, Size::L1).unwrap();
    let c = alloc.get(0, Size::L2).unwrap();
    assert_eq!(alloc.allocated_pages(), 1 + PT_LEN + SPAN2);
    let sub = |x: u64| (x - BEGIN) / (SPAN2 * PAGE_SIZE) as u64;
    assert!(sub(a) != sub(b) && sub(b) != sub(c) && sub(a) != sub(c));
    assert_eq!(alloc.put(0, b, Size::L1), Ok(()));
    assert_eq!(alloc.put(0, c, Size::L2), Ok(()));
    assert_eq!(alloc.put(0, a, Size::L0), Ok(()));
    assert_eq!(alloc.allocated_pages(), 0);
}

#[test]
fn no_two_units_overlap() {
    let mut alloc = fresh(2, 2);
    let mut ranges: Vec<(u64, u64)> = Vec::new();
    for i in 0..300 {
        let size = if i % 7 == 0 { Size::L1 } else { Size::L0 };
        let frames = if i % 7 == 0 { PT_LEN } else { 1 };
        let core = if i % 7 == 0 { 1 } else { 0 };
        let a = alloc.get(core, size).unwrap();
        ranges.push((a, a + (frames * PAGE_SIZE) as u64));
    }
    ranges.sort();
    for w in ranges.windows(2) {
        assert!(w[0].1 <= w[1].0);
    }
}

#[test]
fn invalid_free_rejected() {
    let mut alloc = fresh(1, 2);
    let a = alloc.get(0, Size::L0).unwrap();
    let before = alloc.subtrees();
    // Never handed out.
    assert_eq!(alloc.put(0, a + PAGE_SIZE as u64, Size::L0), Err(Error::Address));
    // Not aligned.
    assert_eq!(alloc.put(0, a + 8, Size::L0), Err(Error::Address));
    // Outside the range.
    assert_eq!(alloc.put(0, BEGIN - PAGE_SIZE as u64, Size::L0), Err(Error::Address));
    assert_eq!(
        alloc.put(0, BEGIN + (2 * SPAN2 * PAGE_SIZE) as u64, Size::L0),
        Err(Error::Address)
    );
    // Another size than was handed out.
    assert_eq!(alloc.put(0, a, Size::L1), Err(Error::Address));
    assert_eq!(alloc.put(0, a, Size::L2), Err(Error::Address));
    assert_eq!(alloc.subtrees(), before);
    assert_eq!(alloc.allocated_pages(), 1);
    // Freed twice.
    assert_eq!(alloc.put(0, a, Size::L0), Ok(()));
    let before = alloc.subtrees();
    assert_eq!(alloc.put(0, a, Size::L0), Err(Error::Address));
    assert_eq!(alloc.subtrees(), before);
    assert_eq!(alloc.allocated_pages(), 0);
}

#[test]
fn round_trip() {
    // A subtree for each core and size below the giant one, and one to spare.
    let mut alloc = fresh(2, 5);
    let before = frees(&alloc);
    for round in 0..50 {
        for size in [Size::L0, Size::L1, Size::L2] {
            let core = round % 2;
            let a = alloc.get(core, size).unwrap();
            assert_eq!(alloc.put(1 - core, a, size), Ok(()));
            assert_eq!(frees(&alloc), before);
            assert_eq!(alloc.allocated_pages(), 0);
        }
    }
}

#[test]
fn giant_round_trip() {
    let mut alloc = fresh(1, 2);
    let initial = alloc.subtrees();
    let a = alloc.get(0, Size::L2).unwrap();
    let i = ((a - BEGIN) / (SPAN2 * PAGE_SIZE) as u64) as usize;
    assert_eq!(alloc.subtrees()[i].free, 0);
    assert_eq!(alloc.subtrees()[1 - i], initial[1 - i]);
    assert_eq!(alloc.put(0, a, Size::L2), Ok(()));
    let e = alloc.subtrees()[i];
    assert_eq!(e.free, SPAN2);
    assert!(!e.huge);
    assert!(!e.reserved);
    assert_eq!(alloc.subtrees(), initial);
    // The subtree is in the list of free subtrees once: two giant units can be had, not three.
    assert_eq!(alloc.get(0, Size::L2), Ok(a));
    assert!(alloc.get(0, Size::L2).is_ok());
    assert_eq!(alloc.get(0, Size::L2), Err(Error::Memory));
}

#[test]
fn giant_free_needs_the_first_frame() {
    let mut alloc = fresh(1, 1);
    let a = alloc.get(0, Size::L2).unwrap();
    assert_eq!(alloc.put(0, a + PAGE_SIZE as u64, Size::L2), Err(Error::Address));
    assert_eq!(alloc.put(0, a + PAGE_SIZE as u64, Size::L0), Err(Error::Address));
    assert_eq!(alloc.allocated_pages(), SPAN2);
    assert_eq!(alloc.put(0, a, Size::L2), Ok(()));
}

#[test]
fn is_free_queries() {
    let mut alloc = fresh(1, 2);
    let a = alloc.get(0, Size::L0).unwrap();
    let base = a - (a - BEGIN) % (SPAN2 * PAGE_SIZE) as u64;
    assert!(!alloc.is_free(a, Size::L0));
    assert!(alloc.is_free(a + PAGE_SIZE as u64, Size::L0));
    assert!(!alloc.is_free(a + 1, Size::L0));
    assert!(!alloc.is_free(base, Size::L1));
    assert!(alloc.is_free(base + (PT_LEN * PAGE_SIZE) as u64, Size::L1));
    assert!(!alloc.is_free(base + ((PT_LEN + 1) * PAGE_SIZE) as u64, Size::L1));
    assert!(!alloc.is_free(base, Size::L2));
    let other = if base == BEGIN { BEGIN + (SPAN2 * PAGE_SIZE) as u64 } else { BEGIN };
    assert!(alloc.is_free(other, Size::L2));
    assert!(!alloc.is_free(BEGIN + (2 * SPAN2 * PAGE_SIZE) as u64, Size::L0));
    assert_eq!(alloc.put(0, a, Size::L0), Ok(()));
    assert!(alloc.is_free(base, Size::L2));
}

#[test]
fn short_last_subtree() {
    // One whole subtree and a short one of sixteen regions.
    let mut alloc = ArrayUnalignedAlloc::new();
    alloc.init(1, BEGIN, SPAN2 + 16 * PT_LEN + 1, true).unwrap();
    assert_eq!(alloc.pages(), SPAN2 + 16 * PT_LEN);
    assert_eq!(frees(&alloc), vec![SPAN2, 16 * PT_LEN]);
    // Single frames come from the short subtree first.
    let a = alloc.get(0, Size::L0).unwrap();
    assert_eq!((a - BEGIN) / (SPAN2 * PAGE_SIZE) as u64, 1);
    // Only one giant unit fits.
    assert!(alloc.get(0, Size::L2).is_ok());
    assert_eq!(alloc.get(0, Size::L2), Err(Error::Memory));
    assert!(!alloc.is_free(BEGIN + (SPAN2 * PAGE_SIZE) as u64, Size::L2));
}

#[test]
fn uses_all_frames_of_a_subtree() {
    let mut alloc = fresh(1, 1);
    let mut seen = vec![false; SPAN2];
    for _ in 0..SPAN2 {
        let a = alloc.get(0, Size::L0).unwrap();
        let page = ((a - BEGIN) / PAGE_SIZE as u64) as usize;
        assert!(!seen[page]);
        seen[page] = true;
    }
    assert_eq!(alloc.get(0, Size::L0), Err(Error::Memory));
    assert_eq!(alloc.allocated_pages(), SPAN2);
    for page in 0..SPAN2 {
        assert_eq!(alloc.put(0, BEGIN + (page * PAGE_SIZE) as u64, Size::L0), Ok(()));
    }
    assert_eq!(alloc.allocated_pages(), 0);
    assert!(alloc.is_free(BEGIN, Size::L2));
}

#[test]
fn core_moves_to_another_subtree() {
    let mut alloc = fresh(1, 2);
    let first = alloc.get(0, Size::L0).unwrap();
    let i = ((first - BEGIN) / (SPAN2 * PAGE_SIZE) as u64) as usize;
    for _ in 1..SPAN2 {
        alloc.get(0, Size::L0).unwrap();
    }
    assert_eq!(alloc.subtrees()[i].free, 0);
    assert!(alloc.subtrees()[i].reserved);
    // The subtree is used up: the core lets go of it and takes the other one.
    let next = alloc.get(0, Size::L0).unwrap();
    assert_eq!(((next - BEGIN) / (SPAN2 * PAGE_SIZE) as u64) as usize, 1 - i);
    assert!(!alloc.subtrees()[i].reserved);
    assert!(alloc.subtrees()[1 - i].reserved);
    // Frames that come back make the first subtree worth a look again.
    for page in 0..(4096 + 1) {
        let addr = BEGIN + ((i * SPAN2 + page) * PAGE_SIZE) as u64;
        assert_eq!(alloc.put(0, addr, Size::L0), Ok(()));
    }
    assert_eq!(alloc.subtrees()[i].free, 4097);
    assert_eq!(alloc.allocated_pages(), SPAN2 + 1 - 4097);
}

#[test]
fn recover_after_shutdown() {
    let mut alloc = fresh(2, 2);
    let a = alloc.get(0, Size::L0).unwrap();
    let b = alloc.get(1, Size::L1).unwrap();
    for _ in 0..100 {
        alloc.get(0, Size::L0).unwrap();
    }
    alloc.shutdown();
    assert_eq!(alloc.init(2, BEGIN, 2 * SPAN2 + 1, false), Ok(()));
    assert_eq!(alloc.allocated_pages(), 101 + PT_LEN);
    for e in alloc.subtrees() {
        assert!(!e.reserved);
    }
    assert!(!alloc.is_free(a, Size::L0));
    assert!(!alloc.is_free(b, Size::L1));
    assert_eq!(alloc.put(0, a, Size::L0), Ok(()));
    assert_eq!(alloc.put(0, b, Size::L1), Ok(()));
    assert_eq!(alloc.allocated_pages(), 100);
    // The recovered allocator goes on handing out frames.
    let c = alloc.get(1, Size::L0).unwrap();
    assert!(!alloc.is_free(c, Size::L0));
}

#[test]
fn recover_giant() {
    let mut alloc = fresh(1, 2);
    let a = alloc.get(0, Size::L2).unwrap();
    alloc.shutdown();
    assert_eq!(alloc.init(1, BEGIN, 2 * SPAN2 + 1, false), Ok(()));
    assert_eq!(alloc.allocated_pages(), SPAN2);
    assert_eq!(alloc.put(0, a, Size::L2), Ok(()));
    assert_eq!(alloc.allocated_pages(), 0);
}

#[test]
fn recover_after_crash() {
    let mut alloc = fresh(1, 1);
    let mut pages = Vec::new();
    for _ in 0..10 {
        pages.push(((alloc.get(0, Size::L0).unwrap() - BEGIN) / PAGE_SIZE as u64) as usize);
    }
    // A counter that lost an update, and a leaf bit whose counter was never written.
    let region = alloc.pt2(pages[0]);
    assert_eq!(region.pages, 10);
    alloc.set_pt2(pages[0], nvalloc::entry::Entry2::new_table(9, region.i1));
    alloc.set_pt1(5 * PT_LEN + 3, nvalloc::entry::Entry1::Page);
    // No shutdown: the next start recovers from the leaf tables.
    assert_eq!(alloc.init(1, BEGIN, SPAN2 + 1, false), Ok(()));
    assert_eq!(alloc.pt2(pages[0]).pages, 10);
    assert_eq!(alloc.pt2(5 * PT_LEN).pages, 1);
    assert_eq!(alloc.allocated_pages(), 11);
    assert_eq!(alloc.subtrees()[0].free, SPAN2 - 11);
    // The free count is that of the leaf tables.
    let mut bits = 0;
    for page in 0..SPAN2 {
        bits += (alloc.pt1(page) == nvalloc::entry::Entry1::Page) as usize;
    }
    assert_eq!(bits, 11);
    assert_eq!(alloc.put(0, BEGIN + ((5 * PT_LEN + 3) * PAGE_SIZE) as u64, Size::L0), Ok(()));
}

#[test]
fn recover_rejects_what_contradicts_itself() {
    let mut alloc = fresh(1, 1);
    let a = alloc.get(0, Size::L0).unwrap();
    let page = ((a - BEGIN) / PAGE_SIZE as u64) as usize;
    // The slot of the frame that holds the leaf table is never allocated.
    let i1 = alloc.pt2(page).i1;
    alloc.set_pt1(page - page % PT_LEN + i1, nvalloc::entry::Entry1::Page);
    assert_eq!(alloc.init(1, BEGIN, SPAN2 + 1, false), Err(Error::Corruption));
    assert_eq!(alloc.pages(), 0);
    // Setting up anew is the way out.
    assert_eq!(alloc.init(1, BEGIN, SPAN2 + 1, false), Ok(()));
    assert_eq!(alloc.allocated_pages(), 0);
}

#[test]
fn overwrite_and_resize_set_up_anew() {
    let mut alloc = fresh(1, 2);
    alloc.get(0, Size::L0).unwrap();
    alloc.shutdown();
    assert_eq!(alloc.init(1, BEGIN, 2 * SPAN2 + 1, true), Ok(()));
    assert_eq!(alloc.allocated_pages(), 0);
    alloc.get(0, Size::L0).unwrap();
    alloc.shutdown();
    assert_eq!(alloc.init(1, BEGIN, SPAN2 + 1, false), Ok(()));
    assert_eq!(alloc.pages(), SPAN2);
    assert_eq!(alloc.allocated_pages(), 0);
}

#[test]
fn held_subtrees_are_not_shared() {
    let mut alloc = fresh(2, 2);
    let a = alloc.get(0, Size::L0).unwrap();
    let b = alloc.get(0, Size::L1).unwrap();
    // Core 0 holds both subtrees, so core 1 finds none, though frames are free.
    assert_eq!(alloc.get(1, Size::L0), Err(Error::Memory));
    assert_eq!(alloc.allocated_pages(), 1 + PT_LEN);
    assert_eq!(alloc.put(1, a, Size::L0), Ok(()));
    assert_eq!(alloc.put(1, b, Size::L1), Ok(()));
    assert_eq!(alloc.get(1, Size::L0), Err(Error::Memory));
    assert!(alloc.subtrees().iter().all(|e| e.reserved && e.free == SPAN2));
}

#[test]
fn first_units() {
    let mut alloc = fresh(2, 2);
    let frame = |page: usize| BEGIN + (page * PAGE_SIZE) as u64;
    // The topmost free subtree is the last one; slot 0 of a region holds its leaf table.
    assert_eq!(alloc.get(0, Size::L0), Ok(frame(SPAN2 + 1)));
    assert_eq!(alloc.get(0, Size::L0), Ok(frame(SPAN2 + 2)));
    assert_eq!(alloc.get(1, Size::L0), Ok(frame(1)));
    // Freed frames are found again only when the search comes round.
    assert_eq!(alloc.put(0, frame(SPAN2 + 1), Size::L0), Ok(()));
    assert_eq!(alloc.get(0, Size::L0), Ok(frame(SPAN2 + 3)));

    let mut alloc = fresh(1, 3);
    assert_eq!(alloc.get(0, Size::L2), Ok(frame(2 * SPAN2)));
    assert_eq!(alloc.get(0, Size::L1), Ok(frame(SPAN2)));
    assert_eq!(alloc.get(0, Size::L1), Ok(frame(SPAN2 + PT_LEN)));
    assert_eq!(alloc.get(0, Size::L0), Ok(frame(1)));
}

#[test]
fn freed_subtree_is_listed_again() {
    let mut alloc = fresh(1, 2);
    let frame = |page: usize| BEGIN + (page * PAGE_SIZE) as u64;
    // Use up the last subtree, then go on in the first one.
    for _ in 0..SPAN2 {
        alloc.get(0, Size::L0).unwrap();
    }
    assert_eq!(alloc.get(0, Size::L0), Ok(frame(1)));
    // 4096 free frames are not worth a look, 4097 are.
    for page in 0..4096 {
        assert_eq!(alloc.put(0, frame(SPAN2 + page), Size::L0), Ok(()));
    }
    for _ in 1..SPAN2 {
        alloc.get(0, Size::L0).unwrap();
    }
    assert_eq!(alloc.get(0, Size::L0), Err(Error::Memory));
    assert_eq!(alloc.put(0, frame(SPAN2 + 4096), Size::L0), Ok(()));
    let a = alloc.get(0, Size::L0).unwrap();
    assert!(a >= frame(SPAN2));
}
