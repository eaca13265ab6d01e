use nvalloc::entry::{Entry1, Entry2};
use nvalloc::leaf_alloc::{count_pte2, LeafAllocator};
use nvalloc::table::PT_LEN;
use nvalloc::{Error, Size};

const SPAN2: usize = PT_LEN * PT_LEN;

fn count(alloc: &LeafAllocator, region_start: usize) -> usize {
    let mut pages = 0;
    for i in 0..PT_LEN {
        pages += (alloc.pt1(region_start + i) == Entry1::Page) as usize;
    }
    pages
}

/// The cores in the order in which they first take a step.
fn core_order(order: &[usize]) -> Vec<usize> {
    let mut cores = Vec::new();
    for c in order {
        if !cores.contains(c) {
            cores.push(*c);
        }
    }
    for c in 0..2 {
        if !cores.contains(&c) {
            cores.push(c);
        }
    }
    cores
}

#[test]
fn alloc_normal() {
    let orders = [
        vec![0, 0, 0, 1, 1, 1],
        vec![0, 0, 1, 1, 1, 0, 0],
        vec![1, 1, 0, 0, 0, 1, 1],
        vec![1, 0, 1, 0, 1, 0, 0],
    ];

    for order in orders {
        println!("order: {:?}", order);
        let mut alloc = LeafAllocator::new(2, 0, 4 * SPAN2);
        alloc.get(0, 0).unwrap();

        for t in core_order(&order) {
            let page = alloc.get(t, 0).unwrap();
            assert!(page != 0);
        }

        assert_eq!(alloc.pt2(0).pages, 3);
        assert_eq!(count(&alloc, 0), 3);
    }
}

#[test]
fn alloc_first() {
    let orders = [
        vec![0, 0, 0, 1, 1, 1],
        vec![0, 1, 1, 0, 0, 1, 1],
        vec![0, 1, 0, 1, 0, 1, 1],
        vec![0, 1, 1, 1, 0, 0],
    ];

    for order in orders {
        println!("order: {:?}", order);
        let mut alloc = LeafAllocator::new(2, 0, 4 * SPAN2);

        for t in core_order(&order) {
            alloc.get(t, 0).unwrap();
        }

        assert_eq!(alloc.pt2(0).pages, 2);
        assert_eq!(count(&alloc, 0), 2);
    }
}

#[test]
fn alloc_last() {
    let orders = [
        vec![0, 0, 0, 1, 1, 1, 1],
        vec![0, 0, 1, 1, 0, 1, 1, 0],
        vec![1, 0, 0, 1, 1, 1, 1, 0],
        vec![1, 1, 0, 1, 0, 0, 0],
    ];

    for order in orders {
        println!("order: {:?}", order);
        let mut alloc = LeafAllocator::new(2, 0, 4 * SPAN2);
        for _ in 0..PT_LEN - 1 {
            alloc.get(0, 0).unwrap();
        }

        for t in core_order(&order) {
            alloc.get(t, 0).unwrap();
        }

        assert_eq!(alloc.pt2(0).pages, PT_LEN);
        assert_eq!(alloc.pt2(PT_LEN).pages, 1);
        assert_eq!(count(&alloc, PT_LEN), 1);
    }
}

#[test]
fn free_normal() {
    let orders = [
        vec![0, 0, 0, 0, 1, 1, 1, 1],
        vec![0, 1, 0, 1, 0, 1, 0, 1],
        vec![0, 0, 1, 1, 1, 1, 0, 0],
    ];

    let mut pages = [0; 2];

    for order in orders {
        println!("order: {:?}", order);
        let mut alloc = LeafAllocator::new(2, 0, 4 * SPAN2);
        pages[0] = alloc.get(0, 0).unwrap();
        pages[1] = alloc.get(0, 0).unwrap();

        for t in core_order(&order) {
            match alloc.put(pages[t]) {
                Err(Error::Retry) => {
                    alloc.put(pages[t]).unwrap();
                }
                Err(e) => panic!("{:?}", e),
                Ok(_) => {}
            }
        }

        assert_eq!(alloc.pt2(0).pages, 0);
    }
}

#[test]
fn free_last() {
    let orders = [
        vec![0, 0, 1, 1, 1, 1],
        vec![0, 1, 0, 1, 1, 1, 1, 1],
        vec![0, 1, 1, 0, 0, 0, 0, 0],
    ];

    let mut pages = [0; PT_LEN];

    for order in orders {
        println!("order: {:?}", order);
        let mut alloc = LeafAllocator::new(2, 0, 4 * SPAN2);
        for page in &mut pages {
            *page = alloc.get(0, 0).unwrap();
        }

        for t in core_order(&order) {
            match alloc.put(pages[t]) {
                Err(Error::Retry) => {
                    alloc.put(pages[t]).unwrap();
                }
                Err(e) => panic!("{:?}", e),
                Ok(_) => {}
            }
        }

        assert_eq!(alloc.pt2(0).pages, PT_LEN - 2);
        assert_eq!(count(&alloc, 0), PT_LEN - 2);
    }
}

#[test]
fn last_frame_holds_the_table() {
    let mut alloc = LeafAllocator::new(2, 0, SPAN2);
    let mut pages = Vec::new();
    for _ in 0..PT_LEN - 1 {
        pages.push(alloc.get(0, 0).unwrap());
    }
    // The table's own frame is the one that is left.
    assert!(!pages.contains(&0));
    assert_eq!(alloc.get(1, 0), Ok(0));
    assert_eq!(alloc.pt2(0).pages, PT_LEN);

    // The next frame to be freed takes the table over.
    assert_eq!(alloc.put(17), Ok(Size::L0));
    let pte2 = alloc.pt2(0);
    assert_eq!(pte2, Entry2::new_table(PT_LEN - 1, 17));
    assert_eq!(count(&alloc, 0), PT_LEN - 1);
    assert_eq!(alloc.pt1(17), Entry1::Empty);
    // Its frame is handed out again only as the last one.
    assert_eq!(alloc.get(0, 0), Ok(17));
}

#[test]
fn get_searches_from_start() {
    let mut alloc = LeafAllocator::new(1, 0, SPAN2);
    assert_eq!(alloc.get(0, 5), Ok(5));
    assert_eq!(alloc.get(0, 5), Ok(6));
    assert_eq!(alloc.get(0, 511), Ok(511));
    assert_eq!(alloc.get(0, 511), Ok(1));
    assert_eq!(alloc.get(0, PT_LEN * 3 + 2), Ok(PT_LEN * 3 + 2));
}

#[test]
fn put_rejects_what_is_not_allocated() {
    let mut alloc = LeafAllocator::new(1, 0, SPAN2);
    assert_eq!(alloc.put(3), Err(Error::Address));
    let page = alloc.get(0, 0).unwrap();
    assert_eq!(alloc.put(page + 1), Err(Error::Address));
    assert_eq!(alloc.put(page), Ok(Size::L0));
    assert_eq!(alloc.put(page), Err(Error::Address));
    assert_eq!(alloc.pt2(0).pages, 0);
}

#[test]
fn huge_regions() {
    let mut alloc = LeafAllocator::new(1, 0, SPAN2);
    assert_eq!(alloc.get(0, 0), Ok(1));
    assert_eq!(alloc.get_huge(0), Ok(PT_LEN));
    assert_eq!(alloc.get_huge(0), Ok(2 * PT_LEN));
    assert_eq!(alloc.put(PT_LEN + 1), Err(Error::Address));
    assert_eq!(alloc.put(PT_LEN), Ok(Size::L1));
    assert_eq!(alloc.pt2(PT_LEN), Entry2::new());
    assert_eq!(alloc.recover(0, false), Err(Error::Corruption));
    assert_eq!(alloc.put(1), Ok(Size::L0));
    assert_eq!(alloc.recover(0, false), Ok((PT_LEN, Size::L1)));
}

#[test]
fn huge_fills_subtree() {
    let mut alloc = LeafAllocator::new(1, 0, SPAN2);
    for i in 0..PT_LEN {
        assert_eq!(alloc.get_huge(0), Ok(i * PT_LEN));
    }
    assert_eq!(alloc.get_huge(0), Err(Error::Corruption));
    assert_eq!(alloc.get(0, 0), Err(Error::Corruption));
    assert_eq!(alloc.recover(0, true), Ok((SPAN2, Size::L1)));
}

#[test]
fn giant_mark() {
    let mut alloc = LeafAllocator::new(1, 0, 2 * SPAN2);
    alloc.persist(SPAN2);
    assert!(alloc.pt2(SPAN2).giant);
    assert_eq!(alloc.recover(SPAN2, false), Ok((SPAN2, Size::L2)));
    assert_eq!(alloc.recover(0, false), Ok((0, Size::L0)));
    alloc.clear_giant(SPAN2);
    assert_eq!(alloc.pt2(SPAN2), Entry2::new());
    assert_eq!(alloc.recover(SPAN2, true), Ok((0, Size::L0)));
}

#[test]
fn deep_recovery_counts_the_leaves() {
    let mut alloc = LeafAllocator::new(1, 0, SPAN2);
    for _ in 0..5 {
        alloc.get(0, 0).unwrap();
    }
    alloc.get(0, PT_LEN).unwrap();
    // A counter that lost two of its updates.
    alloc.set_pt2(0, Entry2::new_table(3, 0));
    // A leaf bit whose counter update was lost altogether.
    alloc.set_pt1(2 * PT_LEN + 9, Entry1::Page);
    assert_eq!(alloc.recover(0, true), Ok((7, Size::L0)));
    assert_eq!(alloc.pt2(0).pages, 5);
    assert_eq!(alloc.pt2(PT_LEN).pages, 1);
    assert_eq!(alloc.pt2(2 * PT_LEN).pages, 1);
    assert_eq!(alloc.recover(0, false), Ok((7, Size::L0)));
}

#[test]
fn deep_recovery_rejects_a_used_table_slot() {
    let mut alloc = LeafAllocator::new(1, 0, SPAN2);
    alloc.get(0, 0).unwrap();
    alloc.set_pt1(0, Entry1::Page);
    assert_eq!(alloc.recover(0, true), Err(Error::Corruption));
    assert_eq!(alloc.pt2(0).pages, 1);
}

#[test]
fn new_cuts_to_whole_regions() {
    let alloc = LeafAllocator::new(3, 0x1000, 2 * PT_LEN + 5);
    assert_eq!(alloc.pages(), 2 * PT_LEN);
    assert_eq!(alloc.begin(), 0x1000);
    assert_eq!(alloc.dump(0).len(), 2);
}

#[test]
fn clear_frees_everything() {
    let mut alloc = LeafAllocator::new(1, 0, SPAN2);
    alloc.get(0, 0).unwrap();
    alloc.get_huge(PT_LEN).unwrap();
    alloc.clear();
    assert_eq!(alloc.recover(0, true), Ok((0, Size::L0)));
    assert_eq!(alloc.dump(0), vec![Entry2::new(); PT_LEN]);
}

#[test]
fn region_classes() {
    assert_eq!(count_pte2(Entry2::new()), 4);
    assert_eq!(count_pte2(Entry2::new_table(1, 0)), 4);
    assert_eq!(count_pte2(Entry2::new_table(2, 0)), 4);
    assert_eq!(count_pte2(Entry2::new_table(3, 0)), 3);
    assert_eq!(count_pte2(Entry2::new_table(172, 0)), 3);
    assert_eq!(count_pte2(Entry2::new_table(173, 0)), 2);
    assert_eq!(count_pte2(Entry2::new_table(343, 0)), 1);
    assert_eq!(count_pte2(Entry2::new_table(511, 0)), 1);
    assert_eq!(count_pte2(Entry2::new_table(512, 0)), 0);
    assert_eq!(count_pte2(Entry2::new().mark_huge().unwrap()), 0);

    let mut alloc = LeafAllocator::new(1, 0, 4 * PT_LEN);
    assert_eq!(alloc.stats(), vec![0, 0, 0, 0, 4]);
    for _ in 0..PT_LEN + 3 {
        alloc.get(0, 0).unwrap();
    }
    alloc.get_huge(2 * PT_LEN).unwrap();
    assert_eq!(alloc.stats(), vec![2, 0, 0, 1, 1]);
}
