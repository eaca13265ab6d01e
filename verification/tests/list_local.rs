use nvalloc::list_local::{ListLocalAlloc, Local, Node, END};
use nvalloc::{Error, Size, PAGE_SIZE};

const BEGIN: u64 = 0x4000_0000;

fn addr(page: usize) -> u64 {
    BEGIN + (page * PAGE_SIZE) as u64
}

#[test]
fn list_init_rejects_unusable_ranges() {
    let mut alloc = ListLocalAlloc::new();
    assert_eq!(alloc.init(0, BEGIN, 4096, true), Err(Error::Initialization));
    assert_eq!(alloc.init(3, BEGIN, 3071, true), Err(Error::Initialization));
    assert_eq!(alloc.init(1, u64::MAX - 4096, 1024, true), Err(Error::Initialization));
    assert_eq!(alloc.pages(), 0);
    assert_eq!(alloc.init(3, BEGIN, 3073, true), Ok(()));
    // What cannot be dealt out evenly is not used.
    assert_eq!(alloc.pages(), 3072);
    assert_eq!(alloc.allocated_pages(), 0);
}

#[test]
fn list_deals_frames_to_cores() {
    let mut alloc = ListLocalAlloc::new();
    alloc.init(2, BEGIN, 2048, true).unwrap();
    assert_eq!(alloc.get(0, Size::L0), Ok(addr(0)));
    assert_eq!(alloc.get(0, Size::L0), Ok(addr(1)));
    assert_eq!(alloc.get(1, Size::L0), Ok(addr(1024)));
    assert_eq!(alloc.get(1, Size::L0), Ok(addr(1025)));
    assert_eq!(alloc.allocated_pages(), 4);
}

#[test]
fn list_serves_single_frames_only() {
    let mut alloc = ListLocalAlloc::new();
    alloc.init(1, BEGIN, 1024, true).unwrap();
    assert_eq!(alloc.get(0, Size::L1), Err(Error::Memory));
    assert_eq!(alloc.get(0, Size::L2), Err(Error::Memory));
    assert_eq!(alloc.allocated_pages(), 0);
}

#[test]
fn list_core_runs_out_alone() {
    let mut alloc = ListLocalAlloc::new();
    alloc.init(2, BEGIN, 2048, true).unwrap();
    for page in 0..1024 {
        assert_eq!(alloc.get(0, Size::L0), Ok(addr(page)));
    }
    // The other core's frames are of no use to this one.
    assert_eq!(alloc.get(0, Size::L0), Err(Error::Memory));
    assert_eq!(alloc.allocated_pages(), 1024);
    assert_eq!(alloc.get(1, Size::L0), Ok(addr(1024)));
}

#[test]
fn list_put_moves_frames_between_cores() {
    let mut alloc = ListLocalAlloc::new();
    alloc.init(2, BEGIN, 2048, true).unwrap();
    let a = alloc.get(0, Size::L0).unwrap();
    let b = alloc.get(0, Size::L0).unwrap();
    assert_eq!(alloc.put(1, a), Ok(()));
    assert_eq!(alloc.put(1, b), Ok(()));
    assert_eq!(alloc.allocated_pages(), 0);
    // Last in, first out.
    assert_eq!(alloc.get(1, Size::L0), Ok(b));
    assert_eq!(alloc.get(1, Size::L0), Ok(a));
    assert_eq!(alloc.get(1, Size::L0), Ok(addr(1024)));
    assert_eq!(alloc.allocated_pages(), 3);
    // Core 1 has taken three frames and put two: it may free what core 0 took.
    for _ in 0..1022 {
        alloc.get(0, Size::L0).unwrap();
    }
    assert_eq!(alloc.get(0, Size::L0), Err(Error::Memory));
    assert_eq!(alloc.allocated_pages(), 1025);
}

#[test]
fn list_rejects_invalid_frees() {
    let mut alloc = ListLocalAlloc::new();
    alloc.init(1, BEGIN, 1024, true).unwrap();
    let a = alloc.get(0, Size::L0).unwrap();
    assert_eq!(alloc.put(0, a + 1), Err(Error::Address));
    assert_eq!(alloc.put(0, BEGIN - PAGE_SIZE as u64), Err(Error::Address));
    assert_eq!(alloc.put(0, addr(1024)), Err(Error::Address));
    assert_eq!(alloc.put(0, addr(5)), Err(Error::Address));
    assert_eq!(alloc.allocated_pages(), 1);
    assert_eq!(alloc.put(0, a), Ok(()));
    assert_eq!(alloc.put(0, a), Err(Error::Address));
    assert_eq!(alloc.allocated_pages(), 0);
    assert_eq!(alloc.get(0, Size::L0), Ok(a));
}

#[test]
fn list_nodes() {
    let mut node = Node::new();
    assert_eq!(node.get(), END);
    node.set(7);
    assert_eq!(node.get(), 7);
    let _ = Local::new();
}
