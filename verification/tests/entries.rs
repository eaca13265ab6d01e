use nvalloc::atomic::AtomicValue;
use nvalloc::entry;
use nvalloc::free_entry::{Change, Entry, Entry1, Entry2, Entry3, SmallEntry2};
use nvalloc::llc::to_result;
use nvalloc::{Error, Size};

const SPAN: usize = 512 * 512;

#[test]
fn change_kinds() {
    assert_eq!(Change::p_inc(false), Change::IncPartialL0);
    assert_eq!(Change::p_inc(true), Change::IncPartialL1);
    assert_eq!(Change::p_dec(false), Change::DecPartialL0);
    assert_eq!(Change::p_dec(true), Change::DecPartialL1);
}

#[test]
fn subtree_counters() {
    let e = Entry { empty: 2, partial_l0: 1, partial_l1: 0 };
    assert_eq!(e.dec_partial(false), Some(Entry { empty: 2, partial_l0: 0, partial_l1: 0 }));
    assert_eq!(e.dec_partial(true), None);
    assert_eq!(e.dec_empty(), Some(Entry { empty: 1, partial_l0: 1, partial_l1: 0 }));
    assert_eq!(Entry::new().dec_empty(), None);
    assert_eq!(e.change(Change::Unchanged), None);
    assert_eq!(e.change(Change::IncEmpty), Some(Entry { empty: 3, ..e }));
    assert_eq!(e.change(Change::IncPartialL0), Some(Entry { partial_l0: 2, ..e }));
    assert_eq!(e.change(Change::IncPartialL1), Some(Entry { partial_l1: 1, ..e }));
    assert_eq!(e.change(Change::DecPartialL0), Some(Entry { empty: 3, partial_l0: 0, partial_l1: 0 }));
    assert_eq!(e.change(Change::DecPartialL1), None);
    let top = Entry { empty: 0xf_ffff, partial_l0: 1, partial_l1: 0 };
    assert_eq!(top.change(Change::IncEmpty), None);
    assert_eq!(top.change(Change::DecPartialL0), None);
}

#[test]
fn subtree_descriptor_dec_and_inc() {
    let full = Entry3::empty(SPAN);
    assert_eq!(full, Entry3 { free: SPAN, idx: 0, reserved: false, huge: false });
    assert_eq!(
        full.dec(1, SPAN),
        Some(Entry3 { free: SPAN - 1, idx: 0, reserved: true, huge: false })
    );
    assert_eq!(
        full.dec(512, SPAN),
        Some(Entry3 { free: SPAN - 512, idx: 0, reserved: true, huge: true })
    );
    let small = Entry3::new_table(100, Size::L0, false);
    assert_eq!(small.dec(512, SPAN), None);
    assert_eq!(small.dec(1, SPAN).unwrap().free, 99);
    assert_eq!(Entry3::new_table(0, Size::L0, true).dec(1, SPAN), None);
    let huge = Entry3::new_table(1024, Size::L1, true);
    assert!(huge.huge && huge.reserved);
    assert_eq!(huge.dec(1, SPAN), None);

    assert_eq!(small.inc(1, SPAN).unwrap().free, 101);
    assert_eq!(small.inc(512, SPAN), None);
    assert_eq!(huge.inc(512, SPAN).unwrap().free, 1536);
    let last = Entry3::new_table(SPAN - 512, Size::L1, false);
    // Reaching the top, the subtree serves regions no longer.
    assert_eq!(last.inc(512, SPAN), Some(Entry3::empty(SPAN)));
    assert_eq!(full.inc(1, SPAN), None);
    assert_eq!(small.inc(usize::MAX, SPAN), None);
    let linked = Entry3 { idx: 7, ..small };
    assert_eq!(linked.inc_idx(1, 7, SPAN).unwrap().free, 101);
    assert_eq!(linked.inc_idx(1, 8, SPAN), None);
}

#[test]
fn subtree_descriptor_reserve() {
    let full = Entry3::empty(SPAN);
    let taken = Entry3 { free: 0, idx: 0, reserved: true, huge: false };
    assert_eq!(full.reserve(1, SPAN), Some(taken));
    assert_eq!(full.reserve(512, SPAN), Some(Entry3 { huge: true, ..taken }));
    assert_eq!(taken.reserve(1, SPAN), None);
    let part = Entry3::new_table(5000, Size::L0, false);
    assert_eq!(part.reserve(1, SPAN), Some(taken));
    assert_eq!(part.reserve(512, SPAN), None);
    assert_eq!(part.reserve_partial(false, 4096, SPAN), Some(taken));
    assert_eq!(part.reserve_partial(true, 4096, SPAN), None);
    assert_eq!(part.reserve_partial(false, 5000, SPAN), None);
    assert_eq!(full.reserve_partial(false, 4096, SPAN), None);
    assert_eq!(full.reserve_empty(true, SPAN), Some(Entry3 { huge: true, ..taken }));
    assert_eq!(part.reserve_empty(false, SPAN), None);
    assert_eq!(taken.unreserve(), Some(Entry3::new()));
    assert_eq!(full.unreserve(), None);
}

#[test]
fn subtree_descriptor_unreserve_add() {
    let held = Entry3 { free: 10, idx: 3, reserved: true, huge: false };
    let own = Entry3::new_table(20, Size::L0, true);
    assert_eq!(
        held.unreserve_add(false, own, SPAN, SPAN),
        Some(Entry3 { free: 30, idx: 3, reserved: false, huge: false })
    );
    assert_eq!(held.unreserve_add(true, own, SPAN, SPAN), None);
    assert_eq!(held.unreserve_add(false, own, 29, SPAN), None);
    assert_eq!(Entry3::new().unreserve_add(false, own, SPAN, SPAN), None);
    let h = Entry3 { free: 512, idx: 0, reserved: true, huge: true };
    let o = Entry3::new_table(SPAN - 512, Size::L1, true);
    // The sum is the whole subtree: it serves regions no longer.
    assert_eq!(h.unreserve_add(true, o, SPAN, SPAN), Some(Entry3::empty(SPAN)));
}

#[test]
fn region_descriptor() {
    let e = Entry2::new_table(512, 0);
    assert_eq!(e.mark_huge(512), Some(Entry2 { free: 0, i1: 0, page: true }));
    assert_eq!(e.dec(0), Some(Entry2 { free: 511, i1: 0, page: false }));
    assert_eq!(e.dec(1), None);
    assert_eq!(Entry2::new().dec(0), None);
    assert_eq!(e.inc(512), None);
    let part = Entry2::new_table(5, 3);
    assert_eq!(part.mark_huge(512), None);
    assert_eq!(part.inc(512), Some(Entry2::new_table(6, 3)));
    assert_eq!(part.inc_partial(3, 512), Some(Entry2::new_table(6, 3)));
    assert_eq!(part.inc_partial(2, 512), None);
    assert_eq!(Entry2::new().inc_partial(0, 512), None);
    assert_eq!(Entry2::new().inc(512), Some(Entry2::new_table(1, 0)));
    let page = Entry2 { free: 0, i1: 0, page: true };
    assert_eq!(page.inc(512), None);
    assert_eq!(page.dec(0), None);
    assert_eq!(page.mark_huge(0), None);
}

#[test]
fn small_region_descriptor() {
    let e = SmallEntry2::new_table(512);
    assert_eq!(e.mark_huge(512), Some(SmallEntry2 { free: 0, page: true }));
    assert_eq!(e.dec(), Some(SmallEntry2::new_table(511)));
    assert_eq!(SmallEntry2::new().dec(), None);
    assert_eq!(e.inc(512), None);
    assert_eq!(SmallEntry2::new_table(7).inc(512), Some(SmallEntry2::new_table(8)));
    assert_eq!(SmallEntry2::new().inc_partial(512), None);
    assert_eq!(SmallEntry2::new_table(7).inc_partial(512), Some(SmallEntry2::new_table(8)));
    assert_eq!(SmallEntry2 { free: 0, page: true }.inc(512), None);
    assert_eq!(e.into_bits(), 512);
    assert_eq!(SmallEntry2 { free: 3, page: true }.into_bits(), 0x8003);
    assert_eq!(SmallEntry2::from_bits(0x8003), SmallEntry2 { free: 3, page: true });
}

#[test]
fn packing() {
    let e3 = Entry3 { free: 0x1234, idx: 0x56, reserved: true, huge: false };
    assert_eq!(e3.into_bits(), 0x1234 | (0x56 << 20) | (1 << 62));
    assert_eq!(Entry3::from_bits(e3.into_bits()), e3);
    assert_eq!(Entry3::from_bits(1 << 63), Entry3 { free: 0, idx: 0, reserved: false, huge: true });
    let e2 = Entry2 { free: 300, i1: 511, page: true };
    assert_eq!(e2.into_bits(), 300 | (511 << 54) | (1 << 63));
    assert_eq!(Entry2::from_bits(e2.into_bits()), e2);
    let e = Entry { empty: 1, partial_l0: 2, partial_l1: 3 };
    assert_eq!(e.into_bits(), 1 | (2 << 20) | (3 << 40));
    assert_eq!(Entry::from_bits(e.into_bits()), e);
    assert_eq!(Entry1::from_bits(0), Entry1::Empty);
    assert_eq!(Entry1::from_bits(1), Entry1::Page);
    assert_eq!(Entry1::from_bits(42), Entry1::Page);
    assert_eq!(Entry1::Page.into_bits(), 1);
    assert_eq!(Entry1::Empty.into_bits(), 0);

    let o3 = entry::Entry3 { pages: 77, size_n: 2, reserved: true, idx: 9 };
    assert_eq!(o3.into_bits(), 77 | (2 << 20) | (1 << 22) | (9 << 23));
    assert_eq!(entry::Entry3::from_bits(o3.into_bits()), o3);
    let o2 = entry::Entry2 { pages: 512, i1: 100, page: false, giant: true };
    assert_eq!(o2.into_bits(), 512 | (100 << 10) | (1 << 20));
    assert_eq!(entry::Entry2::from_bits(o2.into_bits()), o2);
    assert_eq!(entry::Entry2::from_bits(0), entry::Entry2::new());
    let o = entry::Entry { full: 4, partial_l0: 5, partial_l1: 6 };
    assert_eq!(entry::Entry::from_bits(o.into_bits()), o);
    assert_eq!(entry::Entry1::from_bits(1), entry::Entry1::Page);
    assert_eq!(entry::Entry1::Empty.into_bits(), 0);
}

#[test]
fn allocated_counters() {
    let e = entry::Entry { full: 1, partial_l0: 2, partial_l1: 0 };
    assert_eq!(e.reserve_partial(Size::L0, 4), Some(entry::Entry { full: 2, partial_l0: 1, partial_l1: 0 }));
    assert_eq!(e.reserve_partial(Size::L1, 4), None);
    assert_eq!(e.reserve_partial(Size::L2, 4), None);
    assert_eq!(e.reserve_partial(Size::L0, 1), None);
    assert_eq!(e.inc_full(2), Some(entry::Entry { full: 2, ..e }));
    assert_eq!(e.inc_full(1), None);
    assert_eq!(e.dec(entry::Dec::Unchanged), None);
    assert_eq!(e.dec(entry::Dec::Full), Some(entry::Entry { full: 0, ..e }));
    assert_eq!(e.dec(entry::Dec::PartialL0), Some(entry::Entry { partial_l0: 1, ..e }));
    assert_eq!(e.dec(entry::Dec::PartialL1), None);
    assert_eq!(e.dec(entry::Dec::FullPartialL0), Some(entry::Entry { full: 0, partial_l0: 3, partial_l1: 0 }));
    assert_eq!(e.dec(entry::Dec::FullPartialL1), Some(entry::Entry { full: 0, partial_l0: 2, partial_l1: 1 }));
    assert_eq!(entry::Entry::new().dec(entry::Dec::FullPartialL0), None);
}

#[test]
fn allocated_subtree_descriptor() {
    let none = entry::Entry3::new();
    assert_eq!(none.size(), None);
    assert_eq!(entry::Entry3::new_giant().size(), Some(Size::L2));
    assert_eq!(entry::Entry3::new_table(5, Size::L0, false).size(), Some(Size::L0));
    assert_eq!(entry::Entry3::new_table(512, Size::L1, true).size(), Some(Size::L1));

    assert_eq!(none.inc(Size::L0, SPAN), Some(entry::Entry3::new_table(1, Size::L0, true)));
    assert_eq!(none.inc(Size::L1, SPAN), Some(entry::Entry3::new_table(512, Size::L1, true)));
    assert_eq!(none.inc(Size::L1, 511), None);
    assert_eq!(entry::Entry3::new_giant().inc(Size::L0, SPAN), None);
    assert_eq!(entry::Entry3::new_table(5, Size::L0, false).inc(Size::L1, SPAN), None);
    assert_eq!(entry::Entry3::new_table(SPAN, Size::L0, false).inc(Size::L0, SPAN), None);
    assert_eq!(entry::Entry3::new_table(5, Size::L0, true).inc_reserve(Size::L0, SPAN), None);
    assert_eq!(
        entry::Entry3::new_table(5, Size::L0, false).inc_reserve(Size::L0, SPAN),
        Some(entry::Entry3::new_table(6, Size::L0, true))
    );

    assert_eq!(entry::Entry3::new_table(5, Size::L0, false).dec(Size::L0), Some(entry::Entry3::new_table(4, Size::L0, false)));
    assert_eq!(entry::Entry3::new_table(1, Size::L0, false).dec(Size::L0), Some(none));
    assert_eq!(entry::Entry3::new_table(5, Size::L0, false).dec(Size::L1), None);
    assert_eq!(entry::Entry3::new_table(511, Size::L1, false).dec(Size::L1), None);
    assert_eq!(entry::Entry3::new_giant().dec(Size::L2), None);
    let linked = entry::Entry3 { idx: 4, ..entry::Entry3::new_table(5, Size::L0, false) };
    assert_eq!(linked.dec_idx(Size::L0, 4).unwrap().pages, 4);
    assert_eq!(linked.dec_idx(Size::L0, 5), None);

    assert_eq!(none.reserve(Size::L0, SPAN), Some(entry::Entry3 { reserved: true, ..none }));
    assert_eq!(entry::Entry3::new_table(SPAN, Size::L0, false).reserve(Size::L0, SPAN), None);
    assert_eq!(none.reserve_fill(Size::L1, SPAN + 5), Some(entry::Entry3::new_table(SPAN, Size::L1, true)));
    assert_eq!(none.reserve_fill(Size::L0, 100), Some(entry::Entry3::new_table(100, Size::L0, true)));
    assert_eq!(none.reserve_fill(Size::L1, 100), None);
    assert_eq!(none.reserve_inc_partial(Size::L0, SPAN), None);
    assert_eq!(
        entry::Entry3::new_table(5, Size::L0, false).reserve_inc_partial(Size::L0, SPAN),
        Some(entry::Entry3::new_table(6, Size::L0, true))
    );
    assert_eq!(none.reserve_inc_empty(Size::L1, SPAN), Some(entry::Entry3::new_table(512, Size::L1, true)));
    assert_eq!(entry::Entry3::new_table(5, Size::L0, false).reserve_inc_empty(Size::L0, SPAN), None);
    assert_eq!(none.reserve_inc_empty(Size::L1, 100), None);

    let held = entry::Entry3 { idx: 8, ..entry::Entry3::new_table(SPAN, Size::L0, true) };
    assert_eq!(held.unreserve(), Some(entry::Entry3::new_table(SPAN, Size::L0, false)));
    assert_eq!(none.unreserve(), None);
    assert_eq!(entry::Entry3 { reserved: true, ..entry::Entry3::new_giant() }.unreserve(), None);
    // The held entry was filled to the top; the core used 100 of 300 frames that were left.
    let filled = entry::Entry3::new_table(SPAN, Size::L0, true);
    let start = entry::Entry3::new_table(SPAN - 300, Size::L0, true);
    let own = entry::Entry3::new_table(SPAN - 200, Size::L0, true);
    assert_eq!(start.unreserve_sub(own, SPAN), Some(entry::Entry3::new_table(SPAN - 500, Size::L0, false)));
    assert_eq!(filled.unreserve_sub(own, SPAN), Some(entry::Entry3::new_table(SPAN - 200, Size::L0, false)));
    assert_eq!(start.unreserve_sub(entry::Entry3::new_table(10, Size::L0, true), SPAN), None);
    assert_eq!(start.unreserve_sub(entry::Entry3::new_table(SPAN, Size::L1, true), SPAN), None);
}

#[test]
fn allocated_region_descriptor() {
    let none = entry::Entry2::new();
    assert_eq!(none.mark_huge(), Some(entry::Entry2 { pages: 0, i1: 0, page: true, giant: false }));
    assert_eq!(entry::Entry2::new_table(1, 0).mark_huge(), None);
    assert_eq!(entry::Entry2::new_table(0, 7).mark_huge(), Some(entry::Entry2 { pages: 0, i1: 0, page: true, giant: false }));
    assert_eq!(none.inc(0), Some(entry::Entry2::new_table(1, 0)));
    assert_eq!(none.inc(1), None);
    assert_eq!(entry::Entry2::new_table(511, 3).inc(3), Some(entry::Entry2::new_table(512, 3)));
    assert_eq!(entry::Entry2::new_table(512, 3).inc(3), None);
    assert_eq!(entry::Entry2::new_table(5, 3).dec(3), Some(entry::Entry2::new_table(4, 3)));
    assert_eq!(entry::Entry2::new_table(5, 3).dec(2), None);
    assert_eq!(none.dec(0), None);
    // A full region is freed another way.
    assert_eq!(entry::Entry2::new_table(512, 3).dec(3), None);
    let giant = entry::Entry2 { pages: 0, i1: 0, page: false, giant: true };
    assert_eq!(giant.inc(0), None);
    assert_eq!(giant.mark_huge(), None);
}

#[test]
fn return_codes() {
    assert_eq!(to_result(0), Ok(0));
    assert_eq!(to_result(4096), Ok(4096));
    assert_eq!(to_result(i64::MAX), Ok(i64::MAX as u64));
    assert_eq!(to_result(-1), Err(Error::Memory));
    assert_eq!(to_result(-2), Err(Error::Retry));
    assert_eq!(to_result(-3), Err(Error::Address));
    assert_eq!(to_result(-4), Err(Error::Initialization));
    assert_eq!(to_result(-5), Err(Error::Corruption));
}

#[test]
fn size_spans() {
    assert_eq!(Size::L0.span(), 1);
    assert_eq!(Size::L1.span(), 512);
    assert_eq!(Size::L2.span(), 512 * 512);
    assert_eq!(nvalloc::table::span(3), 512 * 512 * 512);
    assert_eq!(nvalloc::table::idx(1, 1000), 1000 % 512);
    assert_eq!(nvalloc::table::idx(2, 1000), 1);
    assert_eq!(nvalloc::table::round(1, 1000), 512);
    assert_eq!(nvalloc::table::round(2, 1000), 0);
    assert_eq!(nvalloc::table::page(1, 1000, 5), 517);
    assert_eq!(nvalloc::table::page(2, 1000, 5), 5 * 512);
    assert_eq!(nvalloc::table::num_pts(1, 1000), 2);
    assert_eq!(nvalloc::table::num_pts(2, 1000), 1);
    assert_eq!(nvalloc::table::num_pts(2, 0), 0);
    assert_eq!(nvalloc::table::num_pts(1, 1024), 2);
}
