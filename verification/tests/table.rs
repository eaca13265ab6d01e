use nvalloc::entry::Entry2;
use nvalloc::free_entry::Entry3;
use nvalloc::table::Table;

#[test]
fn pt() {
    let mut pt: Table<u64> = Table::empty();
    pt.cas(0, 0, 42).unwrap();
    pt.update(0, |v| Some(v + 1)).unwrap();
    assert_eq!(pt.get(0), 43);
}

#[test]
fn entry_pt() {
    let mut pt: Table<u64> = Table::empty();
    pt.cas(0, 0, 42).unwrap();
    pt.update(0, |v| Some(v + 1)).unwrap();
    assert_eq!(pt.get(0), 43);
}

#[test]
fn table_cas_rejects_wrong_expectation() {
    let mut pt: Table<u64> = Table::empty();
    assert_eq!(pt.cas(3, 1, 42), Err(0));
    assert_eq!(pt.get(3), 0);
    assert_eq!(pt.update(3, |_| None), Err(0));
}

#[test]
fn table_of_entries() {
    let mut pt: Table<Entry2> = Table::empty();
    assert_eq!(pt.get(7), Entry2::new());
    pt.set(7, Entry2::new_table(5, 3));
    assert_eq!(pt.get(7).pages, 5);
    assert_eq!(pt.get(7).i1, 3);
    pt.clear();
    assert_eq!(pt.get(7), Entry2::new());
    let mut pt3: Table<Entry3> = Table::empty();
    pt3.set(0, Entry3::empty(262144));
    assert_eq!(pt3.get(0).free, 262144);
}
