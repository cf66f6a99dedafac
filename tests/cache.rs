use bananadb::cache::{CacheBuf, PAGE_SIZE};
use bananadb::error::StoreError;
use bananadb::resource::{PageType, ResId};

fn page(t: &str, i: usize) -> ResId {
    ResId::new(PageType::TABLE, t, i)
}

#[test]
fn third_page_in_two_slot_pool_evicts_first() {
    let mut c: CacheBuf<2> = CacheBuf::new();
    assert_eq!(c.add_cache_resource(&page("t", 0), [0u8; PAGE_SIZE]), Ok(0));
    assert_eq!(c.add_cache_resource(&page("t", 1), [1u8; PAGE_SIZE]), Ok(1));
    assert_eq!(c.add_cache_resource(&page("t", 2), [2u8; PAGE_SIZE]), Ok(0));
    assert_eq!(c.query_cache_index(&page("t", 0)), None);
    assert_eq!(c.query_cache_index(&page("t", 1)), Some(1));
    assert_eq!(c.query_cache_index(&page("t", 2)), Some(0));
    assert_eq!(c.page(0)[0], 2);
    // page 0 misses now and is loaded again, displacing page 1
    assert_eq!(c.touch(&page("t", 0)), None);
    assert_eq!(c.add_cache_resource(&page("t", 0), [7u8; PAGE_SIZE]), Ok(1));
    assert_eq!(c.query_cache_index(&page("t", 1)), None);
    assert_eq!(c.query_cache_index(&page("t", 0)), Some(1));
}

#[test]
fn hit_promotes_the_page() {
    let mut c: CacheBuf<2> = CacheBuf::new();
    c.add_cache_resource(&page("t", 0), [0u8; PAGE_SIZE]).unwrap();
    c.add_cache_resource(&page("t", 1), [0u8; PAGE_SIZE]).unwrap();
    assert_eq!(c.touch(&page("t", 0)), Some(0));
    assert_eq!(c.add_cache_resource(&page("t", 2), [0u8; PAGE_SIZE]), Ok(1));
    assert_eq!(c.query_cache_index(&page("t", 0)), Some(0));
    assert_eq!(c.query_cache_index(&page("t", 1)), None);
}

#[test]
fn full_pool_evicts_exactly_the_least_recent() {
    let mut c: CacheBuf<3> = CacheBuf::new();
    for i in 0..3 {
        c.add_cache_resource(&page("t", i), [0u8; PAGE_SIZE]).unwrap();
    }
    c.touch(&page("t", 0)).unwrap();
    c.add_cache_resource(&page("t", 9), [0u8; PAGE_SIZE]).unwrap();
    assert!(c.query_cache_index(&page("t", 0)).is_some());
    assert!(c.query_cache_index(&page("t", 1)).is_none());
    assert!(c.query_cache_index(&page("t", 2)).is_some());
    assert!(c.query_cache_index(&page("t", 9)).is_some());
}

#[test]
fn dirty_victim_is_reported_and_kept() {
    let mut c: CacheBuf<1> = CacheBuf::new();
    c.add_cache_resource(&page("t", 0), [0u8; PAGE_SIZE]).unwrap();
    c.get_cache_resource(0)[5] = 42;
    assert_eq!(c.set_dirty(0), Ok(()));
    assert!(c.is_dirty(0));
    assert_eq!(c.add_cache_resource(&page("t", 1), [1u8; PAGE_SIZE]), Err(StoreError::VictimDirty(0)));
    assert_eq!(c.query_cache_index(&page("t", 0)), Some(0));
    let owner = c.slot_owner(0).unwrap();
    assert!(owner == page("t", 0));
    assert_eq!(c.page(0)[5], 42);
    c.set_clean(0);
    assert!(!c.is_dirty(0));
    assert_eq!(c.add_cache_resource(&page("t", 1), [1u8; PAGE_SIZE]), Ok(0));
    assert_eq!(c.page(0)[5], 1);
}

#[test]
fn duplicate_install_is_refused() {
    let mut c: CacheBuf<2> = CacheBuf::new();
    c.add_cache_resource(&page("t", 0), [0u8; PAGE_SIZE]).unwrap();
    assert_eq!(c.add_cache_resource(&page("t", 0), [1u8; PAGE_SIZE]), Err(StoreError::DuplicateInstall));
    assert_eq!(c.page(0)[0], 0);
}

#[test]
fn class_is_part_of_the_identity() {
    let mut c: CacheBuf<2> = CacheBuf::new();
    c.add_cache_resource(&page("t", 0), [0u8; PAGE_SIZE]).unwrap();
    let index_page = ResId::new(PageType::INDEX, "t", 0);
    assert_eq!(c.query_cache_index(&index_page), None);
    assert_eq!(c.add_cache_resource(&index_page, [0u8; PAGE_SIZE]), Ok(1));
}

#[test]
fn dirty_bits_need_a_resident_slot() {
    let mut c: CacheBuf<2> = CacheBuf::new();
    assert_eq!(c.set_dirty(0), Err(StoreError::InvalidSlot));
    assert_eq!(c.set_dirty(5), Err(StoreError::InvalidSlot));
    assert_eq!(c.find_free(), Some(0));
    c.add_cache_resource(&page("t", 0), [0u8; PAGE_SIZE]).unwrap();
    assert_eq!(c.find_free(), Some(1));
    c.add_cache_resource(&page("t", 1), [0u8; PAGE_SIZE]).unwrap();
    assert_eq!(c.find_free(), None);
    c.set_dirty(1).unwrap();
    c.set_free(1);
    assert!(!c.is_dirty(1));
    assert_eq!(c.find_free(), Some(1));
    assert_eq!(c.query_cache_index(&page("t", 1)), None);
}

#[test]
fn invalidating_a_file_drops_only_its_pages() {
    let mut c: CacheBuf<3> = CacheBuf::new();
    c.add_cache_resource(&page("a", 0), [0u8; PAGE_SIZE]).unwrap();
    c.add_cache_resource(&page("b", 0), [0u8; PAGE_SIZE]).unwrap();
    c.add_cache_resource(&page("a", 1), [0u8; PAGE_SIZE]).unwrap();
    c.set_dirty(2).unwrap();
    c.invalidate_file("a");
    assert_eq!(c.query_cache_index(&page("a", 0)), None);
    assert_eq!(c.query_cache_index(&page("a", 1)), None);
    assert_eq!(c.query_cache_index(&page("b", 0)), Some(1));
    assert!(!c.is_dirty(2));
}

#[test]
fn promote_of_unallocated_slot_fails() {
    let mut c: CacheBuf<2> = CacheBuf::new();
    assert_eq!(c.promote(0), Err(StoreError::InvalidSlot));
    c.add_cache_resource(&page("t", 0), [0u8; PAGE_SIZE]).unwrap();
    assert_eq!(c.promote(0), Ok(()));
}

#[test]
fn zero_slot_pool_refuses_installs() {
    let mut c: CacheBuf<0> = CacheBuf::new();
    assert_eq!(c.add_cache_resource(&page("t", 0), [0u8; PAGE_SIZE]), Err(StoreError::CapacityExceeded));
}

#[test]
fn busy_marks_are_seen_by_find_free() {
    let mut c: CacheBuf<3> = CacheBuf::new();
    c.set_busy(0);
    assert_eq!(c.find_free(), Some(1));
    c.set_busy(1);
    c.set_busy(2);
    assert_eq!(c.find_free(), None);
    c.set_free(1);
    assert_eq!(c.find_free(), Some(1));
}
