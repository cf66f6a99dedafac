use bananadb::error::StoreError;
use bananadb::lru_list::LruList;

#[test]
fn allocation_hands_out_slots_in_order() {
    let mut l: LruList<3> = LruList::new();
    assert!(l.have_free_page());
    assert_eq!(l.new_page(), Ok(0));
    assert_eq!(l.new_page(), Ok(1));
    assert_eq!(l.new_page(), Ok(2));
    assert!(!l.have_free_page());
    assert_eq!(l.new_page(), Err(StoreError::CapacityExceeded));
}

#[test]
fn victim_is_least_recently_used() {
    let mut l: LruList<3> = LruList::new();
    assert_eq!(l.get_drop_page(), Err(StoreError::EmptyList));
    l.new_page().unwrap();
    assert_eq!(l.get_drop_page(), Ok(0));
    l.new_page().unwrap();
    l.new_page().unwrap();
    assert_eq!(l.get_drop_page(), Ok(0));
    assert_eq!(l.lift_page(0), Ok(()));
    assert_eq!(l.get_drop_page(), Ok(1));
    assert_eq!(l.lift_page(1), Ok(()));
    assert_eq!(l.get_drop_page(), Ok(2));
}

#[test]
fn promote_twice_equals_once() {
    let mut once: LruList<4> = LruList::new();
    let mut twice: LruList<4> = LruList::new();
    for _ in 0..4 {
        once.new_page().unwrap();
        twice.new_page().unwrap();
    }
    once.lift_page(1).unwrap();
    twice.lift_page(1).unwrap();
    twice.lift_page(1).unwrap();
    for _ in 0..4 {
        let a = once.get_drop_page().unwrap();
        let b = twice.get_drop_page().unwrap();
        assert_eq!(a, b);
        once.lift_page(a).unwrap();
        twice.lift_page(b).unwrap();
    }
}

#[test]
fn promote_rejects_unallocated_slot() {
    let mut l: LruList<3> = LruList::new();
    l.new_page().unwrap();
    assert_eq!(l.lift_page(1), Err(StoreError::InvalidSlot));
    assert_eq!(l.lift_page(0), Ok(()));
}

#[test]
fn zero_capacity_ring_allocates_nothing() {
    let mut l: LruList<0> = LruList::new();
    assert!(!l.have_free_page());
    assert_eq!(l.new_page(), Err(StoreError::CapacityExceeded));
}
