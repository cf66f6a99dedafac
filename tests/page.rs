use bananadb::page::{DataPage, TAIL_SIZE};

#[test]
fn fresh_page_fills_slots_in_order() {
    let buf = [0u8; 4096];
    let mut p: DataPage<4096> = DataPage::new(16, &buf);
    assert_eq!(p.find_free_slot(), Some(0));
    p.set_slot_busy(0);
    assert_eq!(p.find_free_slot(), Some(1));
    p.set_slot_busy(1);
    assert_eq!(p.find_free_slot(), Some(2));
    p.set_slot_free(0);
    assert_eq!(p.find_free_slot(), Some(0));
    p.set_slot_busy(0);
    p.clear_slot();
    assert_eq!(p.find_free_slot(), Some(0));
}

#[test]
fn single_slot_page_is_full_after_one_record() {
    let buf = [0u8; 4096];
    let mut p: DataPage<4096> = DataPage::new(4096 - TAIL_SIZE, &buf);
    assert_eq!(p.find_free_slot(), Some(0));
    p.set_slot_busy(0);
    assert_eq!(p.find_free_slot(), None);
}

#[test]
fn bitmap_is_read_from_the_tail() {
    let mut buf = [0u8; 4096];
    buf[4096 - TAIL_SIZE] = 0b0000_0111;
    let p: DataPage<4096> = DataPage::new(16, &buf);
    assert_eq!(p.find_free_slot(), Some(3));
    let mut full = [0u8; 4096];
    for b in full[4096 - TAIL_SIZE..4096 - TAIL_SIZE + 32].iter_mut() {
        *b = 0xff;
    }
    let q: DataPage<4096> = DataPage::new(16, &full);
    assert_eq!(q.find_free_slot(), None);
}

#[test]
fn slots_past_capacity_are_not_free() {
    let mut buf = [0u8; 4096];
    buf[4096 - TAIL_SIZE] = 0b0000_0011;
    // two records of 2016 bytes fit; both are busy
    let p: DataPage<4096> = DataPage::new(2016, &buf);
    assert_eq!(p.find_free_slot(), None);
}

#[test]
fn read_item_returns_the_record_bytes() {
    let mut buf = [0u8; 4096];
    for i in 0..8 {
        buf[8 + i] = i as u8 + 1;
    }
    let p: DataPage<4096> = DataPage::new(8, &buf);
    assert_eq!(p.read_item(1), vec![1, 2, 3, 4, 5, 6, 7, 8]);
    assert_eq!(p.read_item(0), vec![0; 8]);
}
