use bananadb::resource::{PageType, ResId};

#[test]
fn identity_is_the_triple() {
    let a = ResId::new(PageType::TABLE, "abc", 3);
    assert!(a == ResId::new(PageType::TABLE, "abc", 3));
    assert!(a != ResId::new(PageType::INDEX, "abc", 3));
    assert!(a != ResId::new(PageType::TABLE, "abd", 3));
    assert!(a != ResId::new(PageType::TABLE, "abc", 4));
    assert!(a.same(&a.duplicate()));
}
