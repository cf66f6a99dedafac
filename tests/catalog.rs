use bananadb::catalog::TableCatalog;
use bananadb::error::StoreError;
use bananadb::io_manager::IO_Manager;
use bananadb::cache::PAGE_SIZE;
use bananadb::resource::{PageType, ResId};

#[test]
fn create_resolve_delete_scenario() {
    let mut c = TableCatalog::new();
    assert_eq!(c.open_table("abc"), Err(StoreError::TableNotFound));
    let id = c.new_table("abc").unwrap();
    assert_eq!(id.len(), 36);
    assert_eq!(c.open_table("abc"), Ok(id.clone()));
    assert_eq!(c.new_table("abc"), Err(StoreError::TableExists));
    assert_eq!(c.open_table("abc"), Ok(id));
    assert_eq!(c.delete_table("abc"), Ok(()));
    assert_eq!(c.open_table("abc"), Err(StoreError::TableNotFound));
    assert_eq!(c.delete_table("abc"), Err(StoreError::TableNotFound));
}

#[test]
fn distinct_names_get_distinct_ids() {
    let mut c = TableCatalog::new();
    let names = ["abc", "def", "ghi", "jkl"];
    let mut ids = Vec::new();
    for n in names.iter() {
        ids.push(c.new_table(n).unwrap());
    }
    for (i, n) in names.iter().enumerate() {
        assert_eq!(c.open_table(n), Ok(ids[i].clone()));
        for j in 0..i {
            assert_ne!(ids[i], ids[j]);
        }
    }
}

#[test]
fn fixed_ids_and_collisions() {
    let mut c = TableCatalog::new();
    assert_eq!(c.add_table("abc", "id-1".to_string()), Ok(()));
    assert_eq!(c.add_table("def", "id-1".to_string()), Err(StoreError::IdCollision));
    assert_eq!(c.add_table("abc", "id-2".to_string()), Err(StoreError::TableExists));
    assert_eq!(c.open_table("abc"), Ok("id-1".to_string()));
    assert_eq!(c.open_table("def"), Err(StoreError::TableNotFound));
}

#[test]
fn catalog_json_round_trip() {
    let mut c = TableCatalog::new();
    c.add_table("abc", "id-1".to_string()).unwrap();
    c.add_table("def", "id-2".to_string()).unwrap();
    let text = c.to_json().unwrap();
    assert!(text.contains("\"abc\": \"id-1\""));
    let back = TableCatalog::from_json(&text).unwrap();
    assert_eq!(back.open_table("abc"), Ok("id-1".to_string()));
    assert_eq!(back.open_table("def"), Ok("id-2".to_string()));
    assert!(TableCatalog::from_json("{}").unwrap().open_table("abc").is_err());
    assert!(TableCatalog::from_json("[1, 2]").is_none());
    assert!(TableCatalog::from_json("{\"a\": \"x\", \"b\": \"x\"}").is_none());
}

#[test]
fn deleting_a_table_drops_its_cached_pages() {
    let mut m: IO_Manager<4> = IO_Manager::new(TableCatalog::new());
    let a = m.create_table("abc").unwrap();
    let b = m.create_table("def").unwrap();
    assert_eq!(m.create_table("abc"), Err(StoreError::TableExists));
    assert_eq!(m.resolve_table("abc"), Ok(a.clone()));
    m.cache_sys.add_cache_resource(&ResId::new(PageType::TABLE, &a, 0), [0u8; PAGE_SIZE]).unwrap();
    m.cache_sys.add_cache_resource(&ResId::new(PageType::TABLE, &b, 0), [0u8; PAGE_SIZE]).unwrap();
    assert_eq!(m.delete_table("abc"), Ok(a.clone()));
    assert_eq!(m.resolve_table("abc"), Err(StoreError::TableNotFound));
    assert_eq!(m.delete_table("abc"), Err(StoreError::TableNotFound));
    assert_eq!(m.cache_sys.query_cache_index(&ResId::new(PageType::TABLE, &a, 0)), None);
    assert_eq!(m.cache_sys.query_cache_index(&ResId::new(PageType::TABLE, &b, 0)), Some(1));
}

#[test]
fn catalog_from_pairs_checks_uniqueness() {
    let ok = TableCatalog::from_pairs(vec![
        ("abc".to_string(), "id-1".to_string()),
        ("def".to_string(), "id-2".to_string()),
    ])
    .unwrap();
    assert_eq!(ok.open_table("def"), Ok("id-2".to_string()));
    assert!(TableCatalog::from_pairs(vec![
        ("abc".to_string(), "id-1".to_string()),
        ("abc".to_string(), "id-2".to_string()),
    ])
    .is_none());
    assert!(TableCatalog::from_pairs(vec![
        ("abc".to_string(), "id-1".to_string()),
        ("def".to_string(), "id-1".to_string()),
    ])
    .is_none());
    assert!(TableCatalog::from_pairs(Vec::new()).is_some());
}
