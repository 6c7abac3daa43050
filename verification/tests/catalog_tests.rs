use wackdb::catalog::{Catalog, CatalogError};
use wackdb::schema::{Column, Schema};
use wackdb::value::DataType;

#[test]
fn test_create_and_get_table() {
    let mut catalog = Catalog::new();

    let table = catalog.create_table("test_users").unwrap();
    assert_eq!(table.name, "test_users");
    assert_eq!(table.heap_relation_id, 0);
    assert_eq!(table.index_relation_id, 1);
    assert_eq!(table.root_page_num, None);

    let table2 = catalog.get_table("test_users").unwrap();
    assert_eq!(table2.name, "test_users");
    assert_eq!(table2.heap_relation_id, 0);
    assert_eq!(table2.index_relation_id, 1);
}

#[test]
fn test_duplicate_table() {
    let mut catalog = Catalog::new();

    catalog.create_table("test").unwrap();
    let err = catalog.create_table("test").unwrap_err();
    assert!(matches!(err, CatalogError::TableExists(_)));
}

#[test]
fn test_persistence() {
    let data;
    {
        let mut catalog = Catalog::new();
        catalog.create_table("t1").unwrap();
        catalog.update_root_page("t1", Some(42)).unwrap();
        data = catalog.into_data();
    }

    {
        let catalog = Catalog::from_data(data).unwrap();
        let table = catalog.get_table("t1").unwrap();
        assert_eq!(table.name, "t1");
        assert_eq!(table.heap_relation_id, 0);
        assert_eq!(table.index_relation_id, 1);
        assert_eq!(table.root_page_num, Some(42));
    }
}

#[test]
fn test_list_tables() {
    let mut catalog = Catalog::new();

    catalog.create_table("a").unwrap();
    catalog.create_table("b").unwrap();

    let tables = catalog.list_tables();
    assert_eq!(tables.len(), 2);
}

#[test]
fn dropped_table_is_gone_and_ids_keep_growing() {
    let mut catalog = Catalog::new();
    catalog.create_table("a").unwrap();
    let dropped = catalog.drop_table("a").unwrap();
    assert_eq!(dropped.name, "a");
    assert!(matches!(catalog.get_table("a"), Err(CatalogError::TableNotFound(n)) if n == "a"));
    assert!(matches!(catalog.drop_table("a"), Err(CatalogError::TableNotFound(_))));
    assert!(matches!(catalog.update_root_page("a", None), Err(CatalogError::TableNotFound(_))));
    let b = catalog.create_table("b").unwrap();
    assert_eq!(b.heap_relation_id, 2);
    assert_eq!(b.index_relation_id, 3);
}

#[test]
fn schema_of_created_table_is_kept() {
    let mut catalog = Catalog::new();
    let schema = Schema::new(vec![
        Column::new("id", DataType::Integer, false),
        Column::new("name", DataType::Varchar, true),
    ]);
    catalog.create_table_with_schema("people", schema).unwrap();
    let s = catalog.get_schema("people").unwrap();
    assert_eq!(s.column_count(), 2);
    assert_eq!(s.columns[1].name, "name");
    assert!(matches!(catalog.get_schema("nobody"), Err(CatalogError::TableNotFound(_))));
}
