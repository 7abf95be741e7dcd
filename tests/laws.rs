use tinybase::query_builder::{ConditionBuilder, QueryBuilder};
use tinybase::record::Record;
use tinybase::result::TinyBaseError;
use tinybase::table::Table;

type KeyFn = Box<dyn Fn(&String) -> Vec<u8>>;

fn whole() -> KeyFn {
    Box::new(|value: &String| value.as_bytes().to_vec())
}

fn length() -> KeyFn {
    Box::new(|value: &String| (value.len() as u64).to_le_bytes().to_vec())
}

fn text(s: &str) -> Vec<u8> {
    s.as_bytes().to_vec()
}

fn ids(v: &[Record]) -> Vec<u128> {
    v.iter().map(|r| r.id).collect()
}

#[test]
fn select_finds_every_inserted_record() {
    let mut table: Table<KeyFn> = Table::new("t".to_string());
    let name = table.create_index("name".to_string(), whole()).unwrap();
    let a = table.insert("x".to_string()).unwrap();
    let b = table.insert("x".to_string()).unwrap();
    table.insert("y".to_string()).unwrap();
    let found = name.select(&mut table, &text("x")).unwrap();
    assert_eq!(ids(&found), vec![a, b]);
    assert_eq!(found[0].data, "x");
}

#[test]
fn delete_unfiles_the_id() {
    let mut table: Table<KeyFn> = Table::new("t".to_string());
    let name = table.create_index("name".to_string(), whole()).unwrap();
    let len = table.create_index("len".to_string(), length()).unwrap();
    let a = table.insert("abc".to_string()).unwrap();
    let b = table.insert("abd".to_string()).unwrap();
    let gone = table.delete(a).unwrap().unwrap();
    assert_eq!(gone.id, a);
    assert_eq!(gone.data, "abc");
    assert!(table.delete(a).unwrap().is_none());
    assert!(name.select(&mut table, &text("abc")).unwrap().is_empty());
    assert_eq!(ids(&len.select(&mut table, &3u64.to_le_bytes().to_vec()).unwrap()), vec![b]);
}

#[test]
fn update_moves_the_id_to_its_new_key() {
    let mut table: Table<KeyFn> = Table::new("t".to_string());
    let name = table.create_index("name".to_string(), whole()).unwrap();
    let a = table.insert("old".to_string()).unwrap();
    let changed = table.update(&vec![a, 12345], "new".to_string()).unwrap();
    assert_eq!(ids(&changed), vec![a]);
    assert!(name.select(&mut table, &text("old")).unwrap().is_empty());
    assert_eq!(ids(&name.select(&mut table, &text("new")).unwrap()), vec![a]);
    assert_eq!(table.get(a).unwrap().unwrap().data, "new");
}

#[test]
fn update_to_the_same_key_files_once() {
    let mut table: Table<KeyFn> = Table::new("t".to_string());
    let len = table.create_index("len".to_string(), length()).unwrap();
    let a = table.insert("aaa".to_string()).unwrap();
    table.update(&vec![a], "bbb".to_string()).unwrap();
    let found = len.select(&mut table, &3u64.to_le_bytes().to_vec()).unwrap();
    assert_eq!(ids(&found), vec![a]);
    assert_eq!(found[0].data, "bbb");
}

#[test]
fn select_twice_gives_the_same_records() {
    let mut table: Table<KeyFn> = Table::new("t".to_string());
    let name = table.create_index("name".to_string(), whole()).unwrap();
    table.insert("x".to_string()).unwrap();
    table.insert("x".to_string()).unwrap();
    let first = name.select(&mut table, &text("x")).unwrap();
    let second = name.select(&mut table, &text("x")).unwrap();
    assert_eq!(ids(&first), ids(&second));
}

#[test]
fn deleting_the_last_id_empties_the_key() {
    let mut table: Table<KeyFn> = Table::new("t".to_string());
    let name = table.create_index("name".to_string(), whole()).unwrap();
    let a = table.insert("only".to_string()).unwrap();
    assert!(name.record_exists(&mut table, &Record { id: 0, data: "only".to_string() }).unwrap());
    table.delete(a).unwrap();
    assert!(!name.record_exists(&mut table, &Record { id: 0, data: "only".to_string() }).unwrap());
}

#[test]
fn or_of_a_condition_with_itself() {
    let mut table: Table<KeyFn> = Table::new("t".to_string());
    let name = table.create_index("name".to_string(), whole()).unwrap();
    let a = table.insert("x".to_string()).unwrap();
    let b = table.insert("x".to_string()).unwrap();
    let plain = QueryBuilder::new()
        .with_condition(ConditionBuilder::by_key(&name, text("x")))
        .select(&mut table)
        .unwrap();
    let doubled = QueryBuilder::new()
        .with_condition(ConditionBuilder::or(
            ConditionBuilder::by_key(&name, text("x")),
            ConditionBuilder::by_key(&name, text("x")),
        ))
        .select(&mut table)
        .unwrap();
    assert_eq!(ids(&plain), vec![a, b]);
    assert_eq!(ids(&doubled), vec![a, b]);
}

#[test]
fn and_of_disjoint_conditions_is_empty() {
    let mut table: Table<KeyFn> = Table::new("t".to_string());
    let name = table.create_index("name".to_string(), whole()).unwrap();
    table.insert("x".to_string()).unwrap();
    table.insert("y".to_string()).unwrap();
    let both = QueryBuilder::new()
        .with_condition(ConditionBuilder::and(
            ConditionBuilder::by_key(&name, text("x")),
            ConditionBuilder::by_key(&name, text("y")),
        ))
        .select(&mut table)
        .unwrap();
    assert!(both.is_empty());
}

#[test]
fn query_without_condition_fails() {
    let mut table: Table<KeyFn> = Table::new("t".to_string());
    table.insert("x".to_string()).unwrap();
    let r = QueryBuilder::new().select(&mut table);
    assert!(matches!(r, Err(TinyBaseError::QueryBuilder(ref m)) if m == "No search condition provided"));
    assert!(matches!(QueryBuilder::new().update(&mut table, "y".to_string()), Err(TinyBaseError::QueryBuilder(_))));
    assert!(matches!(QueryBuilder::new().delete(&mut table), Err(TinyBaseError::QueryBuilder(_))));
    assert_eq!(table.iter().unwrap().len(), 1);
}

#[test]
fn new_index_back_fills_existing_records() {
    let mut table: Table<KeyFn> = Table::new("t".to_string());
    let a = table.insert("x".to_string()).unwrap();
    let b = table.insert("yy".to_string()).unwrap();
    let c = table.insert("x".to_string()).unwrap();
    let name = table.create_index("name".to_string(), whole()).unwrap();
    let len = table.create_index("len".to_string(), length()).unwrap();
    assert_eq!(ids(&name.select(&mut table, &text("x")).unwrap()), vec![a, c]);
    assert_eq!(ids(&len.select(&mut table, &2u64.to_le_bytes().to_vec()).unwrap()), vec![b]);
}

#[test]
fn duplicate_index_name_is_refused() {
    let mut table: Table<KeyFn> = Table::new("t".to_string());
    let name = table.create_index("name".to_string(), whole()).unwrap();
    assert_eq!(name.index_name(), "name");
    assert!(matches!(table.create_index("name".to_string(), length()), Err(TinyBaseError::Duplicate(_))));
    assert!(matches!(table.create_index("t".to_string(), length()), Err(TinyBaseError::Duplicate(_))));
}

#[test]
fn index_of_another_table_is_refused() {
    let mut first: Table<KeyFn> = Table::new("a".to_string());
    let mut second: Table<KeyFn> = Table::new("b".to_string());
    first.create_index("one".to_string(), whole()).unwrap();
    let two = first.create_index("two".to_string(), whole()).unwrap();
    second.create_index("one".to_string(), whole()).unwrap();
    assert!(matches!(two.select(&mut second, &text("x")), Err(TinyBaseError::QueryBuilder(_))));
}

#[test]
fn delete_via_query_removes_the_records() {
    let mut table: Table<KeyFn> = Table::new("t".to_string());
    let len = table.create_index("len".to_string(), length()).unwrap();
    let name = table.create_index("name".to_string(), whole()).unwrap();
    let a = table.insert("ab".to_string()).unwrap();
    let b = table.insert("cd".to_string()).unwrap();
    let c = table.insert("efg".to_string()).unwrap();
    let removed = QueryBuilder::new()
        .with_condition(ConditionBuilder::by_key(&len, 2u64.to_le_bytes().to_vec()))
        .delete(&mut table)
        .unwrap();
    assert_eq!(ids(&removed), vec![a, b]);
    assert_eq!(ids(&table.iter().unwrap()), vec![c]);
    assert!(name.select(&mut table, &text("ab")).unwrap().is_empty());
}

#[test]
fn sync_rebuilds_the_index() {
    let mut table: Table<KeyFn> = Table::new("t".to_string());
    let name = table.create_index("name".to_string(), whole()).unwrap();
    let a = table.insert("x".to_string()).unwrap();
    name.sync(&mut table).unwrap();
    assert_eq!(ids(&name.select(&mut table, &text("x")).unwrap()), vec![a]);
    assert_eq!(table.name(), "t");
}

#[test]
fn minted_ids_differ() {
    let mut table: Table<KeyFn> = Table::new("t".to_string());
    let a = table.insert("x".to_string()).unwrap();
    let b = table.insert("x".to_string()).unwrap();
    assert_ne!(a, b);
    assert_eq!(table.get(a).unwrap().unwrap().data, "x");
    assert!(table.get(a ^ 1).unwrap().is_none() || a ^ 1 == b);
}

#[test]
fn handle_with_a_matching_slot_but_another_name_is_refused() {
    let mut first: Table<KeyFn> = Table::new("a".to_string());
    let mut second: Table<KeyFn> = Table::new("b".to_string());
    let one = first.create_index("one".to_string(), whole()).unwrap();
    second.create_index("uno".to_string(), whole()).unwrap();
    second.insert("x".to_string()).unwrap();
    assert!(matches!(one.select(&mut second, &text("x")), Err(TinyBaseError::QueryBuilder(_))));
    assert!(matches!(one.sync(&mut second), Err(TinyBaseError::QueryBuilder(_))));
    let r = QueryBuilder::new()
        .with_condition(ConditionBuilder::by_key(&one, text("x")))
        .delete(&mut second);
    assert!(matches!(r, Err(TinyBaseError::QueryBuilder(_))));
    assert_eq!(second.iter().unwrap().len(), 1);
}

#[test]
fn insert_with_a_chosen_id() {
    let mut table: Table<KeyFn> = Table::new("t".to_string());
    let name = table.create_index("name".to_string(), whole()).unwrap();
    assert_eq!(table.insert_with_id(42, "x".to_string()).unwrap(), 42);
    assert!(matches!(table.insert_with_id(42, "y".to_string()), Err(TinyBaseError::Duplicate(_))));
    assert_eq!(table.get(42).unwrap().unwrap().data, "x");
    assert_eq!(ids(&name.select(&mut table, &text("x")).unwrap()), vec![42]);
    assert!(name.select(&mut table, &text("y")).unwrap().is_empty());
}

#[test]
fn duplicate_error_carries_the_name() {
    let mut table: Table<KeyFn> = Table::new("t".to_string());
    table.create_index("name".to_string(), whole()).unwrap();
    match table.create_index("name".to_string(), length()) {
        Err(TinyBaseError::Duplicate(n)) => assert_eq!(n, "name"),
        _ => panic!("expected a duplicate name"),
    }
}

#[test]
fn bucket_keeps_filing_order_across_updates() {
    let mut table: Table<KeyFn> = Table::new("t".to_string());
    let len = table.create_index("len".to_string(), length()).unwrap();
    table.insert_with_id(1, "a".to_string()).unwrap();
    table.insert_with_id(2, "b".to_string()).unwrap();
    table.insert_with_id(3, "c".to_string()).unwrap();
    table.update(&vec![1], "d".to_string()).unwrap();
    table.delete(2).unwrap();
    let key = 1u64.to_le_bytes().to_vec();
    assert_eq!(ids(&len.select(&mut table, &key).unwrap()), vec![3, 1]);
    len.sync(&mut table).unwrap();
    assert_eq!(ids(&len.select(&mut table, &key).unwrap()), vec![1, 3]);
    len.sync(&mut table).unwrap();
    assert_eq!(ids(&len.select(&mut table, &key).unwrap()), vec![1, 3]);
}

#[test]
fn update_and_delete_via_query_keep_evaluation_order() {
    let mut table: Table<KeyFn> = Table::new("t".to_string());
    let name = table.create_index("name".to_string(), whole()).unwrap();
    table.insert_with_id(5, "x".to_string()).unwrap();
    table.insert_with_id(9, "y".to_string()).unwrap();
    table.insert_with_id(7, "x".to_string()).unwrap();
    let cond = || {
        ConditionBuilder::or(
            ConditionBuilder::by_key(&name, text("y")),
            ConditionBuilder::by_key(&name, text("x")),
        )
    };
    let updated = QueryBuilder::new().with_condition(cond()).update(&mut table, "z".to_string()).unwrap();
    assert_eq!(ids(&updated), vec![9, 5, 7]);
    table.update(&vec![5, 7, 9], "x".to_string()).unwrap();
    let removed = QueryBuilder::new().with_condition(cond()).delete(&mut table).unwrap();
    assert_eq!(ids(&removed), vec![5, 7, 9]);
    assert!(table.iter().unwrap().is_empty());
}
