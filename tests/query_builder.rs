use tinybase::query_builder::{ConditionBuilder, QueryBuilder};
use tinybase::table::{Index, Table};

type KeyFn = Box<dyn Fn(&String) -> Vec<u8>>;

fn whole() -> KeyFn {
    Box::new(|value: &String| value.as_bytes().to_vec())
}

fn length() -> KeyFn {
    Box::new(|value: &String| (value.len() as u64).to_le_bytes().to_vec())
}

fn text(s: &str) -> Vec<u8> {
    s.as_bytes().to_vec()
}

fn len_key(n: u64) -> Vec<u8> {
    n.to_le_bytes().to_vec()
}

fn setup() -> (Table<KeyFn>, Index, Index) {
    let mut table: Table<KeyFn> = Table::new("test_table".to_string());
    let name = table.create_index("name".to_string(), whole()).unwrap();
    let length = table.create_index("length".to_string(), length()).unwrap();
    (table, name, length)
}

#[test]
fn query_builder_select_and() {
    let (mut table, index, length) = setup();

    let value1 = table.insert("value1".to_string()).unwrap();
    table.insert("value2".to_string()).unwrap();

    let result_1 = QueryBuilder::new()
        .with_condition(ConditionBuilder::and(
            ConditionBuilder::by_key(&index, text("value1")),
            ConditionBuilder::by_key(&index, text("value2")),
        ))
        .select(&mut table)
        .expect("Select failed");

    assert_eq!(result_1.len(), 0);

    let result_2 = QueryBuilder::new()
        .with_condition(ConditionBuilder::and(
            ConditionBuilder::by_key(&index, text("value1")),
            ConditionBuilder::by_key(&length, len_key(6)),
        ))
        .select(&mut table)
        .expect("Select failed");

    assert_eq!(result_2.len(), 1);
    assert_eq!(result_2[0].id, value1);
}

#[test]
fn query_builder_select_or() {
    let mut table: Table<KeyFn> = Table::new("test_table".to_string());
    let index = table.create_index("name".to_string(), whole()).unwrap();

    table.insert("value1".to_string()).unwrap();
    table.insert("value2".to_string()).unwrap();

    let selected_records = QueryBuilder::new()
        .with_condition(ConditionBuilder::or(
            ConditionBuilder::by_key(&index, text("value1")),
            ConditionBuilder::by_key(&index, text("value2")),
        ))
        .select(&mut table)
        .expect("Select failed");

    assert_eq!(selected_records.len(), 2);
}

#[test]
fn query_builder_select_combined() {
    let (mut table, name, length) = setup();

    table.insert("value1".to_string()).unwrap();
    table.insert("value2".to_string()).unwrap();

    let selected_records = QueryBuilder::new()
        .with_condition(ConditionBuilder::and(
            ConditionBuilder::or(
                ConditionBuilder::by_key(&name, text("value1")),
                ConditionBuilder::by_key(&name, text("value2")),
            ),
            ConditionBuilder::by_key(&length, len_key(6)),
        ))
        .select(&mut table)
        .expect("Select failed");

    assert_eq!(selected_records.len(), 2);
}

#[test]
fn query_builder_update() {
    let (mut table, index, length) = setup();

    table.insert("value1".to_string()).unwrap();
    table.insert("value2".to_string()).unwrap();

    let updated_records = QueryBuilder::new()
        .with_condition(ConditionBuilder::and(
            ConditionBuilder::by_key(&index, text("value1")),
            ConditionBuilder::by_key(&length, len_key(6)),
        ))
        .update(&mut table, "updated_value".to_string())
        .expect("Update failed");

    assert_eq!(updated_records.len(), 1);
    assert_eq!(updated_records[0].data, "updated_value");

    let old = index.select(&mut table, &text("value1")).expect("Select failed");
    assert_eq!(old.len(), 0);
    let new = index.select(&mut table, &text("updated_value")).expect("Select failed");
    assert_eq!(new.len(), 1);
    assert_eq!(new[0].id, updated_records[0].id);
}

#[test]
fn query_builder_delete() {
    let mut table: Table<KeyFn> = Table::new("test_table".to_string());

    table.insert("value1".to_string()).unwrap();
    table.insert("value2".to_string()).unwrap();

    let index = table.create_index("name".to_string(), whole()).unwrap();

    let deleted_records = QueryBuilder::new()
        .with_condition(ConditionBuilder::by_key(&index, text("value1")))
        .delete(&mut table)
        .expect("Update failed");

    assert_eq!(deleted_records.len(), 1);

    let records = index.select(&mut table, &text("value1")).expect("Select failed");
    assert_eq!(records.len(), 0);
}
