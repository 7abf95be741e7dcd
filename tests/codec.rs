use tinybase::result::TinyBaseError;
use tinybase::table::Table;

type KeyFn = Box<dyn Fn(&String) -> Vec<u8>>;

#[test]
fn export_writes_bincode_pairs() {
    let mut table: Table<KeyFn> = Table::new("t".to_string());
    let a = table.insert("hello".to_string()).unwrap();
    let pairs = table.export().unwrap();
    assert_eq!(pairs.len(), 1);
    assert_eq!(pairs[0].0, bincode::serialize(&a).unwrap());
    assert_eq!(pairs[0].1, bincode::serialize(&"hello".to_string()).unwrap());
    assert_ne!(pairs[0].1, "hello".as_bytes().to_vec());
}

#[test]
fn load_reads_back_what_export_wrote() {
    let mut table: Table<KeyFn> = Table::new("t".to_string());
    let a = table.insert("one".to_string()).unwrap();
    let b = table.insert("two".to_string()).unwrap();
    let pairs = table.export().unwrap();
    let mut back: Table<KeyFn> = Table::load("t".to_string(), &pairs).unwrap();
    let rows = back.iter().unwrap();
    assert_eq!(rows.len(), 2);
    assert_eq!((rows[0].id, rows[0].data.as_str()), (a, "one"));
    assert_eq!((rows[1].id, rows[1].data.as_str()), (b, "two"));
    let name = back.create_index("name".to_string(), Box::new(|v: &String| v.as_bytes().to_vec())).unwrap();
    assert_eq!(name.select(&mut back, &"two".as_bytes().to_vec()).unwrap()[0].id, b);
}

#[test]
fn load_refuses_bytes_that_do_not_decode() {
    let pairs = vec![(vec![1u8, 2, 3], bincode::serialize(&"x".to_string()).unwrap())];
    let r: Result<Table<KeyFn>, TinyBaseError> = Table::load("t".to_string(), &pairs);
    assert!(matches!(r, Err(TinyBaseError::Codec(_))));
}

#[test]
fn load_refuses_an_id_twice() {
    let id = bincode::serialize(&7u128).unwrap();
    let pairs = vec![
        (id.clone(), bincode::serialize(&"x".to_string()).unwrap()),
        (id, bincode::serialize(&"y".to_string()).unwrap()),
    ];
    let r: Result<Table<KeyFn>, TinyBaseError> = Table::load("t".to_string(), &pairs);
    assert!(matches!(r, Err(TinyBaseError::Duplicate(_))));
}
