use database::data::{data_eq, Data};
use database::database::{Database, DatabaseConfig, DatabaseError, DatabaseStorageType};

fn text(s: &str) -> Data {
    Data::Text(String::from(s))
}

fn fresh_db() -> Database {
    Database::new(DatabaseConfig::new(true, DatabaseStorageType::Memory))
}

#[test]
fn new_database_is_empty() {
    let db = fresh_db();
    assert_eq!(db.table_count(), 0);
}

#[test]
fn add_table_registers_and_hands_out_index() {
    let mut db = fresh_db();
    let i = db.add_table(text("Users"), vec![text("Name")]).unwrap();
    assert_eq!(i, 0);
    assert_eq!(db.table_count(), 1);
    assert!(data_eq(db.table(i).name(), &text("Users")));
}

#[test]
fn add_table_twice_same_name_fails_and_changes_nothing() {
    let mut db = fresh_db();
    db.add_table(text("Users"), vec![text("Name")]).unwrap();
    let r = db.add_table(text("Users"), vec![text("Other")]);
    assert_eq!(r.err(), Some(DatabaseError::NameAlreadyExists));
    // the table set is exactly as before the failed call
    assert_eq!(db.table_count(), 1);
    let i = db.get_table(&text("Users")).unwrap();
    let attrs = db.table(i).attributes();
    assert_eq!(attrs.len(), 1);
    assert!(data_eq(&attrs[0], &text("Name")));
}

#[test]
fn get_table_unregistered_name_fails() {
    let mut db = fresh_db();
    assert_eq!(
        db.get_table(&text("Nope")).err(),
        Some(DatabaseError::NameDoesNotExist)
    );
    db.add_table(text("Users"), vec![text("Name")]).unwrap();
    assert_eq!(
        db.get_table(&text("Accounts")).err(),
        Some(DatabaseError::NameDoesNotExist)
    );
}

#[test]
fn get_table_finds_each_registered_table() {
    let mut db = fresh_db();
    let a = db.add_table(text("A"), vec![text("X")]).unwrap();
    let b = db.add_table(text("B"), vec![text("Y")]).unwrap();
    assert_eq!(db.get_table(&text("A")).unwrap(), a);
    assert_eq!(db.get_table(&text("B")).unwrap(), b);
}

#[test]
fn table_names_can_be_any_value_kind() {
    let mut db = fresh_db();
    db.add_table(Data::Integer(7), vec![text("X")]).unwrap();
    let i = db.get_table(&Data::Integer(7)).unwrap();
    assert!(data_eq(db.table(i).name(), &Data::Integer(7)));
    assert_eq!(
        db.get_table(&Data::Integer(8)).err(),
        Some(DatabaseError::NameDoesNotExist)
    );
}

#[test]
fn database_error_messages() {
    assert_eq!(
        DatabaseError::NameAlreadyExists.message(),
        "a table with that name already exists"
    );
    assert_eq!(
        DatabaseError::NameDoesNotExist.message(),
        "a table with that name does not exist"
    );
}

#[test]
fn storage_configuration_is_accepted_without_effect() {
    // the storage modes are configuration only: every one yields the
    // same empty in-memory database
    for cfg in [
        DatabaseStorageType::Memory,
        DatabaseStorageType::Storage(String::from("/tmp/db")),
        DatabaseStorageType::MemoryAndStorage(String::from("/tmp/db")),
        DatabaseStorageType::Smart(String::from("/tmp/db")),
    ] {
        let mut db = Database::new(DatabaseConfig::new(false, cfg));
        assert_eq!(db.table_count(), 0);
        db.add_table(text("T"), vec![text("A")]).unwrap();
        assert_eq!(db.table_count(), 1);
    }
}
