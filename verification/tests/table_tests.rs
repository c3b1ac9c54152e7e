use database::data::{data_eq, Data};
use database::table::{Table, TableError};

fn text(s: &str) -> Data {
    Data::Text(String::from(s))
}

fn fresh_table() -> Table {
    Table::new(text("Users"), vec![text("Name"), text("Age")]).unwrap()
}

#[test]
fn new_table_sorts_attributes() {
    let t = Table::new(text("T"), vec![text("Name"), text("Age"), text("Balance")]).unwrap();
    let attrs = t.attributes();
    assert_eq!(attrs.len(), 3);
    assert!(data_eq(&attrs[0], &text("Age")));
    assert!(data_eq(&attrs[1], &text("Balance")));
    assert!(data_eq(&attrs[2], &text("Name")));
    assert_eq!(t.row_count(), 0);
}

#[test]
fn new_table_rejects_duplicate_attribute() {
    let r = Table::new(text("T"), vec![text("A"), text("B"), text("A")]);
    assert_eq!(r.err(), Some(TableError::DuplicateAttribute));
}

#[test]
fn push_row_wrong_size_fails_and_changes_nothing() {
    let mut t = fresh_table();
    let r = t.push_row(vec![(text("Name"), Some(text("Ada")))]);
    assert_eq!(r.err(), Some(TableError::IncorrectRowSize));
    assert_eq!(t.row_count(), 0);
}

#[test]
fn push_row_unknown_attribute_fails_and_changes_nothing() {
    let mut t = fresh_table();
    let r = t.push_row(vec![
        (text("Name"), Some(text("Ada"))),
        (text("Salary"), Some(Data::Integer(1))),
    ]);
    assert_eq!(r.err(), Some(TableError::AttributeNotFound));
    assert_eq!(t.row_count(), 0);
}

#[test]
fn push_row_repeated_attribute_fails_and_changes_nothing() {
    let mut t = fresh_table();
    let r = t.push_row(vec![
        (text("Name"), Some(text("Ada"))),
        (text("Name"), Some(text("Bob"))),
    ]);
    assert_eq!(r.err(), Some(TableError::IncorrectRowSize));
    assert_eq!(t.row_count(), 0);
}

#[test]
fn push_row_returns_new_row_index() {
    let mut t = fresh_table();
    let r = t.push_row(vec![
        (text("Name"), Some(text("Ada"))),
        (text("Age"), Some(Data::Integer(36))),
    ]);
    assert_eq!(r.ok(), Some(0));
    assert_eq!(t.row_count(), 1);
    let r = t.push_row(vec![
        (text("Name"), Some(text("Bob"))),
        (text("Age"), None),
    ]);
    assert_eq!(r.ok(), Some(1));
    assert_eq!(t.row_count(), 2);
}

#[test]
fn get_cell_round_trip() {
    let mut t = fresh_table();
    let idx = t
        .push_row(vec![
            (text("Name"), Some(text("Ada"))),
            (text("Age"), None),
        ])
        .unwrap();
    // the stored value comes back
    let cell = t.get_cell(&text("Name"), idx).unwrap();
    match cell {
        Some(d) => assert!(data_eq(d, &text("Ada"))),
        None => panic!("expected a stored value"),
    }
    // the omitted attribute reads back as nothing
    let cell = t.get_cell(&text("Age"), idx).unwrap();
    assert!(cell.is_none());
}

#[test]
fn get_cell_unknown_attribute() {
    let mut t = fresh_table();
    t.push_row(vec![
        (text("Name"), Some(text("Ada"))),
        (text("Age"), None),
    ])
    .unwrap();
    let r = t.get_cell(&text("Salary"), 0);
    assert_eq!(r.err(), Some(TableError::AttributeNotFound));
}

#[test]
fn get_cell_row_index_out_of_range() {
    let mut t = fresh_table();
    t.push_row(vec![
        (text("Name"), Some(text("Ada"))),
        (text("Age"), None),
    ])
    .unwrap();
    let r = t.get_cell(&text("Name"), 1);
    assert_eq!(r.err(), Some(TableError::IndexOutOfRange));
    let r = t.get_cell(&text("Name"), 1000);
    assert_eq!(r.err(), Some(TableError::IndexOutOfRange));
}

#[test]
fn get_cell_on_empty_table_is_out_of_range() {
    let t = fresh_table();
    let r = t.get_cell(&text("Name"), 0);
    assert_eq!(r.err(), Some(TableError::IndexOutOfRange));
}

#[test]
fn mixed_attribute_kinds_sort_by_variant() {
    // Text < Character < Integer < Boolean
    let t = Table::new(
        text("T"),
        vec![
            Data::Boolean(true),
            Data::Integer(0),
            text("zz"),
            Data::Character('a'),
        ],
    )
    .unwrap();
    let attrs = t.attributes();
    assert!(data_eq(&attrs[0], &text("zz")));
    assert!(data_eq(&attrs[1], &Data::Character('a')));
    assert!(data_eq(&attrs[2], &Data::Integer(0)));
    assert!(data_eq(&attrs[3], &Data::Boolean(true)));
}

#[test]
fn set_cell_overwrites_in_place() {
    let mut t = fresh_table();
    let idx = t
        .push_row(vec![
            (text("Name"), Some(text("Ada"))),
            (text("Age"), None),
        ])
        .unwrap();
    t.set_cell(&text("Age"), idx, Some(Data::Integer(36))).unwrap();
    match t.get_cell(&text("Age"), idx).unwrap() {
        Some(d) => assert!(data_eq(d, &Data::Integer(36))),
        None => panic!("expected the overwritten value"),
    }
    // the other cell is untouched
    match t.get_cell(&text("Name"), idx).unwrap() {
        Some(d) => assert!(data_eq(d, &text("Ada"))),
        None => panic!("expected the untouched value"),
    }
    // a cell can be cleared again
    t.set_cell(&text("Age"), idx, None).unwrap();
    assert!(t.get_cell(&text("Age"), idx).unwrap().is_none());
}

#[test]
fn set_cell_checks_attribute_and_index() {
    let mut t = fresh_table();
    assert_eq!(
        t.set_cell(&text("Salary"), 0, None).err(),
        Some(TableError::AttributeNotFound)
    );
    assert_eq!(
        t.set_cell(&text("Name"), 0, None).err(),
        Some(TableError::IndexOutOfRange)
    );
    assert_eq!(t.row_count(), 0);
}

#[test]
fn table_error_messages() {
    assert_eq!(
        TableError::AttributeNotFound.message(),
        "the given attribute was not found"
    );
    assert_eq!(
        TableError::IncorrectRowSize.message(),
        "row does not have enough elements to be pushed (note: attributes can be set to None)"
    );
}
