use database::command::{
    tokenize, Command, CommandParser, DatabaseCommand, DatabaseCommandError,
    DefaultCommandParser, GetTable, NewTable,
};
use database::data::{data_eq, Data};
use database::database::{Database, DatabaseConfig, DatabaseError, DatabaseStorageType};

fn text(s: &str) -> Data {
    Data::Text(String::from(s))
}

fn fresh_db() -> Database {
    Database::new(DatabaseConfig::new(true, DatabaseStorageType::Memory))
}

#[test]
fn tokenize_splits_on_arbitrary_whitespace() {
    assert_eq!(tokenize("a b"), vec!["a", "b"]);
    assert_eq!(tokenize("  a \t b \n c  "), vec!["a", "b", "c"]);
    assert_eq!(tokenize(""), Vec::<&str>::new());
    assert_eq!(tokenize("   \t  "), Vec::<&str>::new());
}

#[test]
fn tokenize_splits_on_unicode_whitespace() {
    // no-break space, line separator, ideographic space
    assert_eq!(tokenize("a\u{A0}b"), vec!["a", "b"]);
    assert_eq!(tokenize("a\u{2028}b\u{3000}c"), vec!["a", "b", "c"]);
    // matches the standard library's notion of whitespace
    for c in ['\u{A0}', '\u{1680}', '\u{2003}', '\u{202F}', '\u{205F}'] {
        assert!(c.is_whitespace());
        assert_eq!(tokenize(&format!("x{}y", c)), vec!["x", "y"]);
    }
}

#[test]
fn parse_empty_line_fails_keyword_not_provided() {
    let r = DefaultCommandParser.parse("");
    assert!(matches!(r, Err(DatabaseCommandError::KeywordNotProvided)));
    let r = DefaultCommandParser.parse("   ");
    assert!(matches!(r, Err(DatabaseCommandError::KeywordNotProvided)));
}

#[test]
fn parse_unknown_keyword_fails_keyword_not_found() {
    let r = DefaultCommandParser.parse("Frobnicate");
    assert!(matches!(r, Err(DatabaseCommandError::KeywordNotFound)));
}

#[test]
fn parse_new_table_without_attributes_fails() {
    let r = DefaultCommandParser.parse("NewTable T");
    match r {
        Err(DatabaseCommandError::ArgumentNotProvided(f)) => assert_eq!(f, "attributes"),
        _ => panic!("expected a missing-argument failure"),
    }
}

#[test]
fn parse_new_table_without_name_fails() {
    let r = DefaultCommandParser.parse("NewTable");
    match r {
        Err(DatabaseCommandError::ArgumentNotProvided(f)) => assert_eq!(f, "table name"),
        _ => panic!("expected a missing-argument failure"),
    }
}

#[test]
fn parse_get_table_without_name_fails() {
    let r = DefaultCommandParser.parse("GetTable");
    match r {
        Err(DatabaseCommandError::ArgumentNotProvided(f)) => assert_eq!(f, "table name"),
        _ => panic!("expected a missing-argument failure"),
    }
}

#[test]
fn end_to_end_new_table_then_get_table() {
    let mut db = fresh_db();

    let mut cmd = DefaultCommandParser
        .parse("NewTable Users Name Age Balance")
        .unwrap();
    let idx = cmd.execute(&mut db).unwrap();
    assert_eq!(idx, 0);
    assert_eq!(db.table_count(), 1);

    let t = db.table(idx);
    assert!(data_eq(t.name(), &text("Users")));
    // attributes are kept in value order: all are text, so lexicographic
    let attrs = t.attributes();
    assert_eq!(attrs.len(), 3);
    assert!(data_eq(&attrs[0], &text("Age")));
    assert!(data_eq(&attrs[1], &text("Balance")));
    assert!(data_eq(&attrs[2], &text("Name")));
    assert_eq!(t.row_count(), 0);

    let mut cmd = DefaultCommandParser.parse("GetTable Users").unwrap();
    let found = cmd.execute(&mut db).unwrap();
    assert_eq!(found, idx);
    assert_eq!(db.table(found).row_count(), 0);
}

#[test]
fn execute_new_table_twice_fails_name_already_exists() {
    let mut db = fresh_db();
    let mut cmd = DefaultCommandParser.parse("NewTable Users Name").unwrap();
    cmd.execute(&mut db).unwrap();
    let mut cmd = DefaultCommandParser.parse("NewTable Users Name").unwrap();
    let r = cmd.execute(&mut db);
    assert_eq!(r.err(), Some(DatabaseError::NameAlreadyExists));
    assert_eq!(db.table_count(), 1);
}

#[test]
fn execute_get_table_unknown_fails_name_does_not_exist() {
    let mut db = fresh_db();
    let mut cmd = DefaultCommandParser.parse("GetTable Ghost").unwrap();
    let r = cmd.execute(&mut db);
    assert_eq!(r.err(), Some(DatabaseError::NameDoesNotExist));
}

#[test]
fn command_tokens_are_coerced_by_inference() {
    let mut db = fresh_db();
    // the name 42 becomes an integer, the attribute tokens keep their kinds
    let mut cmd = DefaultCommandParser.parse("NewTable 42 Name true 7").unwrap();
    let idx = cmd.execute(&mut db).unwrap();
    let t = db.table(idx);
    assert!(data_eq(t.name(), &Data::Integer(42)));
    let attrs = t.attributes();
    assert_eq!(attrs.len(), 3);
    // sorted: Text("Name") < Integer(7) < Boolean(true)
    assert!(data_eq(&attrs[0], &text("Name")));
    assert!(data_eq(&attrs[1], &Data::Integer(7)));
    assert!(data_eq(&attrs[2], &Data::Boolean(true)));
}

#[test]
fn repeated_attribute_tokens_collapse_to_one_column() {
    let mut db = fresh_db();
    let mut cmd = DefaultCommandParser.parse("NewTable T A B A").unwrap();
    let idx = cmd.execute(&mut db).unwrap();
    assert_eq!(db.table(idx).attribute_count(), 2);
}

#[test]
fn bind_directly_then_execute() {
    let mut db = fresh_db();
    let mut cmd = NewTable::new();
    cmd.arg_parser(vec!["Users", "Name"]).unwrap();
    let idx = cmd.execute(&mut db).unwrap();
    assert!(data_eq(db.table(idx).name(), &text("Users")));

    let mut get = GetTable::new();
    get.arg_parser(vec!["Users"]).unwrap();
    assert_eq!(get.execute(&mut db).unwrap(), idx);
}

#[test]
fn bind_failure_reports_missing_field() {
    let mut cmd = NewTable::new();
    let r = cmd.arg_parser(vec![]);
    match r {
        Err(DatabaseCommandError::ArgumentNotProvided(f)) => assert_eq!(f, "table name"),
        _ => panic!("expected a missing-argument failure"),
    }
    let r = cmd.arg_parser(vec!["T"]);
    match r {
        Err(DatabaseCommandError::ArgumentNotProvided(f)) => assert_eq!(f, "attributes"),
        _ => panic!("expected a missing-argument failure"),
    }
}

#[test]
fn parse_produces_a_bound_command_variant() {
    let cmd = DefaultCommandParser.parse("NewTable T A").unwrap();
    assert!(matches!(cmd, Command::NewTable(_)));
    let cmd = DefaultCommandParser.parse("GetTable T").unwrap();
    assert!(matches!(cmd, Command::GetTable(_)));
}

#[test]
fn command_error_messages() {
    assert_eq!(
        DatabaseCommandError::KeywordNotProvided.message(),
        "a keyword was not provided in the command."
    );
    assert_eq!(
        DatabaseCommandError::KeywordNotFound.message(),
        "the keyword provided was not found"
    );
    assert_eq!(
        DatabaseCommandError::ArgumentNotProvided(String::from("attributes")).message(),
        "`attributes` argument not provided"
    );
}
