use database::data::Data;
use database::table::Table;

fn text(s: &str) -> Data {
    Data::Text(String::from(s))
}

#[test]
fn values_render_as_plain_text() {
    assert_eq!(text("hello").render(), "hello");
    assert_eq!(Data::Character('x').render(), "x");
    assert_eq!(Data::Boolean(true).render(), "true");
    assert_eq!(Data::Boolean(false).render(), "false");
    assert_eq!(Data::Blob(vec![1, 2]).render(), "-- blob --");
}

#[test]
fn integers_render_in_decimal() {
    assert_eq!(Data::Integer(0).render(), "0");
    assert_eq!(Data::Integer(42).render(), "42");
    assert_eq!(Data::Integer(-17).render(), "-17");
    assert_eq!(Data::Integer(1000).render(), "1000");
    assert_eq!(Data::Integer(i64::MAX).render(), "9223372036854775807");
    assert_eq!(Data::Integer(i64::MIN).render(), "-9223372036854775808");
}

#[test]
fn table_grid_shows_labels_and_values() {
    let mut t = Table::new(text("T"), vec![text("Name"), text("Age")]).unwrap();
    t.push_row(vec![
        (text("Name"), Some(text("Ada"))),
        (text("Age"), Some(Data::Integer(36))),
    ])
    .unwrap();
    t.push_row(vec![(text("Name"), Some(text("Bob"))), (text("Age"), None)])
        .unwrap();
    let grid = t.render();
    assert!(grid.contains("Name"));
    assert!(grid.contains("Age"));
    assert!(grid.contains("Ada"));
    assert!(grid.contains("Bob"));
    assert!(grid.contains("36"));
    assert!(grid.contains("|"));
    assert!(grid.contains("_"));
    // header, rule, and one line plus rule per row
    assert_eq!(grid.lines().count(), 6);
}

#[test]
fn grid_shape_is_exact() {
    // one column labelled "A" (width 1 + 10), one row holding 7
    let mut t = Table::new(text("T"), vec![text("A")]).unwrap();
    t.push_row(vec![(text("A"), Some(Data::Integer(7)))]).unwrap();
    let expected = "     A     |\n____________\n7          |\n____________\n";
    assert_eq!(t.render(), expected);
}

#[test]
fn empty_table_grid_is_header_and_rule() {
    let t = Table::new(text("T"), vec![text("A")]).unwrap();
    assert_eq!(t.render(), "     A     |\n____________\n");
}

#[test]
fn missing_cells_render_as_blanks() {
    let mut t = Table::new(text("T"), vec![text("A")]).unwrap();
    t.push_row(vec![(text("A"), None)]).unwrap();
    assert_eq!(t.render(), "     A     |\n____________\n           |\n____________\n");
}

#[test]
fn oversized_values_are_cut_with_an_ellipsis() {
    let mut t = Table::new(text("T"), vec![text("A")]).unwrap();
    t.push_row(vec![(
        text("A"),
        Some(text("a value far too long for an eleven character cell")),
    )])
    .unwrap();
    let grid = t.render();
    assert!(grid.contains("..."));
    assert!(!grid.contains("far too long"));
}
