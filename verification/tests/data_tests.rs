use database::data::{data_eq, data_lt_exec, Data};

#[test]
fn infer_integer() {
    let d = Data::convert_to_correct_data_from_str("42");
    assert!(data_eq(&d, &Data::Integer(42)));
}

#[test]
fn infer_character() {
    let d = Data::convert_to_correct_data_from_str("a");
    assert!(data_eq(&d, &Data::Character('a')));
}

#[test]
fn infer_boolean_true() {
    let d = Data::convert_to_correct_data_from_str("true");
    assert!(data_eq(&d, &Data::Boolean(true)));
}

#[test]
fn infer_boolean_false() {
    let d = Data::convert_to_correct_data_from_str("false");
    assert!(data_eq(&d, &Data::Boolean(false)));
}

#[test]
fn infer_text() {
    let d = Data::convert_to_correct_data_from_str("ab");
    assert!(data_eq(&d, &Data::Text(String::from("ab"))));
}

#[test]
fn infer_single_digit_is_integer_not_character() {
    let d = Data::convert_to_correct_data_from_str("1");
    assert!(data_eq(&d, &Data::Integer(1)));
}

#[test]
fn infer_negative_integer() {
    let d = Data::convert_to_correct_data_from_str("-17");
    assert!(data_eq(&d, &Data::Integer(-17)));
}

#[test]
fn infer_plus_sign_integer() {
    let d = Data::convert_to_correct_data_from_str("+7");
    assert!(data_eq(&d, &Data::Integer(7)));
}

#[test]
fn infer_extreme_integers() {
    let d = Data::convert_to_correct_data_from_str("9223372036854775807");
    assert!(data_eq(&d, &Data::Integer(i64::MAX)));
    let d = Data::convert_to_correct_data_from_str("-9223372036854775808");
    assert!(data_eq(&d, &Data::Integer(i64::MIN)));
}

#[test]
fn infer_overflowing_integer_is_text() {
    let d = Data::convert_to_correct_data_from_str("9223372036854775808");
    assert!(data_eq(&d, &Data::Text(String::from("9223372036854775808"))));
}

#[test]
fn infer_bare_sign_is_character() {
    let d = Data::convert_to_correct_data_from_str("-");
    assert!(data_eq(&d, &Data::Character('-')));
}

#[test]
fn infer_leading_zeros() {
    let d = Data::convert_to_correct_data_from_str("007");
    assert!(data_eq(&d, &Data::Integer(7)));
}

#[test]
fn data_equality_is_structural() {
    assert!(data_eq(
        &Data::Text(String::from("abc")),
        &Data::Text(String::from("abc"))
    ));
    assert!(!data_eq(
        &Data::Text(String::from("abc")),
        &Data::Text(String::from("abd"))
    ));
    assert!(!data_eq(&Data::Integer(1), &Data::Boolean(true)));
    assert!(data_eq(&Data::Blob(vec![1, 2, 3]), &Data::Blob(vec![1, 2, 3])));
    assert!(!data_eq(&Data::Blob(vec![1, 2, 3]), &Data::Blob(vec![1, 2])));
}

#[test]
fn order_ranks_variants() {
    // Text < Character < Integer < Boolean < Blob
    let text = Data::Text(String::from("zzz"));
    let ch = Data::Character('a');
    let int = Data::Integer(-100);
    let boolean = Data::Boolean(false);
    let blob = Data::Blob(vec![]);
    assert!(data_lt_exec(&text, &ch));
    assert!(data_lt_exec(&ch, &int));
    assert!(data_lt_exec(&int, &boolean));
    assert!(data_lt_exec(&boolean, &blob));
    assert!(!data_lt_exec(&blob, &text));
}

#[test]
fn order_within_variants() {
    assert!(data_lt_exec(
        &Data::Text(String::from("Age")),
        &Data::Text(String::from("Balance"))
    ));
    assert!(data_lt_exec(
        &Data::Text(String::from("Ab")),
        &Data::Text(String::from("Abc"))
    ));
    assert!(!data_lt_exec(
        &Data::Text(String::from("b")),
        &Data::Text(String::from("a"))
    ));
    assert!(data_lt_exec(&Data::Integer(-5), &Data::Integer(3)));
    assert!(data_lt_exec(&Data::Character('a'), &Data::Character('b')));
    assert!(data_lt_exec(&Data::Boolean(false), &Data::Boolean(true)));
    assert!(data_lt_exec(&Data::Blob(vec![1]), &Data::Blob(vec![1, 0])));
    assert!(data_lt_exec(&Data::Blob(vec![1, 2]), &Data::Blob(vec![2])));
}

#[test]
fn from_conversions() {
    assert!(data_eq(&Data::from('x'), &Data::Character('x')));
    assert!(data_eq(&Data::from(5i64), &Data::Integer(5)));
    assert!(data_eq(&Data::from(true), &Data::Boolean(true)));
    assert!(data_eq(&Data::from("hi"), &Data::Text(String::from("hi"))));
    assert!(data_eq(
        &Data::from(String::from("hi")),
        &Data::Text(String::from("hi"))
    ));
    assert!(data_eq(&Data::from(vec![1u8, 2]), &Data::Blob(vec![1, 2])));
}

#[test]
fn clone_preserves_value() {
    let d = Data::Text(String::from("hello"));
    assert!(data_eq(&d.clone(), &d));
    let b = Data::Blob(vec![9, 8, 7]);
    assert!(data_eq(&b.clone(), &b));
}
