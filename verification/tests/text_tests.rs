use schema_graph::text::{extend_path, kind_str, render_mismatch, str_has_prefix, usize_to_string};
use schema_graph::value::Type;

#[test]
fn decimal_rendering() {
    assert_eq!("0", usize_to_string(0));
    assert_eq!("7", usize_to_string(7));
    assert_eq!("10", usize_to_string(10));
    assert_eq!("123", usize_to_string(123));
    assert_eq!("10050", usize_to_string(10050));
    assert_eq!(usize::MAX.to_string(), usize_to_string(usize::MAX));
}

#[test]
fn kind_names() {
    assert_eq!("object", kind_str(&Type::object));
    assert_eq!("string", kind_str(&Type::string));
    assert_eq!("number", kind_str(&Type::number));
    assert_eq!("bool", kind_str(&Type::bool));
    assert_eq!("array", kind_str(&Type::array));
    assert_eq!("null", kind_str(&Type::null));
}

#[test]
fn mismatch_rendering() {
    assert_eq!(
        "/: type mismatch, expected: object, actual: string",
        render_mismatch(&String::new(), &Type::object, &Type::string)
    );
    assert_eq!(
        "/a/0: type mismatch, expected: number, actual: bool",
        render_mismatch(&"/a/0".to_string(), &Type::number, &Type::bool)
    );
}

#[test]
fn path_extension() {
    assert_eq!("/age", extend_path(&String::new(), "age"));
    assert_eq!("/a/3", extend_path(&"/a".to_string(), "3"));
}

#[test]
fn prefix_test() {
    assert!(str_has_prefix("#/definitions/person", "#/definitions/"));
    assert!(str_has_prefix("abc", ""));
    assert!(!str_has_prefix("#/def/person", "#/definitions/"));
    assert!(!str_has_prefix("#", "#/definitions/"));
}
