use schema_graph::resolve::{translate, SchemaError};
use schema_graph::schema::SourceTypeInfo;
use schema_graph::validate::validate;
use schema_graph::value::{Type, Value};

fn node(t: Type) -> SourceTypeInfo {
    SourceTypeInfo {
        type_: t,
        properties: Vec::new(),
        items: None,
        ref_: String::new(),
        definitions: Vec::new(),
    }
}

fn obj(props: Vec<(&str, SourceTypeInfo)>) -> SourceTypeInfo {
    let mut n = node(Type::object);
    n.properties = props.into_iter().map(|(k, v)| (k.to_string(), v)).collect();
    n
}

fn arr(items: SourceTypeInfo) -> SourceTypeInfo {
    let mut n = node(Type::array);
    n.items = Some(Box::new(items));
    n
}

fn reference(r: &str) -> SourceTypeInfo {
    let mut n = node(Type::null);
    n.ref_ = r.to_string();
    n
}

fn text(s: &str) -> Value {
    Value::Text(s.to_string())
}

fn object(fields: Vec<(&str, Value)>) -> Value {
    Value::Object(fields.into_iter().map(|(k, v)| (k.to_string(), v)).collect())
}

/// The schema of the flat person document: firstName is an array of
/// strings, age is a number.
fn basic_schema() -> SourceTypeInfo {
    obj(vec![
        ("firstName", arr(node(Type::string))),
        ("age", node(Type::number)),
    ])
}

/// The self-referential person document: a person's children are an array
/// of persons.
fn cyclic_schema() -> SourceTypeInfo {
    let person = obj(vec![
        ("firstName", arr(node(Type::string))),
        ("lastName", node(Type::string)),
        ("age", node(Type::number)),
        ("children", arr(reference("#/definitions/person"))),
    ]);
    let mut root = reference("#/definitions/person");
    root.definitions = vec![("person".to_string(), person)];
    root
}

fn run_test(schema: &schema_graph::schema::Schema, value: &Value, expected: &[&str]) {
    let errs = validate(schema, value);
    let errs = errs.iter().map(|s| s.as_str()).collect::<Vec<_>>();
    assert_eq!(errs.as_slice(), expected);
}

#[test]
fn schema1_test() {
    let schema = translate(&basic_schema()).unwrap();

    let val1 = text("hello");
    run_test(
        &schema,
        &val1,
        &["/: type mismatch, expected: object, actual: string"],
    );

    let val2 = object(vec![
        ("firstName", Value::Array(vec![object(vec![]), text("Alex")])),
        ("age", Value::Array(vec![])),
    ]);
    run_test(
        &schema,
        &val2,
        &[
            "/firstName/0: type mismatch, expected: string, actual: object",
            "/age: type mismatch, expected: number, actual: array",
        ],
    );
}

#[test]
fn schema2_test() {
    let schema = translate(&cyclic_schema()).unwrap();

    let val1 = text("hello");
    run_test(
        &schema,
        &val1,
        &["/: type mismatch, expected: object, actual: string"],
    );

    let val2 = object(vec![
        ("firstName", Value::Array(vec![object(vec![]), text("Alex")])),
        ("age", Value::Array(vec![])),
    ]);
    run_test(
        &schema,
        &val2,
        &[
            "/firstName/0: type mismatch, expected: string, actual: object",
            "/age: type mismatch, expected: number, actual: array",
        ],
    );

    // Recursive!
    let val3 = object(vec![
        ("firstName", Value::Array(vec![object(vec![]), text("Alex")])),
        ("age", Value::Array(vec![])),
        (
            "children",
            Value::Array(vec![object(vec![
                ("firstName", Value::Array(vec![text("Alice")])),
                ("lastName", Value::Number(12)),
            ])]),
        ),
    ]);
    run_test(
        &schema,
        &val3,
        &[
            "/firstName/0: type mismatch, expected: string, actual: object",
            "/age: type mismatch, expected: number, actual: array",
            "/children/0/lastName: type mismatch, expected: string, actual: number",
        ],
    );
}

#[test]
fn null_is_wildcard_at_root_and_in_subtrees() {
    let schema = translate(&cyclic_schema()).unwrap();
    run_test(&schema, &Value::Null, &[]);

    // A null field and a null array element are never flagged either.
    let val = object(vec![
        ("firstName", Value::Array(vec![Value::Null, text("ok")])),
        ("age", Value::Null),
        ("children", Value::Array(vec![Value::Null])),
    ]);
    run_test(&schema, &val, &[]);
}

#[test]
fn kind_mismatch_halts_descent() {
    let schema = translate(&obj(vec![("a", node(Type::number))])).unwrap();
    let val = object(vec![("a", text("x")), ("b", Value::Number(1))]);
    run_test(
        &schema,
        &val,
        &["/a: type mismatch, expected: number, actual: string"],
    );
}

#[test]
fn path_composition() {
    let schema = translate(&obj(vec![("items", arr(node(Type::string)))])).unwrap();
    let val = object(vec![(
        "items",
        Value::Array(vec![Value::Number(1), text("ok"), object(vec![])]),
    )]);
    run_test(
        &schema,
        &val,
        &[
            "/items/0: type mismatch, expected: string, actual: number",
            "/items/2: type mismatch, expected: string, actual: object",
        ],
    );
}

#[test]
fn self_reference() {
    let person = obj(vec![("children", arr(reference("#/definitions/person")))]);
    let mut root = reference("#/definitions/person");
    root.definitions = vec![("person".to_string(), person)];
    let schema = translate(&root).unwrap();
    let val = object(vec![(
        "children",
        Value::Array(vec![object(vec![(
            "children",
            Value::Array(vec![Value::Number(1)]),
        )])]),
    )]);
    run_test(
        &schema,
        &val,
        &["/children/0/children/0: type mismatch, expected: object, actual: number"],
    );
}

#[test]
fn top_level_kind_mismatch() {
    let schema = translate(&node(Type::object)).unwrap();
    run_test(
        &schema,
        &text("hello"),
        &["/: type mismatch, expected: object, actual: string"],
    );
}

#[test]
fn resolution_is_deterministic() {
    let s1 = translate(&cyclic_schema()).unwrap();
    let s2 = translate(&cyclic_schema()).unwrap();
    assert_eq!(s1.root, s2.root);
    assert_eq!(s1.types.len(), s2.types.len());
    for (a, b) in s1.types.iter().zip(s2.types.iter()) {
        assert_eq!(a.type_, b.type_);
        assert_eq!(a.properties, b.properties);
        assert_eq!(a.items, b.items);
    }
}

#[test]
fn repeated_references_share_one_node() {
    // Two references to the same definition, plus a self-reference inside
    // it: the arena stays small and both references point at one index.
    let person = obj(vec![("children", arr(reference("#/definitions/person")))]);
    let mut root = obj(vec![
        ("a", reference("#/definitions/person")),
        ("b", reference("#/definitions/person")),
    ]);
    root.definitions = vec![("person".to_string(), person)];
    let schema = translate(&root).unwrap();
    let root_node = schema.root();
    assert_eq!(root_node.properties.len(), 2);
    let a_idx = root_node.properties[0].1;
    let b_idx = root_node.properties[1].1;
    assert_eq!(a_idx, b_idx);
    // person, its children array, the root: three nodes in all.
    assert_eq!(schema.types.len(), 3);
}

#[test]
fn malformed_reference_is_fatal() {
    let mut root = obj(vec![("a", reference("person"))]);
    root.definitions = vec![("person".to_string(), node(Type::string))];
    let err = translate(&root).unwrap_err();
    assert_eq!(err, SchemaError::MalformedRef("person".to_string()));
}

#[test]
fn unknown_definition_is_fatal() {
    let mut root = obj(vec![("a", reference("#/definitions/nope"))]);
    root.definitions = vec![("person".to_string(), node(Type::string))];
    let err = translate(&root).unwrap_err();
    assert_eq!(err, SchemaError::UnknownDefinition("nope".to_string()));
}

#[test]
fn array_without_items_is_detected() {
    let schema = translate(&obj(vec![("xs", node(Type::array))])).unwrap();
    assert!(!schema.has_resolved_arrays());
    let with_items = translate(&obj(vec![("xs", arr(node(Type::number)))])).unwrap();
    assert!(with_items.has_resolved_arrays());
}

#[test]
fn default_kind_is_null() {
    assert_eq!(Type::default(), Type::null);
}

#[test]
fn matching_document_yields_no_errors() {
    let schema = translate(&cyclic_schema()).unwrap();
    let val = object(vec![
        ("firstName", Value::Array(vec![text("Alex")])),
        ("lastName", text("Smith")),
        ("age", Value::Number(40)),
        (
            "children",
            Value::Array(vec![object(vec![(
                "firstName",
                Value::Array(vec![text("Alice")]),
            )])]),
        ),
    ]);
    run_test(&schema, &val, &[]);
}

#[test]
fn bool_and_number_leaves() {
    let schema = translate(&obj(vec![
        ("flag", node(Type::bool)),
        ("n", node(Type::number)),
    ]))
    .unwrap();
    let ok = object(vec![("flag", Value::Bool(true)), ("n", Value::Number(3))]);
    run_test(&schema, &ok, &[]);
    let bad = object(vec![("flag", Value::Number(0)), ("n", Value::Bool(false))]);
    run_test(
        &schema,
        &bad,
        &[
            "/flag: type mismatch, expected: bool, actual: number",
            "/n: type mismatch, expected: number, actual: bool",
        ],
    );
}

#[test]
fn undeclared_fields_are_ignored_and_schema_order_rules() {
    let schema = translate(&obj(vec![
        ("a", node(Type::string)),
        ("b", node(Type::number)),
    ]))
    .unwrap();
    // Fields arrive in another order, with an extra one; errors follow the
    // schema's own property order and skip the undeclared field.
    let val = object(vec![
        ("b", text("no")),
        ("zzz", Value::Bool(true)),
        ("a", Value::Number(9)),
    ]);
    run_test(
        &schema,
        &val,
        &[
            "/a: type mismatch, expected: string, actual: number",
            "/b: type mismatch, expected: number, actual: string",
        ],
    );
}
