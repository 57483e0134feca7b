use rjq::parser::{parse_query, CompOp, Expression};
use rjq::query::{QueryEngine, QueryError, QueryOp, ValueKind};
use rjq::value::{Cmp, Number, Value};

fn num(i: i64) -> Value {
    Value::Number(Number {
        mantissa: i,
        scale: 0,
    })
}

fn dec(mantissa: i64, scale: u32) -> Value {
    Value::Number(Number { mantissa, scale })
}

fn st(s: &str) -> Value {
    Value::String(s.to_string())
}

fn obj(pairs: Vec<(&str, Value)>) -> Value {
    Value::Object(
        pairs
            .into_iter()
            .map(|(k, v)| (k.to_string(), v))
            .collect(),
    )
}

#[test]
fn test_identity() {
    let engine = QueryEngine::new();
    let data = obj(vec![("name", st("John")), ("age", num(30))]);
    let expr = Expression::Identity;

    let result = engine.execute(&expr, &data).unwrap();
    assert_eq!(result, vec![data]);
}

#[test]
fn test_property_access() {
    let engine = QueryEngine::new();
    let data = obj(vec![("name", st("John")), ("age", num(30))]);
    let expr = Expression::Property("name".to_string());

    let result = engine.execute(&expr, &data).unwrap();
    assert_eq!(result, vec![st("John")]);
}

#[test]
fn test_array_index() {
    let engine = QueryEngine::new();
    let data = Value::Array(vec![num(1), num(2), num(3), num(4), num(5)]);
    let expr = Expression::Index(2);

    let result = engine.execute(&expr, &data).unwrap();
    assert_eq!(result, vec![num(3)]);
}

#[test]
fn test_array_slice() {
    let engine = QueryEngine::new();
    let data = Value::Array(vec![num(1), num(2), num(3), num(4), num(5)]);
    let expr = Expression::Slice(Some(1), Some(4));

    let result = engine.execute(&expr, &data).unwrap();
    assert_eq!(result, vec![Value::Array(vec![num(2), num(3), num(4)])]);
}

#[test]
fn test_pipe() {
    let engine = QueryEngine::new();
    let data = obj(vec![(
        "user",
        obj(vec![("name", st("John")), ("age", num(30))]),
    )]);

    let expr = Expression::Pipe(
        Box::new(Expression::Property("user".to_string())),
        Box::new(Expression::Property("name".to_string())),
    );

    let result = engine.execute(&expr, &data).unwrap();
    assert_eq!(result, vec![st("John")]);
}

#[test]
fn test_property_missing_key_gives_null() {
    let engine = QueryEngine::new();
    let data = obj(vec![]);
    let result = engine
        .execute(&Expression::Property("x".to_string()), &data)
        .unwrap();
    assert_eq!(result, vec![Value::Null]);
}

#[test]
fn test_property_on_array_is_type_fault() {
    let engine = QueryEngine::new();
    let data = Value::Array(vec![num(1), num(2)]);
    let result = engine.execute(&Expression::Property("x".to_string()), &data);
    assert_eq!(
        result,
        Err(QueryError::Type(QueryOp::Property, ValueKind::Array))
    );
}

#[test]
fn test_negative_and_out_of_range_index() {
    let engine = QueryEngine::new();
    let data = Value::Array(vec![num(1), num(2), num(3)]);
    let r1 = engine.execute(&Expression::Index(-1), &data).unwrap();
    assert_eq!(r1, vec![num(3)]);
    let r2 = engine.execute(&Expression::Index(5), &data).unwrap();
    assert_eq!(r2, vec![Value::Null]);
}

#[test]
fn test_slice_negative_and_inverted() {
    let engine = QueryEngine::new();
    let data = Value::Array(vec![num(1), num(2), num(3), num(4)]);
    let r1 = engine
        .execute(&Expression::Slice(Some(-2), None), &data)
        .unwrap();
    assert_eq!(r1, vec![Value::Array(vec![num(3), num(4)])]);

    let short = Value::Array(vec![num(1), num(2), num(3)]);
    let r2 = engine
        .execute(&Expression::Slice(Some(5), Some(1)), &short)
        .unwrap();
    assert_eq!(r2, vec![Value::Array(vec![])]);
}

#[test]
fn test_iterate_select_filters_elements() {
    let engine = QueryEngine::new();
    let data = Value::Array(vec![
        obj(vec![("t", st("a"))]),
        obj(vec![("t", st("b"))]),
    ]);
    let expr = Expression::Pipe(
        Box::new(Expression::Iterate),
        Box::new(Expression::Select(
            Box::new(Expression::Property("t".to_string())),
            CompOp::Eq,
            Box::new(Expression::Literal("b".to_string())),
        )),
    );
    let result = engine.execute(&expr, &data).unwrap();
    assert_eq!(result, vec![obj(vec![("t", st("b"))])]);
}

#[test]
fn test_keys_insertion_order_and_length() {
    let engine = QueryEngine::new();
    let data = obj(vec![("b", num(1)), ("a", num(2))]);
    let keys = engine.execute(&Expression::Keys, &data).unwrap();
    assert_eq!(keys, vec![Value::Array(vec![st("b"), st("a")])]);

    let data2 = obj(vec![("a", num(1)), ("b", num(2))]);
    let len = engine.execute(&Expression::Length, &data2).unwrap();
    assert_eq!(len, vec![num(2)]);
}

#[test]
fn test_keys_of_array_are_indices() {
    let engine = QueryEngine::new();
    let data = Value::Array(vec![st("x"), st("y"), st("z")]);
    let keys = engine.execute(&Expression::Keys, &data).unwrap();
    assert_eq!(keys, vec![Value::Array(vec![num(0), num(1), num(2)])]);
}

#[test]
fn test_length_of_string_counts_characters() {
    let engine = QueryEngine::new();
    let result = engine.execute(&Expression::Length, &st("hello")).unwrap();
    assert_eq!(result, vec![num(5)]);
}

#[test]
fn test_length_counts_characters_not_bytes() {
    let engine = QueryEngine::new();
    let result = engine.execute(&Expression::Length, &st("héllo")).unwrap();
    assert_eq!(result, vec![num(5)]);
}

#[test]
fn test_quoted_property_end_to_end() {
    let engine = QueryEngine::new();
    let expr = parse_query(".\"name with spaces\"").unwrap();
    let data = obj(vec![("name with spaces", num(7))]);
    let result = engine.execute(&expr, &data).unwrap();
    assert_eq!(result, vec![num(7)]);
}

#[test]
fn test_length_on_null_is_type_fault() {
    let engine = QueryEngine::new();
    let result = engine.execute(&Expression::Length, &Value::Null);
    assert_eq!(
        result,
        Err(QueryError::Type(QueryOp::Length, ValueKind::Null))
    );
}

#[test]
fn test_iterate_on_number_is_type_fault() {
    let engine = QueryEngine::new();
    let result = engine.execute(&Expression::Iterate, &num(7));
    assert_eq!(
        result,
        Err(QueryError::Type(QueryOp::Iterate, ValueKind::Number))
    );
}

#[test]
fn test_iterate_object_values() {
    let engine = QueryEngine::new();
    let data = obj(vec![("a", num(1)), ("b", num(2))]);
    let result = engine.execute(&Expression::Iterate, &data).unwrap();
    assert_eq!(result, vec![num(1), num(2)]);
}

#[test]
fn test_recursive_descent_document_order() {
    let engine = QueryEngine::new();
    let data = Value::Array(vec![num(1), Value::Array(vec![num(2)])]);
    let result = engine
        .execute(&Expression::RecursiveDescent, &data)
        .unwrap();
    assert_eq!(
        result,
        vec![
            Value::Array(vec![num(1), Value::Array(vec![num(2)])]),
            num(1),
            Value::Array(vec![num(2)]),
            num(2),
        ]
    );
}

#[test]
fn test_map_flattens_one_level() {
    let engine = QueryEngine::new();
    let data = Value::Array(vec![obj(vec![("x", num(1))]), obj(vec![("x", num(2))])]);
    let expr = Expression::MapEach(Box::new(Expression::Property("x".to_string())));
    let result = engine.execute(&expr, &data).unwrap();
    assert_eq!(result, vec![Value::Array(vec![num(1), num(2)])]);
}

#[test]
fn test_map_on_object_is_type_fault() {
    let engine = QueryEngine::new();
    let data = obj(vec![("x", num(1))]);
    let expr = Expression::MapEach(Box::new(Expression::Identity));
    assert_eq!(
        engine.execute(&expr, &data),
        Err(QueryError::Type(QueryOp::MapEach, ValueKind::Object))
    );
}

#[test]
fn test_array_construct_concatenates() {
    let engine = QueryEngine::new();
    let data = obj(vec![("a", num(1)), ("b", num(2))]);
    let expr = Expression::ArrayConstruct(vec![
        Expression::Property("b".to_string()),
        Expression::Property("a".to_string()),
    ]);
    let result = engine.execute(&expr, &data).unwrap();
    assert_eq!(result, vec![Value::Array(vec![num(2), num(1)])]);
}

#[test]
fn test_object_construct_last_write_wins() {
    let engine = QueryEngine::new();
    let data = obj(vec![("x", num(1)), ("y", num(2))]);
    let expr = Expression::ObjectConstruct(vec![
        ("a".to_string(), Expression::Property("x".to_string())),
        ("a".to_string(), Expression::Property("y".to_string())),
    ]);
    let result = engine.execute(&expr, &data).unwrap();
    assert_eq!(result, vec![obj(vec![("a", num(2))])]);
}

#[test]
fn test_object_construct_skips_empty_results() {
    let engine = QueryEngine::new();
    let data = obj(vec![("x", num(1))]);
    let expr = Expression::ObjectConstruct(vec![
        ("a".to_string(), Expression::Property("x".to_string())),
        (
            "b".to_string(),
            Expression::Select(
                Box::new(Expression::Property("x".to_string())),
                CompOp::Eq,
                Box::new(Expression::Literal("nope".to_string())),
            ),
        ),
    ]);
    let result = engine.execute(&expr, &data).unwrap();
    assert_eq!(result, vec![obj(vec![("a", num(1))])]);
}

#[test]
fn test_select_numeric_order() {
    let engine = QueryEngine::new();
    let data = obj(vec![("a", dec(15, 1)), ("b", num(2))]);
    let keep = Expression::Select(
        Box::new(Expression::Property("a".to_string())),
        CompOp::Lt,
        Box::new(Expression::Property("b".to_string())),
    );
    assert_eq!(engine.execute(&keep, &data).unwrap(), vec![data.duplicate()]);

    let drop = Expression::Select(
        Box::new(Expression::Property("a".to_string())),
        CompOp::Ge,
        Box::new(Expression::Property("b".to_string())),
    );
    assert_eq!(engine.execute(&drop, &data).unwrap(), vec![]);
}

#[test]
fn test_select_equality_is_structural_for_numbers() {
    let engine = QueryEngine::new();
    // 1.0 and 1 are the same magnitude but different decimals
    let data = obj(vec![("a", dec(10, 1)), ("b", num(1))]);
    let eq = Expression::Select(
        Box::new(Expression::Property("a".to_string())),
        CompOp::Eq,
        Box::new(Expression::Property("b".to_string())),
    );
    assert_eq!(engine.execute(&eq, &data).unwrap(), vec![]);
    let le = Expression::Select(
        Box::new(Expression::Property("a".to_string())),
        CompOp::Le,
        Box::new(Expression::Property("b".to_string())),
    );
    assert_eq!(engine.execute(&le, &data).unwrap(), vec![data.duplicate()]);
}

#[test]
fn test_select_object_equality_ignores_key_order() {
    let engine = QueryEngine::new();
    let data = obj(vec![
        ("p", obj(vec![("a", num(1)), ("b", num(2))])),
        ("q", obj(vec![("b", num(2)), ("a", num(1))])),
    ]);
    let expr = Expression::Select(
        Box::new(Expression::Property("p".to_string())),
        CompOp::Eq,
        Box::new(Expression::Property("q".to_string())),
    );
    assert_eq!(engine.execute(&expr, &data).unwrap(), vec![data.duplicate()]);
}

#[test]
fn test_select_on_scalar_is_no_match() {
    let engine = QueryEngine::new();
    let expr = Expression::Select(
        Box::new(Expression::Identity),
        CompOp::Eq,
        Box::new(Expression::Identity),
    );
    assert_eq!(engine.execute(&expr, &st("x")).unwrap(), vec![]);
}

#[test]
fn test_pipe_associativity_example() {
    let engine = QueryEngine::new();
    let data = Value::Array(vec![
        Value::Array(vec![num(1), num(2)]),
        Value::Array(vec![num(3)]),
    ]);
    let a = || Box::new(Expression::Iterate);
    let b = || Box::new(Expression::Iterate);
    let c = || Box::new(Expression::Identity);
    let left = Expression::Pipe(Box::new(Expression::Pipe(a(), b())), c());
    let right = Expression::Pipe(a(), Box::new(Expression::Pipe(b(), c())));
    let r1 = engine.execute(&left, &data).unwrap();
    let r2 = engine.execute(&right, &data).unwrap();
    assert_eq!(r1, r2);
    assert_eq!(r1, vec![num(1), num(2), num(3)]);
}

#[test]
fn test_object_shorthand_end_to_end() {
    let engine = QueryEngine::new();
    let expr = parse_query("{city}").unwrap();
    let data = obj(vec![("city", st("X")), ("zip", st("Y"))]);
    let result = engine.execute(&expr, &data).unwrap();
    assert_eq!(result, vec![obj(vec![("city", st("X"))])]);
}

#[test]
fn test_phone_number_end_to_end() {
    let engine = QueryEngine::new();
    let expr = parse_query(".phones[0].number").unwrap();
    let data = obj(vec![(
        "phones",
        Value::Array(vec![obj(vec![("number", st("555-1234"))])]),
    )]);
    let result = engine.execute(&expr, &data).unwrap();
    assert_eq!(result, vec![st("555-1234")]);
}

#[test]
fn test_items_length_end_to_end() {
    let engine = QueryEngine::new();
    let expr = parse_query(".items | length").unwrap();
    let data = obj(vec![("items", Value::Array(vec![num(1), num(2), num(3)]))]);
    let result = engine.execute(&expr, &data).unwrap();
    assert_eq!(result, vec![num(3)]);
}

#[test]
fn test_select_end_to_end() {
    let engine = QueryEngine::new();
    let expr = parse_query(".[] | select(.t == \"b\")").unwrap();
    let data = Value::Array(vec![
        obj(vec![("t", st("a"))]),
        obj(vec![("t", st("b"))]),
    ]);
    let result = engine.execute(&expr, &data).unwrap();
    assert_eq!(result, vec![obj(vec![("t", st("b"))])]);
}

#[test]
fn test_deep_eq_and_compare() {
    let a = Value::Array(vec![num(1), st("x")]);
    let b = Value::Array(vec![num(1), st("x")]);
    assert!(a.deep_eq(&b));
    assert_eq!(num(1).compare(&num(2)), Some(Cmp::Less));
    assert_eq!(st("ab").compare(&st("b")), Some(Cmp::Less));
    assert_eq!(Value::Bool(false).compare(&Value::Bool(true)), Some(Cmp::Less));
    // arrays of different lengths have no order
    assert_eq!(
        Value::Array(vec![num(1)]).compare(&Value::Array(vec![num(1), num(2)])),
        None
    );
    // mixed kinds have no order
    assert_eq!(num(1).compare(&st("1")), None);
}

#[test]
fn test_well_formed_checks_scale() {
    assert!(num(5).well_formed());
    assert!(!dec(1, 19).well_formed());
}
