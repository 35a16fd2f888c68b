use declarative_dataflow::attribute::QueryError;
use declarative_dataflow::filter::{ConstantBinding, Filter, Predicate};
use declarative_dataflow::value::Value;

fn rows() -> Vec<Vec<Value>> {
    vec![
        vec![Value::Eid(1), Value::Number(5)],
        vec![Value::Eid(2), Value::Number(10)],
        vec![Value::Eid(3), Value::Number(10)],
        vec![Value::Eid(4), Value::Number(20)],
    ]
}

fn numbers_of(out: &[Vec<Value>]) -> Vec<(u64, i64)> {
    out.iter()
        .map(|t| match (&t[0], &t[1]) {
            (Value::Eid(e), Value::Number(n)) => (*e, *n),
            _ => panic!("unexpected row shape"),
        })
        .collect()
}

fn filter_with(pred: Predicate, constants: Vec<ConstantBinding>, vars: Vec<u32>) -> Vec<(u64, i64)> {
    let filter = Filter { variables: vars, predicate: pred, constants };
    let out = filter.implement(&vec![1, 2], &rows()).expect("filter failed");
    numbers_of(&out)
}

fn right_const(n: i64) -> Vec<ConstantBinding> {
    vec![ConstantBinding { position: 1, value: Value::Number(n) }]
}

fn left_const(n: i64) -> Vec<ConstantBinding> {
    vec![ConstantBinding { position: 0, value: Value::Number(n) }]
}

#[test]
fn filter_right_constant_all_predicates() {
    // The symbol stands left, the constant right: rows with value ? 10.
    let v = vec![2];
    assert_eq!(filter_with(Predicate::LT, right_const(10), v.clone()), vec![(1, 5)]);
    assert_eq!(
        filter_with(Predicate::LTE, right_const(10), v.clone()),
        vec![(1, 5), (2, 10), (3, 10)]
    );
    assert_eq!(filter_with(Predicate::GT, right_const(10), v.clone()), vec![(4, 20)]);
    assert_eq!(
        filter_with(Predicate::GTE, right_const(10), v.clone()),
        vec![(2, 10), (3, 10), (4, 20)]
    );
    assert_eq!(filter_with(Predicate::EQ, right_const(10), v.clone()), vec![(2, 10), (3, 10)]);
    assert_eq!(filter_with(Predicate::NEQ, right_const(10), v), vec![(1, 5), (4, 20)]);
}

#[test]
fn filter_left_constant_all_predicates() {
    // The constant stands left: rows where 10 ? value.
    let v = vec![2];
    assert_eq!(filter_with(Predicate::LT, left_const(10), v.clone()), vec![(4, 20)]);
    assert_eq!(
        filter_with(Predicate::LTE, left_const(10), v.clone()),
        vec![(2, 10), (3, 10), (4, 20)]
    );
    assert_eq!(filter_with(Predicate::GT, left_const(10), v.clone()), vec![(1, 5)]);
    assert_eq!(
        filter_with(Predicate::GTE, left_const(10), v.clone()),
        vec![(1, 5), (2, 10), (3, 10)]
    );
    assert_eq!(filter_with(Predicate::EQ, left_const(10), v.clone()), vec![(2, 10), (3, 10)]);
    assert_eq!(filter_with(Predicate::NEQ, left_const(10), v), vec![(1, 5), (4, 20)]);
}

#[test]
fn filter_two_symbols() {
    // Comparing two bound symbols of mixed kinds: entities order after
    // numbers in the value order, so eid < number never holds.
    let filter = Filter { variables: vec![1, 2], predicate: Predicate::LT, constants: vec![] };
    let out = filter.implement(&vec![1, 2], &rows()).expect("filter failed");
    assert_eq!(numbers_of(&out), Vec::<(u64, i64)>::new());
    let filter = Filter { variables: vec![1, 2], predicate: Predicate::GT, constants: vec![] };
    let out = filter.implement(&vec![1, 2], &rows()).expect("filter failed");
    assert_eq!(out.len(), 4);
}

#[test]
fn filter_rejects_unbound_symbol() {
    let filter = Filter { variables: vec![7], predicate: Predicate::EQ, constants: right_const(1) };
    assert!(matches!(
        filter.implement(&vec![1, 2], &rows()),
        Err(QueryError::MalformedBinding)
    ));
}

#[test]
fn filter_rejects_missing_second_symbol() {
    // No constant and only one bound symbol: there is nothing to compare
    // against.
    let filter = Filter { variables: vec![1], predicate: Predicate::EQ, constants: vec![] };
    assert!(matches!(
        filter.implement(&vec![1, 2], &rows()),
        Err(QueryError::MalformedBinding)
    ));
}

#[test]
fn value_order_strings() {
    let a = Value::String("apple".to_string());
    let b = Value::String("banana".to_string());
    let a2 = Value::String("apple".to_string());
    assert!(a.lt_value(&b));
    assert!(!b.lt_value(&a));
    assert!(a.eq_value(&a2));
    assert!(!a.eq_value(&b));
    // Prefixes order before their extensions.
    let app = Value::String("app".to_string());
    assert!(app.lt_value(&a));
    // Tags order before payloads: booleans before numbers before strings
    // before entities.
    assert!(Value::Bool(true).lt_value(&Value::Number(-5)));
    assert!(Value::Number(900).lt_value(&a));
    assert!(a.lt_value(&Value::Eid(0)));
}
