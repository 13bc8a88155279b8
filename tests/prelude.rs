use front::bytecode::{table_insert, value_eq, Module, Value};
use front::prelude::{error_tuple, fold, head, insert, rev, tail};

fn s(x: &str) -> String {
    x.to_string()
}

fn list(ns: &[i64]) -> Value {
    Value::List(ns.iter().map(|n| Value::Num(*n)).collect())
}

fn is_error(v: &Value) -> bool {
    matches!(v, Value::Tuple(xs) if xs.len() == 2 && xs[0] == Value::Sym(s("error")))
}

#[test]
fn rev_reverses_a_list() {
    assert_eq!(rev(&[list(&[1, 2, 3])]), list(&[3, 2, 1]));
    assert_eq!(rev(&[list(&[])]), list(&[]));
}

#[test]
fn rev_rejects_a_non_list() {
    assert!(is_error(&rev(&[Value::Num(1)])));
}

#[test]
fn head_and_tail() {
    assert_eq!(head(&[list(&[4, 5])]), Value::Num(4));
    assert_eq!(head(&[list(&[])]), Value::Nil);
    assert_eq!(tail(&[list(&[4, 5, 6])]), list(&[5, 6]));
    assert_eq!(tail(&[list(&[4])]), list(&[]));
    assert_eq!(tail(&[list(&[])]), list(&[]));
    assert!(is_error(&head(&[Value::Nil])));
    assert!(is_error(&tail(&[Value::Bool(true)])));
}

#[test]
fn map_applies_in_order() {
    let double = |_f: &Value, x: &Value| match x {
        Value::Num(n) => Ok(Value::Num(2 * n)),
        _ => Err(s("not a number")),
    };
    assert_eq!(front::prelude::map(&[Value::Nil, list(&[1, 2, 3])], double), list(&[2, 4, 6]));
    let r = front::prelude::map(&[Value::Nil, Value::List(vec![Value::Num(1), Value::Nil])], double);
    assert!(is_error(&r));
    if let Value::Tuple(xs) = r {
        assert_eq!(xs[1], Value::Str(s("not a number")));
    }
    assert!(is_error(&front::prelude::map(&[Value::Nil, Value::Nil], double)));
}

#[test]
fn fold_combines_from_the_left() {
    let minus = |_f: &Value, acc: &Value, x: &Value| match (acc, x) {
        (Value::Num(a), Value::Num(b)) => Ok(Value::Num(a - b)),
        _ => Err(s("not a number")),
    };
    assert_eq!(fold(&[Value::Num(10), Value::Nil, list(&[1, 2, 3])], minus), Value::Num(4));
    assert_eq!(fold(&[Value::Num(10), Value::Nil, list(&[])], minus), Value::Num(10));
    assert!(is_error(&fold(&[Value::Num(10), Value::Nil, Value::Nil], minus)));
}

#[test]
fn insert_adds_or_replaces_an_entry() {
    let t = Value::Table(vec![(s("a"), Value::Num(1))]);
    let r = insert(&[t, Value::Sym(s("b")), Value::Num(2)]);
    assert_eq!(r, Value::Table(vec![(s("a"), Value::Num(1)), (s("b"), Value::Num(2))]));
    let r = insert(&[r, Value::Sym(s("a")), Value::Num(9)]);
    assert_eq!(r, Value::Table(vec![(s("a"), Value::Num(9)), (s("b"), Value::Num(2))]));
}

#[test]
fn insert_rejects_wrong_arguments() {
    let t = Value::Table(vec![]);
    assert!(is_error(&insert(&[Value::Table(vec![]), Value::Str(s("k")), Value::Nil])));
    assert!(is_error(&insert(&[Value::Nil, Value::Sym(s("k")), Value::Nil])));
    assert!(!is_error(&insert(&[t, Value::Sym(s("k")), Value::Nil])));
}

#[test]
fn error_tuple_carries_its_message() {
    assert_eq!(
        error_tuple(s("boom")),
        Value::Tuple(vec![Value::Sym(s("error")), Value::Str(s("boom"))])
    );
}

#[test]
fn table_insert_keeps_keys_unique() {
    let mut t = vec![];
    table_insert(&mut t, s("k"), Value::Num(1));
    table_insert(&mut t, s("k"), Value::Num(2));
    assert_eq!(t, vec![(s("k"), Value::Num(2))]);
}

#[test]
fn modules_compare_by_identity() {
    let m = |id: usize, name: &str| Value::Module(Module { id, name: s(name), fields: vec![] });
    assert!(value_eq(&m(3, "A"), &m(3, "B")));
    assert!(!value_eq(&m(3, "A"), &m(4, "A")));
    assert!(value_eq(&list(&[1, 2]), &list(&[1, 2])));
    assert!(!value_eq(&list(&[1, 2]), &list(&[1])));
    assert!(!value_eq(&Value::Str(s("a")), &Value::Sym(s("a"))));
}
