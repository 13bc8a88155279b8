//! The `List` prelude functions that compiled list patterns and programs call.
//! Each takes its arguments as the slice the machine passes; a wrong kind of
//! argument gives an error tuple `(:error, message)` instead of a value.
use vstd::prelude::*;

use crate::bytecode::{
    copy_value, entry_same, lemma_entries_same, table_insert, value_same, values_same, Value,
};

verus! {

/// An error tuple: `(:error, message)`.
pub open spec fn is_error(v: Value) -> bool {
    v matches Value::Tuple(xs) && xs.len() == 2 && (xs@[0] matches Value::Sym(s) && s@
        == seq!['e', 'r', 'r', 'o', 'r']) && xs@[1] is Str
}

/// The error tuple whose message is `msg`.
pub open spec fn is_error_with(v: Value, msg: Seq<char>) -> bool {
    is_error(v) && (v->Tuple_0@[1] matches Value::Str(m) && m@ == msg)
}

/// Builds the error tuple that carries `msg`.
pub fn error_tuple(msg: String) -> (r: Value)
    ensures
        is_error(r),
        r matches Value::Tuple(xs) && xs@[1] == Value::Str(msg),
{
    proof {
        reveal_strlit("error");
        assert("error"@ =~= seq!['e', 'r', 'r', 'o', 'r']);
    }
    let mut xs: Vec<Value> = Vec::new();
    xs.push(Value::Sym(String::from_str("error")));
    xs.push(Value::Str(msg));
    Value::Tuple(xs)
}

/// `rev(list)`: the list in reverse order.
pub fn rev(args: &[Value]) -> (r: Value)
    requires
        args.len() >= 1,
    ensures
        args@[0] matches Value::List(xs) ==> (r matches Value::List(ys) && ys.len() == xs.len()
            && forall|i: int| 0 <= i < xs.len() ==> value_same(#[trigger] ys@[i], xs@[xs.len() - 1 - i])),
        !(args@[0] is List) ==> is_error_with(r, "rev[0] expected a list"@),
{
    match &args[0] {
        Value::List(xs) => {
            let mut ys: Vec<Value> = Vec::new();
            let mut i: usize = xs.len();
            while i > 0
                invariant
                    i <= xs.len(),
                    ys.len() == xs.len() - i,
                    forall|k: int| 0 <= k < ys.len() ==> value_same(#[trigger] ys@[k], xs@[xs.len() - 1 - k]),
                    args.len() >= 1,
                    args@[0] == Value::List(*xs),
                decreases i,
            {
                i = i - 1;
                ys.push(copy_value(&xs[i]));
            }
            Value::List(ys)
        },
        _ => error_tuple(String::from_str("rev[0] expected a list")),
    }
}

/// `map(fun, list)`: `fun` applied to each element, in order. `call(fun, x)`
/// runs the function `fun` on `x`; a failed call gives an error tuple.
pub fn map<F: Fn(&Value, &Value) -> Result<Value, String>>(args: &[Value], call: F) -> (r: Value)
    requires
        args.len() >= 2,
        forall|f: &Value, x: &Value| call.requires((f, x)),
    ensures
        args@[1] matches Value::List(xs) ==> (r matches Value::List(ys) && ys.len() == xs.len()
            && forall|i: int|
            0 <= i < xs.len() ==> call.ensures((&args@[0], &xs@[i]), Ok(#[trigger] ys@[i]))) || (
        is_error(r) && exists|i: int, e: String|
            0 <= i < xs.len() && #[trigger] call.ensures((&args@[0], &xs@[i]), Err::<Value, String>(e))),
        !(args@[1] is List) ==> is_error_with(r, "map[1] expected a list"@),
{
    match &args[1] {
        Value::List(xs) => {
            let mut ys: Vec<Value> = Vec::new();
            let mut i: usize = 0;
            while i < xs.len()
                invariant
                    args.len() >= 2,
                    args@[1] == Value::List(*xs),
                    i <= xs.len(),
                    ys.len() == i,
                    forall|f: &Value, x: &Value| call.requires((f, x)),
                    forall|k: int| 0 <= k < i ==> call.ensures((&args@[0], &xs@[k]), Ok(#[trigger] ys@[k])),
                decreases xs.len() - i,
            {
                match call(&args[0], &xs[i]) {
                    Ok(y) => ys.push(y),
                    Err(e) => {
                        return error_tuple(e);
                    },
                }
                i = i + 1;
            }
            Value::List(ys)
        },
        _ => error_tuple(String::from_str("map[1] expected a list")),
    }
}

/// `fold(acc, fun, list)`: `acc` combined with each element in turn by
/// `call(fun, acc, x)`; a failed call gives an error tuple.
pub fn fold<F: Fn(&Value, &Value, &Value) -> Result<Value, String>>(args: &[Value], call: F) -> (r: Value)
    requires
        args.len() >= 3,
        forall|f: &Value, a: &Value, x: &Value| call.requires((f, a, x)),
    ensures
        args@[2] matches Value::List(xs) ==> (exists|accs: Seq<Value>|
            #![trigger accs.len()]
            accs.len() == xs.len() + 1 && value_same(accs[0], args@[0]) && r == accs[xs.len() as int]
                && forall|k: int|
                0 <= k < xs.len() ==> call.ensures(
                    (&args@[1], &accs[k], &xs@[k]),
                    Ok(#[trigger] accs[k + 1]),
                )) || (is_error(r) && exists|i: int, a: Value, e: String|
            0 <= i < xs.len() && #[trigger] call.ensures((&args@[1], &a, &xs@[i]), Err::<Value, String>(e))),
        !(args@[2] is List) ==> is_error_with(r, "fold[2] expected a list"@),
{
    match &args[2] {
        Value::List(xs) => {
            let mut acc = copy_value(&args[0]);
            let ghost mut accs = seq![acc];
            let mut i: usize = 0;
            while i < xs.len()
                invariant
                    args.len() >= 3,
                    args@[2] == Value::List(*xs),
                    i <= xs.len(),
                    forall|f: &Value, a: &Value, x: &Value| call.requires((f, a, x)),
                    accs.len() == i + 1,
                    accs[i as int] == acc,
                    value_same(accs[0], args@[0]),
                    forall|k: int|
                        0 <= k < i ==> call.ensures((&args@[1], &accs[k], &xs@[k]), Ok(#[trigger] accs[k + 1])),
                decreases xs.len() - i,
            {
                match call(&args[1], &acc, &xs[i]) {
                    Ok(next) => {
                        proof {
                            accs = accs.push(next);
                        }
                        acc = next;
                    },
                    Err(e) => {
                        return error_tuple(e);
                    },
                }
                i = i + 1;
            }
            proof {
                assert(accs.len() == xs.len() + 1);
            }
            acc
        },
        _ => error_tuple(String::from_str("fold[2] expected a list")),
    }
}

/// `head(list)`: the first element, or `nil` for the empty list.
pub fn head(args: &[Value]) -> (r: Value)
    requires
        args.len() >= 1,
    ensures
        args@[0] matches Value::List(xs) ==> (if xs.len() > 0 {
            value_same(r, xs@[0])
        } else {
            r is Nil
        }),
        !(args@[0] is List) ==> is_error_with(r, "head() expected a list"@),
{
    match &args[0] {
        Value::List(xs) => {
            if xs.len() > 0 {
                copy_value(&xs[0])
            } else {
                Value::Nil
            }
        },
        _ => error_tuple(String::from_str("head() expected a list")),
    }
}

/// `tail(list)`: every element but the first; the empty list stays empty.
pub fn tail(args: &[Value]) -> (r: Value)
    requires
        args.len() >= 1,
    ensures
        args@[0] matches Value::List(xs) ==> (r matches Value::List(ys) && (if xs.len() > 0 {
            values_same(ys@, xs@.subrange(1, xs.len() as int))
        } else {
            ys.len() == 0
        })),
        !(args@[0] is List) ==> is_error_with(r, "tail() expected a list"@),
{
    match &args[0] {
        Value::List(xs) => {
            let mut ys: Vec<Value> = Vec::new();
            if xs.len() == 0 {
                return Value::List(ys);
            }
            let mut i: usize = 1;
            assert(xs@.subrange(1, 1).len() == 0);
            while i < xs.len()
                invariant
                    args.len() >= 1,
                    args@[0] == Value::List(*xs),
                    1 <= i <= xs.len(),
                    values_same(ys@, xs@.subrange(1, i as int)),
                decreases xs.len() - i,
            {
                let v = copy_value(&xs[i]);
                let ghost prev = ys@;
                ys.push(v);
                proof {
                    let t = xs@.subrange(1, i + 1);
                    assert(ys@.subrange(0, ys@.len() - 1) =~= prev);
                    assert(t.subrange(0, t.len() - 1) =~= xs@.subrange(1, i as int));
                    assert(t[t.len() - 1] == xs@[i as int]);
                }
                i = i + 1;
            }
            Value::List(ys)
        },
        _ => error_tuple(String::from_str("tail() expected a list")),
    }
}

/// `insert(table, key, value)`: the table with `value` stored under the
/// symbol `key`, replacing any earlier entry for it.
pub fn insert(args: &[Value]) -> (r: Value)
    requires
        args.len() >= 3,
    ensures
        args@[1] matches Value::Sym(key) ==> (args@[0] matches Value::Table(old_ts) ==> (
        r matches Value::Table(ts) && (ts.len() == old_ts.len() || ts.len() == old_ts.len() + 1)
            && (exists|j: int|
            0 <= j < ts.len() && (#[trigger] ts@[j]).0@ == key@ && value_same(ts@[j].1, args@[2]))
            && (forall|j: int|
            0 <= j < old_ts.len() && (#[trigger] old_ts@[j]).0@ != key@ ==> entry_same(ts@[j], old_ts@[j])))),
        !(args@[1] is Sym) ==> is_error_with(r, "insert()[1] expected a symbol"@),
        args@[1] is Sym && !(args@[0] is Table) ==> is_error_with(r, "insert()[0] expected a table"@),
{
    let key = match &args[1] {
        Value::Sym(s) => s.clone(),
        _ => {
            return error_tuple(String::from_str("insert()[1] expected a symbol"));
        },
    };
    let value = copy_value(&args[2]);
    match &args[0] {
        Value::Table(ts) => {
            let copy = copy_value(&args[0]);
            let mut ts = match copy {
                Value::Table(t) => t,
                _ => Vec::new(),
            };
            proof {
                assert(ts@.len() == args@[0]->Table_0@.len());
                lemma_entries_same(ts@, args@[0]->Table_0@);
            }
            let ghost k = key;
            let ghost v = value;
            let ghost before = ts@;
            table_insert(&mut ts, key, value);
            proof {
                if exists|j: int| 0 <= j < before.len() && (#[trigger] before[j]).0@ == k@ && ts@ == before.update(j, (k, v)) {
                    let j = choose|j: int| 0 <= j < before.len() && (#[trigger] before[j]).0@ == k@ && ts@ == before.update(j, (k, v));
                    assert(ts@[j] == (k, v));
                    let o = args@[0]->Table_0@;
                    assert forall|q: int| 0 <= q < o.len() && (#[trigger] o[q]).0@ != k@ implies entry_same(ts@[q], o[q]) by {
                        assert(entry_same(before[q], o[q]));
                        assert(q != j);
                    }
                } else {
                    assert(ts@[before.len() as int] == (k, v));
                    let o = args@[0]->Table_0@;
                    assert forall|q: int| 0 <= q < o.len() && (#[trigger] o[q]).0@ != k@ implies entry_same(ts@[q], o[q]) by {
                        assert(entry_same(before[q], o[q]));
                    }
                }
            }
            Value::Table(ts)
        },
        _ => error_tuple(String::from_str("insert()[0] expected a table")),
    }
}

} // verus!
