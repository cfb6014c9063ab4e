use fae::faestd::{depth, dup, equ, pop, rot2, rot3, rot3_rev, std_get_fns};
use fae::lexer::Span;
use fae::runtime::{Builtin, Function, Scope, Value, ValueType};

const AT: Span = Span { start: 0, end: 0 };

fn scope_of(values: Vec<Value>) -> Scope {
    let mut s = Scope::new();
    for v in values {
        s.stack.push(v);
    }
    s
}

fn ints(s: &Scope) -> Vec<i32> {
    s.stack
        .values
        .iter()
        .map(|v| match v {
            Value::Int(n) => *n,
            other => panic!("not an int: {:?}", other),
        })
        .collect()
}

fn int_scope(xs: &[i32]) -> Scope {
    scope_of(xs.iter().map(|x| Value::Int(*x)).collect())
}

fn top_bool(s: &Scope) -> bool {
    match s.stack.values.last() {
        Some(Value::Bool(b)) => *b,
        other => panic!("not a bool: {:?}", other),
    }
}

fn num(x: f32) -> Value {
    Value::Number(x.to_bits())
}

#[test]
fn builtin_table() {
    let t = std_get_fns();
    let expected: [(&str, Vec<ValueType>, Builtin); 20] = [
        ("println", vec![ValueType::String], Builtin::Println),
        ("dump", vec![], Builtin::Dump),
        ("dup", vec![ValueType::Any], Builtin::Dup),
        ("pop", vec![ValueType::Any], Builtin::Pop),
        ("swap", vec![ValueType::Any, ValueType::Any], Builtin::Swap),
        ("rot", vec![ValueType::Any, ValueType::Any, ValueType::Any], Builtin::Rot),
        ("rot-", vec![ValueType::Any, ValueType::Any, ValueType::Any], Builtin::RotRev),
        ("depth", vec![], Builtin::Depth),
        ("+", vec![ValueType::Integral, ValueType::Integral], Builtin::Add),
        ("-", vec![ValueType::Integral, ValueType::Integral], Builtin::Sub),
        ("*", vec![ValueType::Integral, ValueType::Integral], Builtin::Mul),
        ("/", vec![ValueType::Integral, ValueType::Integral], Builtin::Div),
        ("**", vec![ValueType::Integral, ValueType::Integral], Builtin::Exp),
        ("str", vec![ValueType::Any], Builtin::Str),
        ("int", vec![ValueType::Any], Builtin::Int),
        (">", vec![ValueType::Integral, ValueType::Integral], Builtin::Greater),
        (">=", vec![ValueType::Integral, ValueType::Integral], Builtin::GreaterEq),
        ("<", vec![ValueType::Integral, ValueType::Integral], Builtin::Less),
        ("<=", vec![ValueType::Integral, ValueType::Integral], Builtin::LessEq),
        ("=", vec![ValueType::Any, ValueType::Any], Builtin::Equal),
    ];
    for (name, params, op) in expected {
        match t.get(name) {
            Some(Function::Internal { params: p, body }) => {
                assert_eq!(p, params, "{}", name);
                assert_eq!(body, op, "{}", name);
            }
            other => panic!("{}: {:?}", name, other),
        }
    }
    assert!(!t.contains_key("main"));
    assert!(!t.contains_key("stringify"));
}

#[test]
fn dup_copies_the_top() {
    let mut s = int_scope(&[1, 2]);
    dup(&mut s, AT);
    assert_eq!(ints(&s), vec![1, 2, 2]);
}

#[test]
fn pop_drops_the_top() {
    let mut s = int_scope(&[1, 2]);
    pop(&mut s, AT);
    assert_eq!(ints(&s), vec![1]);
    let mut e = int_scope(&[]);
    pop(&mut e, AT);
    assert!(e.stack.values.is_empty());
}

#[test]
fn swap_exchanges_the_top_two() {
    let mut s = int_scope(&[1, 2, 3]);
    rot2(&mut s, AT);
    assert_eq!(ints(&s), vec![1, 3, 2]);
}

#[test]
fn rot_brings_the_third_up() {
    let mut s = int_scope(&[0, 1, 2, 3]);
    rot3(&mut s, AT);
    assert_eq!(ints(&s), vec![0, 2, 3, 1]);
}

#[test]
fn rot_rev_sinks_the_top() {
    let mut s = int_scope(&[0, 1, 2, 3]);
    rot3_rev(&mut s, AT);
    assert_eq!(ints(&s), vec![0, 3, 1, 2]);
}

#[test]
fn depth_pushes_the_count() {
    let mut s = int_scope(&[5, 6]);
    depth(&mut s, AT);
    assert_eq!(ints(&s), vec![5, 6, 2]);
    let mut e = int_scope(&[]);
    depth(&mut e, AT);
    assert_eq!(ints(&e), vec![0]);
}

#[test]
fn equality_by_kind() {
    let cases: Vec<(Value, Value, bool)> = vec![
        (Value::Int(1), Value::Int(1), true),
        (Value::Int(1), Value::Int(2), false),
        (Value::String("a".into()), Value::String("a".into()), true),
        (Value::String("a".into()), Value::String("b".into()), false),
        (Value::Bool(true), Value::Bool(true), true),
        (Value::Bool(true), Value::Bool(false), false),
        (num(1.5), num(1.5), true),
        (num(1.5), num(2.5), false),
        (num(0.0), num(-0.0), true),
        (num(f32::NAN), num(f32::NAN), false),
        (Value::Int(1), num(1.0), false),
        (Value::String("1".into()), Value::Int(1), false),
        (
            Value::Stack(fae::runtime::Stack::new()),
            Value::Stack(fae::runtime::Stack::new()),
            false,
        ),
    ];
    for (a, b, want) in cases {
        let mut s = scope_of(vec![Value::Int(9), a, b]);
        equ(&mut s, AT);
        assert_eq!(s.stack.values.len(), 2);
        assert_eq!(top_bool(&s), want);
    }
}

#[test]
fn equality_is_symmetric() {
    let vals = vec![Value::Int(3), num(3.0), Value::Bool(false), Value::String("3".into())];
    for a in &vals {
        for b in &vals {
            let mut s1 = scope_of(vec![a.copy(), b.copy()]);
            let mut s2 = scope_of(vec![b.copy(), a.copy()]);
            equ(&mut s1, AT);
            equ(&mut s2, AT);
            assert_eq!(top_bool(&s1), top_bool(&s2));
        }
    }
}

#[test]
fn stack_shuffles_undo_each_other() {
    let mut s = int_scope(&[1, 2, 3, 4]);
    rot2(&mut s, AT);
    rot2(&mut s, AT);
    assert_eq!(ints(&s), vec![1, 2, 3, 4]);
    rot3(&mut s, AT);
    rot3_rev(&mut s, AT);
    assert_eq!(ints(&s), vec![1, 2, 3, 4]);
    rot3_rev(&mut s, AT);
    rot3(&mut s, AT);
    assert_eq!(ints(&s), vec![1, 2, 3, 4]);
    rot3(&mut s, AT);
    rot3(&mut s, AT);
    rot3(&mut s, AT);
    assert_eq!(ints(&s), vec![1, 2, 3, 4]);
    dup(&mut s, AT);
    pop(&mut s, AT);
    assert_eq!(ints(&s), vec![1, 2, 3, 4]);
}
