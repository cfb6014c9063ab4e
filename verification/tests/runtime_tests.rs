use fae::runtime::{Builtin, Function, FunctionTable, Scope, Stack, Value, ValueType};

const ALL: [ValueType; 7] = [
    ValueType::String,
    ValueType::Int,
    ValueType::Number,
    ValueType::Bool,
    ValueType::Any,
    ValueType::Integral,
    ValueType::Stack,
];

fn int_of(v: &Value) -> i32 {
    match v {
        Value::Int(n) => *n,
        other => panic!("not an int: {:?}", other),
    }
}

#[test]
fn type_names_parse() {
    assert_eq!(ValueType::from_str("String"), Some(ValueType::String));
    assert_eq!(ValueType::from_str("Int"), Some(ValueType::Int));
    assert_eq!(ValueType::from_str("Bool"), Some(ValueType::Bool));
    assert_eq!(ValueType::from_str("Number"), Some(ValueType::Number));
    assert_eq!(ValueType::from_str("Any"), Some(ValueType::Any));
    assert_eq!(ValueType::from_str("Integral"), Some(ValueType::Integral));
    assert_eq!(ValueType::from_str("Stack"), Some(ValueType::Stack));
    assert_eq!(ValueType::from_str("int"), None);
    assert_eq!(ValueType::from_str(""), None);
    assert_eq!(ValueType::from_str("Strings"), None);
}

#[test]
fn type_names_print() {
    assert_eq!(ValueType::String.into_str(), "String");
    assert_eq!(ValueType::Int.into_str(), "Int");
    assert_eq!(ValueType::Number.into_str(), "Number");
    assert_eq!(ValueType::Bool.into_str(), "Bool");
    assert_eq!(ValueType::Any.into_str(), "Any");
    assert_eq!(ValueType::Integral.into_str(), "Integral");
    assert_eq!(ValueType::Stack.into_str(), "Stack");
}

#[test]
fn type_name_round_trip() {
    for t in ALL {
        assert_eq!(ValueType::from_str(t.into_str()), Some(t));
    }
}

#[test]
fn constraints() {
    for t in ALL {
        assert!(t.matches_constraint(&t));
        assert!(t.matches_constraint(&ValueType::Any));
        let integral = t == ValueType::Int || t == ValueType::Number || t == ValueType::Integral;
        assert_eq!(t.matches_constraint(&ValueType::Integral), integral);
    }
    assert!(!ValueType::Any.matches_constraint(&ValueType::String));
    assert!(!ValueType::Integral.matches_constraint(&ValueType::Int));
    assert!(!ValueType::Bool.matches_constraint(&ValueType::Int));
    assert!(!ValueType::String.matches_constraint(&ValueType::Stack));
}

#[test]
fn value_types() {
    assert_eq!(Value::String("a".to_string()).value_type(), ValueType::String);
    assert_eq!(Value::Int(1).value_type(), ValueType::Int);
    assert_eq!(Value::Number(1.5f32.to_bits()).value_type(), ValueType::Number);
    assert_eq!(Value::Bool(true).value_type(), ValueType::Bool);
    assert_eq!(Value::Stack(Stack::new()).value_type(), ValueType::Stack);
}

#[test]
fn stack_push_pop_peek_depth() {
    let mut s = Stack::new();
    assert_eq!(s.depth(), 0);
    assert!(s.pop().is_none());
    assert!(s.peek().is_none());
    s.push(Value::Int(1));
    s.push(Value::Int(2));
    assert_eq!(s.depth(), 2);
    assert_eq!(int_of(&s.peek().unwrap()), 2);
    assert_eq!(s.depth(), 2);
    assert_eq!(int_of(&s.pop().unwrap()), 2);
    assert_eq!(s.depth(), 1);
    assert_eq!(int_of(&s.values[0]), 1);
}

#[test]
fn stack_top_n() {
    let mut s = Stack::new();
    for i in 1..=3 {
        s.push(Value::Int(i));
    }
    let none = s.top_n(0).unwrap();
    assert!(none.is_empty());
    assert_eq!(s.depth(), 3);
    assert!(s.top_n(4).is_none());
    assert_eq!(s.depth(), 3);
    let top = s.top_n(2).unwrap();
    assert_eq!(top.iter().map(int_of).collect::<Vec<_>>(), vec![2, 3]);
    assert_eq!(s.values.iter().map(int_of).collect::<Vec<_>>(), vec![1]);
    let all = s.top_n(1).unwrap();
    assert_eq!(all.iter().map(int_of).collect::<Vec<_>>(), vec![1]);
    assert_eq!(s.depth(), 0);
}

#[test]
fn function_table_insert_and_get() {
    let mut t = FunctionTable::new();
    assert!(!t.contains_key("f"));
    assert!(t.get("f").is_none());
    t.insert("f".to_string(), Function::Internal { params: vec![ValueType::Any], body: Builtin::Dup });
    assert!(t.contains_key("f"));
    assert!(!t.contains_key("g"));
    match t.get("f") {
        Some(Function::Internal { params, body }) => {
            assert_eq!(params, vec![ValueType::Any]);
            assert_eq!(body, Builtin::Dup);
        }
        other => panic!("{:?}", other),
    }
    t.insert("f".to_string(), Function::Runtime { params: Vec::new(), body: Vec::new() });
    match t.get("f") {
        Some(Function::Runtime { params, body }) => {
            assert!(params.is_empty());
            assert!(body.is_empty());
        }
        other => panic!("{:?}", other),
    }
    let c = t.copy();
    assert!(c.contains_key("f"));
}

#[test]
fn function_params() {
    let f = Function::Internal { params: vec![ValueType::Integral, ValueType::Integral], body: Builtin::Add };
    assert_eq!(f.params(), &vec![ValueType::Integral, ValueType::Integral]);
    let g = f.copy();
    assert_eq!(g.params(), f.params());
}

#[test]
fn scope_starts_with_builtins() {
    let s = Scope::new();
    assert_eq!(s.stack.values.len(), 0);
    for name in [
        "println", "dump", "dup", "pop", "swap", "rot", "rot-", "depth", "+", "-", "*", "/", "**", "str",
        "int", ">", ">=", "<", "<=", "=",
    ] {
        assert!(s.funcs.contains_key(name), "{}", name);
    }
    assert!(!s.funcs.contains_key("main"));
}

#[test]
fn matching_params_looks_at_the_top() {
    let mut s = Scope::new();
    s.stack.push(Value::String("a".to_string()));
    s.stack.push(Value::Int(1));
    s.stack.push(Value::Number(2.0f32.to_bits()));
    assert!(s.is_matching_params(&[]));
    assert!(s.is_matching_params(&[ValueType::Integral, ValueType::Integral]));
    assert!(s.is_matching_params(&[ValueType::String, ValueType::Int, ValueType::Number]));
    assert!(!s.is_matching_params(&[ValueType::Integral, ValueType::Integral, ValueType::Integral]));
    assert!(!s.is_matching_params(&[ValueType::Any, ValueType::Any, ValueType::Any, ValueType::Any]));
    assert!(!s.is_matching_params(&[ValueType::Int]));
}

#[test]
fn ensure_params_message() {
    let mut s = Scope::new();
    assert_eq!(s.ensure_params(&[ValueType::Any]), Err("Expected parameters (Any), found ()".to_string()));
    assert_eq!(s.ensure_params(&[]), Ok(()));
    s.stack.push(Value::Bool(true));
    s.stack.push(Value::String("x".to_string()));
    s.stack.push(Value::Int(3));
    assert_eq!(
        s.ensure_params(&[ValueType::Integral, ValueType::Integral]),
        Err("Expected parameters (Integral,Integral), found (String,Int)".to_string())
    );
    assert_eq!(s.ensure_params(&[ValueType::String, ValueType::Int]), Ok(()));
    assert_eq!(
        s.ensure_params(&[ValueType::Any, ValueType::Any, ValueType::Any, ValueType::Any]),
        Err("Expected parameters (Any,Any,Any,Any), found (Bool,String,Int)".to_string())
    );
}

#[test]
fn values_copy() {
    let v = Value::Stack(Stack { values: vec![Value::Int(4), Value::String("s".to_string())] });
    match v.copy() {
        Value::Stack(st) => {
            assert_eq!(st.values.len(), 2);
            assert_eq!(int_of(&st.values[0]), 4);
        }
        other => panic!("{:?}", other),
    }
}

#[test]
fn text_of_values() {
    assert_eq!(Value::Int(-12).as_string(), Some("-12".to_string()));
    assert_eq!(Value::Int(0).as_string(), Some("0".to_string()));
    assert_eq!(Value::Int(i32::MIN).as_string(), Some("-2147483648".to_string()));
    assert_eq!(Value::Int(i32::MAX).as_string(), Some("2147483647".to_string()));
    assert_eq!(Value::Bool(false).as_string(), Some("false".to_string()));
    assert_eq!(Value::Bool(true).as_string(), Some("true".to_string()));
    assert_eq!(Value::String("x y".to_string()).as_string(), Some("x y".to_string()));
    let st = Stack {
        values: vec![
            Value::Int(1),
            Value::String("a".to_string()),
            Value::Stack(Stack::new()),
            Value::Stack(Stack { values: vec![Value::Bool(true), Value::Int(2)] }),
        ],
    };
    assert_eq!(Value::Stack(st).as_string(), Some("[1,a,[],[true,2]]".to_string()));
}

#[test]
fn values_holding_numbers_have_no_text_here() {
    assert_eq!(Value::Number(1.5f32.to_bits()).as_string(), None);
    let st = Stack {
        values: vec![Value::Int(1), Value::Stack(Stack { values: vec![Value::Number(0)] })],
    };
    assert_eq!(Value::Stack(st).as_string(), None);
}

#[test]
fn text_with_number_texts() {
    let st = Stack {
        values: vec![
            Value::Number(1.5f32.to_bits()),
            Value::Int(2),
            Value::Stack(Stack { values: vec![Value::Number(0), Value::Bool(false)] }),
            Value::Number(7),
        ],
    };
    let v = Value::Stack(st);
    assert_eq!(v.numbers(), vec![1.5f32.to_bits(), 0, 7]);
    let texts = vec!["1.5".to_string(), "0".to_string(), "x".to_string()];
    assert_eq!(v.as_string_with(&texts), "[1.5,2,[0,false],x]");
    let n = Value::Number(3);
    assert_eq!(n.numbers(), vec![3]);
    assert_eq!(n.as_string_with(&vec!["3.0e-45".to_string()]), "3.0e-45");
    assert_eq!(Value::Int(-4).as_string_with(&vec![]), "-4");
    assert!(Value::Bool(true).numbers().is_empty());
}
