//! The built-in functions: their table, and those that only rearrange or
//! compare stack values.
use vstd::prelude::*;
use crate::lexer::Span;
use crate::runtime::{
    Builtin,
    Function,
    FunctionTable,
    Scope,
    SpecFunction,
    SpecValue,
    Value,
    ValueType,
    lemma_values_view,
};

verus! {

pub open spec fn internal(params: Seq<ValueType>, b: Builtin) -> SpecFunction {
    SpecFunction::Internal(params, b)
}

/// The built-in functions by name, with their parameter types.
pub open spec fn std_table() -> Map<Seq<char>, SpecFunction> {
    let any1 = seq![ValueType::Any];
    let any2 = seq![ValueType::Any, ValueType::Any];
    let any3 = seq![ValueType::Any, ValueType::Any, ValueType::Any];
    let num2 = seq![ValueType::Integral, ValueType::Integral];
    Map::empty().insert("println"@, internal(seq![ValueType::String], Builtin::Println)).insert(
        "dump"@,
        internal(Seq::empty(), Builtin::Dump),
    ).insert("dup"@, internal(any1, Builtin::Dup)).insert("pop"@, internal(any1, Builtin::Pop)).insert(
        "swap"@,
        internal(any2, Builtin::Swap),
    ).insert("rot"@, internal(any3, Builtin::Rot)).insert("rot-"@, internal(any3, Builtin::RotRev)).insert(
        "depth"@,
        internal(Seq::empty(), Builtin::Depth),
    ).insert("+"@, internal(num2, Builtin::Add)).insert("-"@, internal(num2, Builtin::Sub)).insert(
        "*"@,
        internal(num2, Builtin::Mul),
    ).insert("/"@, internal(num2, Builtin::Div)).insert("**"@, internal(num2, Builtin::Exp)).insert(
        "str"@,
        internal(any1, Builtin::Str),
    ).insert("int"@, internal(any1, Builtin::Int)).insert(">"@, internal(num2, Builtin::Greater)).insert(
        ">="@,
        internal(num2, Builtin::GreaterEq),
    ).insert("<"@, internal(num2, Builtin::Less)).insert("<="@, internal(num2, Builtin::LessEq)).insert(
        "="@,
        internal(any2, Builtin::Equal),
    )
}

fn types1(a: ValueType) -> (r: Vec<ValueType>)
    ensures
        r@ == seq![a],
{
    let mut v = Vec::new();
    v.push(a);
    assert(v@ =~= seq![a]);
    v
}

fn types2(a: ValueType, b: ValueType) -> (r: Vec<ValueType>)
    ensures
        r@ == seq![a, b],
{
    let mut v = Vec::new();
    v.push(a);
    v.push(b);
    assert(v@ =~= seq![a, b]);
    v
}

fn types3(a: ValueType, b: ValueType, c: ValueType) -> (r: Vec<ValueType>)
    ensures
        r@ == seq![a, b, c],
{
    let mut v = Vec::new();
    v.push(a);
    v.push(b);
    v.push(c);
    assert(v@ =~= seq![a, b, c]);
    v
}

fn add_fn(t: &mut FunctionTable, name: &str, params: Vec<ValueType>, body: Builtin)
    ensures
        final(t)@ == old(t)@.insert(name@, internal(params@, body)),
{
    t.insert(String::from_str(name), Function::Internal { params, body });
}

pub fn std_get_fns() -> (r: FunctionTable)
    ensures
        r@ == std_table(),
{
    let any = ValueType::Any;
    let num = ValueType::Integral;
    let mut t = FunctionTable::new();
    add_fn(&mut t, "println", types1(ValueType::String), Builtin::Println);
    add_fn(&mut t, "dump", Vec::new(), Builtin::Dump);
    add_fn(&mut t, "dup", types1(any), Builtin::Dup);
    add_fn(&mut t, "pop", types1(any), Builtin::Pop);
    add_fn(&mut t, "swap", types2(any, any), Builtin::Swap);
    add_fn(&mut t, "rot", types3(any, any, any), Builtin::Rot);
    add_fn(&mut t, "rot-", types3(any, any, any), Builtin::RotRev);
    add_fn(&mut t, "depth", Vec::new(), Builtin::Depth);
    add_fn(&mut t, "+", types2(num, num), Builtin::Add);
    add_fn(&mut t, "-", types2(num, num), Builtin::Sub);
    add_fn(&mut t, "*", types2(num, num), Builtin::Mul);
    add_fn(&mut t, "/", types2(num, num), Builtin::Div);
    add_fn(&mut t, "**", types2(num, num), Builtin::Exp);
    add_fn(&mut t, "str", types1(any), Builtin::Str);
    add_fn(&mut t, "int", types1(any), Builtin::Int);
    add_fn(&mut t, ">", types2(num, num), Builtin::Greater);
    add_fn(&mut t, ">=", types2(num, num), Builtin::GreaterEq);
    add_fn(&mut t, "<", types2(num, num), Builtin::Less);
    add_fn(&mut t, "<=", types2(num, num), Builtin::LessEq);
    add_fn(&mut t, "=", types2(any, any), Builtin::Equal);
    t
}

// ---------------------------------------------------------------------------
// Stack built-ins
// ---------------------------------------------------------------------------

/// Equality of two binary32 numbers given by their bit patterns: never for
/// a NaN, always for two zeros, otherwise when the patterns agree.
pub open spec fn f32_bits_eq(a: u32, b: u32) -> bool {
    let ma = a & 0x7fff_ffffu32;
    let mb = b & 0x7fff_ffffu32;
    if ma > 0x7f80_0000u32 || mb > 0x7f80_0000u32 {
        false
    } else if ma == 0 && mb == 0 {
        true
    } else {
        a == b
    }
}

/// What `=` answers: values of the same kind compare by content (numbers as
/// binary32 numbers), other pairs, stacks included, are unequal.
pub open spec fn values_equal(l: SpecValue, r: SpecValue) -> bool {
    match (l, r) {
        (SpecValue::String(a), SpecValue::String(b)) => a == b,
        (SpecValue::Int(a), SpecValue::Int(b)) => a == b,
        (SpecValue::Number(a), SpecValue::Number(b)) => f32_bits_eq(a, b),
        (SpecValue::Bool(a), SpecValue::Bool(b)) => a == b,
        _ => false,
    }
}

fn f32_bits_equal(a: u32, b: u32) -> (r: bool)
    ensures
        r == f32_bits_eq(a, b),
{
    let ma = a & 0x7fff_ffffu32;
    let mb = b & 0x7fff_ffffu32;
    if ma > 0x7f80_0000u32 || mb > 0x7f80_0000u32 {
        false
    } else if ma == 0 && mb == 0 {
        true
    } else {
        a == b
    }
}

fn values_eq(l: &Value, r: &Value) -> (b: bool)
    ensures
        b == values_equal(l@, r@),
{
    match (l, r) {
        (Value::String(a), Value::String(b)) => *a == *b,
        (Value::Int(a), Value::Int(b)) => *a == *b,
        (Value::Number(a), Value::Number(b)) => f32_bits_equal(*a, *b),
        (Value::Bool(a), Value::Bool(b)) => *a == *b,
        _ => false,
    }
}

/// Pushes a copy of the top value.
pub fn dup(scope: &mut Scope, at: Span)
    requires
        old(scope).stack@.len() >= 1,
    ensures
        final(scope).funcs == old(scope).funcs,
        final(scope).stack@ == old(scope).stack@.push(old(scope).stack@.last()),
{
    let v = scope.stack.peek().unwrap();
    scope.stack.push(v);
}

/// Drops the top value.
pub fn pop(scope: &mut Scope, at: Span)
    ensures
        final(scope).funcs == old(scope).funcs,
        final(scope).stack@ == if old(scope).stack@.len() > 0 {
            old(scope).stack@.drop_last()
        } else {
            old(scope).stack@
        },
{
    scope.stack.pop();
}

/// Exchanges the top two values.
pub fn rot2(scope: &mut Scope, at: Span)
    requires
        old(scope).stack@.len() >= 2,
    ensures
        final(scope).funcs == old(scope).funcs,
        ({
            let s = old(scope).stack@;
            let n = s.len() as int;
            final(scope).stack@ == s.take(n - 2) + seq![s[n - 1], s[n - 2]]
        }),
{
    let ghost s = scope.stack@;
    let top = scope.stack.pop().unwrap();
    let bot = scope.stack.pop().unwrap();
    scope.stack.push(top);
    scope.stack.push(bot);
    assert(s.drop_last().drop_last() =~= s.take(s.len() - 2));
}

/// Moves the third value from the top to the top.
pub fn rot3(scope: &mut Scope, at: Span)
    requires
        old(scope).stack@.len() >= 3,
    ensures
        final(scope).funcs == old(scope).funcs,
        ({
            let s = old(scope).stack@;
            let n = s.len() as int;
            final(scope).stack@ == s.take(n - 3) + seq![s[n - 2], s[n - 1], s[n - 3]]
        }),
{
    let ghost s = scope.stack@;
    let top = scope.stack.pop().unwrap();
    let mid = scope.stack.pop().unwrap();
    let bot = scope.stack.pop().unwrap();
    scope.stack.push(mid);
    scope.stack.push(top);
    scope.stack.push(bot);
    assert(s.drop_last().drop_last().drop_last() =~= s.take(s.len() - 3));
}

/// Moves the top value below the next two.
pub fn rot3_rev(scope: &mut Scope, at: Span)
    requires
        old(scope).stack@.len() >= 3,
    ensures
        final(scope).funcs == old(scope).funcs,
        ({
            let s = old(scope).stack@;
            let n = s.len() as int;
            final(scope).stack@ == s.take(n - 3) + seq![s[n - 1], s[n - 3], s[n - 2]]
        }),
{
    let ghost s = scope.stack@;
    let top = scope.stack.pop().unwrap();
    let mid = scope.stack.pop().unwrap();
    let bot = scope.stack.pop().unwrap();
    scope.stack.push(top);
    scope.stack.push(bot);
    scope.stack.push(mid);
    assert(s.drop_last().drop_last().drop_last() =~= s.take(s.len() - 3));
}

/// Pushes the number of values on the stack, as an `Int` (wrapping past `i32::MAX`).
pub fn depth(scope: &mut Scope, at: Span)
    ensures
        final(scope).funcs == old(scope).funcs,
        final(scope).stack@ == old(scope).stack@.push(
            SpecValue::Int(old(scope).stack@.len() as i32),
        ),
{
    let depth = scope.stack.depth();
    scope.stack.push(Value::Int(depth as i32));
}

/// Replaces the top two values by whether they are equal.
pub fn equ(scope: &mut Scope, at: Span)
    requires
        old(scope).stack@.len() >= 2,
    ensures
        final(scope).funcs == old(scope).funcs,
        ({
            let s = old(scope).stack@;
            let n = s.len() as int;
            final(scope).stack@ == s.take(n - 2).push(
                SpecValue::Bool(values_equal(s[n - 2], s[n - 1])),
            )
        }),
{
    let ghost s = scope.stack@;
    let right = scope.stack.pop().unwrap();
    let left = scope.stack.pop().unwrap();
    let b = values_eq(&left, &right);
    scope.stack.push(Value::Bool(b));
    assert(s.drop_last().drop_last() =~= s.take(s.len() - 2));
}

} // verus!
