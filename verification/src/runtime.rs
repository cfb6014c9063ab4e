//! Values, stacks, type constraints and function tables of the interpreter.
//!
//! A `Number` value holds the bit pattern of an IEEE-754 binary32 number;
//! arithmetic on it happens outside the library.
use vstd::prelude::*;
use crate::ast::{Node, SpecNode, nodes_view, copy_nodes};
use crate::text::{decimal_text, push_decimal, string_push};
use crate::error::strings_view;

verus! {

/// A runtime value.
#[derive(Debug)]
pub enum Value {
    String(String),
    Int(i32),
    /// The bit pattern of a binary32 floating-point number.
    Number(u32),
    Bool(bool),
    Stack(Stack),
}

/// A stack of values; the last value is the top.
#[derive(Debug)]
pub struct Stack {
    pub values: Vec<Value>,
}

/// The type of a value, or a constraint on one (`Any`, `Integral`).
#[derive(Debug, Clone, Copy, PartialEq, Eq, Structural)]
pub enum ValueType {
    String,
    Int,
    Number,
    Bool,
    Any,
    Integral,
    Stack,
}

/// The name of each type, as the language writes it.
pub open spec fn type_text(t: ValueType) -> Seq<char> {
    match t {
        ValueType::String => "String"@,
        ValueType::Int => "Int"@,
        ValueType::Bool => "Bool"@,
        ValueType::Number => "Number"@,
        ValueType::Any => "Any"@,
        ValueType::Integral => "Integral"@,
        ValueType::Stack => "Stack"@,
    }
}

/// Whether a value of type `t` meets the constraint `c`: the same type,
/// any type for `Any`, and `Int` or `Number` for `Integral`.
pub open spec fn satisfies(t: ValueType, c: ValueType) -> bool {
    t == c || c == ValueType::Any || (c == ValueType::Integral && (t == ValueType::Number || t
        == ValueType::Int))
}

/// Whether two string slices hold the same characters.
pub fn str_eq(a: &str, b: &str) -> (r: bool)
    ensures
        r == (a@ == b@),
{
    let x = crate::text::chars_of(a);
    let y = crate::text::chars_of(b);
    if x.len() != y.len() {
        return false;
    }
    let mut i: usize = 0;
    while i < x.len()
        invariant
            x@ == a@,
            y@ == b@,
            x@.len() == y@.len(),
            i <= x@.len(),
            forall|k: int| 0 <= k < i ==> x@[k] == y@[k],
        decreases x@.len() - i,
    {
        if x[i] != y[i] {
            return false;
        }
        i = i + 1;
    }
    assert(x@ =~= y@);
    true
}

/// The type that `name` names, if any.
pub open spec fn type_named(name: Seq<char>) -> Option<ValueType> {
    if name == "String"@ {
        Some(ValueType::String)
    } else if name == "Int"@ {
        Some(ValueType::Int)
    } else if name == "Bool"@ {
        Some(ValueType::Bool)
    } else if name == "Number"@ {
        Some(ValueType::Number)
    } else if name == "Any"@ {
        Some(ValueType::Any)
    } else if name == "Integral"@ {
        Some(ValueType::Integral)
    } else if name == "Stack"@ {
        Some(ValueType::Stack)
    } else {
        None
    }
}

impl ValueType {
    pub fn from_str(name: &str) -> (r: Option<ValueType>)
        ensures
            r == type_named(name@),
    {
        if str_eq(name, "String") {
            Some(ValueType::String)
        } else if str_eq(name, "Int") {
            Some(ValueType::Int)
        } else if str_eq(name, "Bool") {
            Some(ValueType::Bool)
        } else if str_eq(name, "Number") {
            Some(ValueType::Number)
        } else if str_eq(name, "Any") {
            Some(ValueType::Any)
        } else if str_eq(name, "Integral") {
            Some(ValueType::Integral)
        } else if str_eq(name, "Stack") {
            Some(ValueType::Stack)
        } else {
            None
        }
    }

    pub fn into_str(&self) -> (r: &'static str)
        ensures
            r@ == type_text(*self),
    {
        match self {
            ValueType::String => "String",
            ValueType::Int => "Int",
            ValueType::Bool => "Bool",
            ValueType::Number => "Number",
            ValueType::Any => "Any",
            ValueType::Integral => "Integral",
            ValueType::Stack => "Stack",
        }
    }

    pub fn matches_constraint(&self, other: &ValueType) -> (r: bool)
        ensures
            r == satisfies(*self, *other),
    {
        if *self == *other {
            return true;
        }
        if let ValueType::Any = other {
            return true;
        }
        if let ValueType::Integral = other {
            if let ValueType::Number = self {
                return true;
            }
            if let ValueType::Int = self {
                return true;
            }
        }
        return false;
    }
}

/// Mathematical values.
pub enum SpecValue {
    String(Seq<char>),
    Int(i32),
    Number(u32),
    Bool(bool),
    Stack(Seq<SpecValue>),
}

pub open spec fn value_view(v: Value) -> SpecValue
    decreases v,
{
    match v {
        Value::String(s) => SpecValue::String(s@),
        Value::Int(n) => SpecValue::Int(n),
        Value::Number(b) => SpecValue::Number(b),
        Value::Bool(b) => SpecValue::Bool(b),
        Value::Stack(st) => SpecValue::Stack(values_view(st.values@)),
    }
}

pub open spec fn values_view(vs: Seq<Value>) -> Seq<SpecValue>
    decreases vs,
{
    if vs.len() == 0 {
        Seq::empty()
    } else {
        values_view(vs.drop_last()).push(value_view(vs.last()))
    }
}

impl View for Value {
    type V = SpecValue;

    open spec fn view(&self) -> SpecValue {
        value_view(*self)
    }
}

impl View for Stack {
    type V = Seq<SpecValue>;

    open spec fn view(&self) -> Seq<SpecValue> {
        values_view(self.values@)
    }
}

pub proof fn lemma_values_view(vs: Seq<Value>)
    ensures
        values_view(vs).len() == vs.len(),
        forall|i: int| 0 <= i < vs.len() ==> #[trigger] values_view(vs)[i] == vs[i]@,
    decreases vs.len(),
{
    if vs.len() > 0 {
        lemma_values_view(vs.drop_last());
    }
}

pub proof fn lemma_values_view_push(vs: Seq<Value>, v: Value)
    ensures
        values_view(vs.push(v)) == values_view(vs).push(v@),
{
    assert(vs.push(v).drop_last() =~= vs);
}

pub proof fn lemma_values_view_concat(a: Seq<Value>, b: Seq<Value>)
    ensures
        values_view(a + b) == values_view(a) + values_view(b),
    decreases b.len(),
{
    if b.len() == 0 {
        assert(a + b =~= a);
        assert(values_view(b) =~= Seq::<SpecValue>::empty());
        assert(values_view(a) + values_view(b) =~= values_view(a));
    } else {
        assert((a + b).drop_last() =~= a + b.drop_last());
        lemma_values_view_concat(a, b.drop_last());
        assert((a + b).last() == b.last());
        assert(values_view(a) + values_view(b) =~= (values_view(a) + values_view(
            b.drop_last(),
        )).push(b.last()@));
    }
}

impl Value {
    /// A copy of the value, nested stacks included.
    pub fn copy(&self) -> (r: Value)
        ensures
            r@ == self@,
        decreases self,
    {
        match self {
            Value::String(s) => Value::String(s.clone()),
            Value::Int(n) => Value::Int(*n),
            Value::Number(b) => Value::Number(*b),
            Value::Bool(b) => Value::Bool(*b),
            Value::Stack(st) => Value::Stack(st.copy()),
        }
    }
}

impl Stack {
    /// A copy of the stack, nested stacks included.
    pub fn copy(&self) -> (r: Stack)
        ensures
            r@ == self@,
        decreases self,
    {
        let mut out: Vec<Value> = Vec::new();
        let mut i: usize = 0;
        while i < self.values.len()
            invariant
                i <= self.values@.len(),
                values_view(out@) == values_view(self.values@.take(i as int)),
            decreases self.values@.len() - i,
        {
            assert(decreases_to!(self => self.values@[i as int]));
            let v = self.values[i].copy();
            proof {
                lemma_values_view_push(out@, v);
                lemma_values_view_push(self.values@.take(i as int), self.values@[i as int]);
                assert(self.values@.take(i + 1) =~= self.values@.take(i as int).push(
                    self.values@[i as int],
                ));
            }
            out.push(v);
            i = i + 1;
        }
        assert(self.values@.take(self.values@.len() as int) =~= self.values@);
        Stack { values: out }
    }
}

// ---------------------------------------------------------------------------
// Stack
// ---------------------------------------------------------------------------

impl Stack {
    pub fn new() -> (r: Stack)
        ensures
            r@ == Seq::<SpecValue>::empty(),
    {
        Stack { values: Vec::new() }
    }

    pub fn push(&mut self, val: Value)
        ensures
            final(self)@ == old(self)@.push(val@),
    {
        proof {
            lemma_values_view_push(self.values@, val);
        }
        self.values.push(val);
    }

    pub fn pop(&mut self) -> (r: Option<Value>)
        ensures
            old(self)@.len() > 0 ==> (r matches Some(v) && v@ == old(self)@.last()
                && final(self)@ == old(self)@.drop_last()),
            old(self)@.len() == 0 ==> r is None && final(self)@ == old(self)@,
    {
        proof {
            lemma_values_view(self.values@);
        }
        let ghost before = self.values@;
        let r = self.values.pop();
        proof {
            if before.len() > 0 {
                assert(before.drop_last() =~= self.values@);
            }
        }
        r
    }

    /// A copy of the top value.
    pub fn peek(&mut self) -> (r: Option<Value>)
        ensures
            final(self)@ == old(self)@,
            old(self)@.len() > 0 ==> (r matches Some(v) && v@ == old(self)@.last()),
            old(self)@.len() == 0 ==> r is None,
    {
        proof {
            lemma_values_view(self.values@);
        }
        let n = self.values.len();
        if n == 0 {
            None
        } else {
            Some(self.values[n - 1].copy())
        }
    }

    pub fn depth(&mut self) -> (r: usize)
        ensures
            final(self)@ == old(self)@,
            r == old(self)@.len(),
    {
        proof {
            lemma_values_view(self.values@);
        }
        self.values.len()
    }

    /// Takes the top `n` values off the stack, in stack order.
    pub fn top_n(&mut self, n: usize) -> (r: Option<Vec<Value>>)
        ensures
            n == 0 ==> (r matches Some(v) && v@.len() == 0 && final(self)@ == old(self)@),
            n > 0 && old(self)@.len() < n ==> r is None && final(self)@ == old(self)@,
            n > 0 && old(self)@.len() >= n ==> (r matches Some(v) && values_view(v@)
                == old(self)@.subrange(old(self)@.len() - n, old(self)@.len() as int)
                && final(self)@ == old(self)@.subrange(0, old(self)@.len() - n)),
    {
        if n == 0 {
            return Some(Vec::new());
        }
        proof {
            lemma_values_view(self.values@);
        }
        if self.values.len() < n {
            return None;
        }
        let start = self.values.len() - n;
        let ghost before = self.values@;
        let drained = self.values.split_off(start);
        proof {
            lemma_values_view(drained@);
            lemma_values_view(self.values@);
            assert(values_view(drained@) =~= values_view(before).subrange(start as int, before.len() as int));
            assert(values_view(self.values@) =~= values_view(before).subrange(0, start as int));
        }
        Some(drained)
    }
}

// ---------------------------------------------------------------------------
// Types of values
// ---------------------------------------------------------------------------

pub open spec fn type_of(v: SpecValue) -> ValueType {
    match v {
        SpecValue::String(_) => ValueType::String,
        SpecValue::Int(_) => ValueType::Int,
        SpecValue::Number(_) => ValueType::Number,
        SpecValue::Bool(_) => ValueType::Bool,
        SpecValue::Stack(_) => ValueType::Stack,
    }
}

impl Value {
    pub fn value_type(&self) -> (r: ValueType)
        ensures
            r == type_of(self@),
    {
        match self {
            Value::String(_) => ValueType::String,
            Value::Int(_) => ValueType::Int,
            Value::Number(_) => ValueType::Number,
            Value::Bool(_) => ValueType::Bool,
            Value::Stack(_) => ValueType::Stack,
        }
    }
}

// ---------------------------------------------------------------------------
// Text of values
// ---------------------------------------------------------------------------

/// Whether `v` is a number or a stack with a number somewhere inside.
pub open spec fn holds_number(v: SpecValue) -> bool
    decreases v,
{
    match v {
        SpecValue::Number(_) => true,
        SpecValue::Stack(vs) => seq_holds_number(vs),
        _ => false,
    }
}

pub open spec fn seq_holds_number(vs: Seq<SpecValue>) -> bool
    decreases vs,
{
    if vs.len() == 0 {
        false
    } else {
        seq_holds_number(vs.drop_last()) || holds_number(vs.last())
    }
}

/// The decimal text of an integer, with a minus sign when negative.
pub open spec fn int_text(n: int) -> Seq<char> {
    if n < 0 {
        seq!['-'] + decimal_text((-n) as nat)
    } else {
        decimal_text(n as nat)
    }
}

/// The text of a value that holds no number: a string as it is, an integer
/// in decimal, `true` or `false`, a stack as its values' texts between
/// brackets, separated by commas.
pub open spec fn value_text(v: SpecValue) -> Seq<char>
    decreases v,
{
    match v {
        SpecValue::String(s) => s,
        SpecValue::Int(n) => int_text(n as int),
        SpecValue::Number(_) => Seq::empty(),
        SpecValue::Bool(b) => if b {
            "true"@
        } else {
            "false"@
        },
        SpecValue::Stack(vs) => seq!['['] + values_text(vs) + seq![']'],
    }
}

pub open spec fn values_text(vs: Seq<SpecValue>) -> Seq<char>
    decreases vs,
{
    if vs.len() == 0 {
        Seq::empty()
    } else if vs.len() == 1 {
        value_text(vs[0])
    } else {
        values_text(vs.drop_last()) + seq![','] + value_text(vs.last())
    }
}

proof fn lemma_seq_holds_number(vs: Seq<SpecValue>)
    ensures
        seq_holds_number(vs) <==> exists|k: int| 0 <= k < vs.len() && #[trigger] holds_number(vs[k]),
    decreases vs.len(),
{
    if vs.len() > 0 {
        let d = vs.drop_last();
        lemma_seq_holds_number(d);
        assert(vs.last() == vs[vs.len() - 1]);
        if holds_number(vs.last()) {
            assert(holds_number(vs[vs.len() - 1]));
        }
        if seq_holds_number(d) {
            let k = choose|k: int| 0 <= k < d.len() && #[trigger] holds_number(d[k]);
            assert(vs[k] == d[k]);
        }
        if exists|k: int| 0 <= k < vs.len() && #[trigger] holds_number(vs[k]) {
            let k = choose|k: int| 0 <= k < vs.len() && #[trigger] holds_number(vs[k]);
            if k < vs.len() - 1 {
                assert(d[k] == vs[k]);
            }
        }
    }
}

fn int_string(n: i32) -> (r: String)
    ensures
        r@ == int_text(n as int),
{
    let mut r = String::new();
    if n < 0 {
        string_push(&mut r, '-');
        let m = (-(n as i64)) as usize;
        push_decimal(&mut r, m);
    } else {
        push_decimal(&mut r, n as usize);
    }
    r
}

impl Value {
    /// The text that `str` gives the value, when the value holds no number;
    /// `None` when it does (a number's text is made outside the library).
    pub fn as_string(&self) -> (r: Option<String>)
        ensures
            r is None <==> holds_number(self@),
            r matches Some(t) ==> t@ == value_text(self@),
        decreases self,
    {
        match self {
            Value::String(s) => Some(s.clone()),
            Value::Int(n) => Some(int_string(*n)),
            Value::Number(_) => None,
            Value::Bool(b) => {
                if *b {
                    Some(String::from_str("true"))
                } else {
                    Some(String::from_str("false"))
                }
            },
            Value::Stack(st) => st.as_string(),
        }
    }
}

impl Stack {
    /// The text that `str` gives the stack, when it holds no number.
    pub fn as_string(&self) -> (r: Option<String>)
        ensures
            r is None <==> seq_holds_number(self@),
            r matches Some(t) ==> t@ == seq!['['] + values_text(self@) + seq![']'],
        decreases self,
    {
        let ghost vs = self@;
        proof {
            lemma_values_view(self.values@);
            lemma_seq_holds_number(vs);
        }
        let mut out = String::new();
        string_push(&mut out, '[');
        let mut i: usize = 0;
        while i < self.values.len()
            invariant
                vs == self@,
                vs.len() == self.values@.len(),
                forall|k: int| 0 <= k < vs.len() ==> #[trigger] vs[k] == self.values@[k]@,
                i <= vs.len(),
                forall|k: int| 0 <= k < i ==> !#[trigger] holds_number(vs[k]),
                out@ == seq!['['] + values_text(vs.take(i as int)),
            decreases vs.len() - i,
        {
            assert(decreases_to!(self => self.values@[i as int]));
            let t = match self.values[i].as_string() {
                Some(t) => t,
                None => {
                    proof {
                        lemma_seq_holds_number(vs);
                    }
                    assert(holds_number(vs[i as int]));
                    return None;
                },
            };
            let ghost pre = vs.take(i as int);
            let ghost next = vs.take(i + 1);
            assert(next.drop_last() =~= pre);
            assert(next.last() == vs[i as int]);
            if i > 0 {
                string_push(&mut out, ',');
            }
            out.append(t.as_str());
            proof {
                if i == 0 {
                    assert(next.len() == 1);
                    assert(values_text(next) == value_text(vs[0]));
                    assert(values_text(pre) =~= Seq::<char>::empty());
                }
                assert(out@ =~= seq!['['] + values_text(next));
            }
            i = i + 1;
        }
        string_push(&mut out, ']');
        assert(vs.take(vs.len() as int) =~= vs);
        Some(out)
    }
}

// ---------------------------------------------------------------------------
// Text of values that hold numbers
// ---------------------------------------------------------------------------

/// The bit patterns of the numbers in `v`, in the order they are written.
pub open spec fn number_list(v: SpecValue) -> Seq<u32>
    decreases v,
{
    match v {
        SpecValue::Number(b) => seq![b],
        SpecValue::Stack(vs) => seq_number_list(vs),
        _ => Seq::empty(),
    }
}

pub open spec fn seq_number_list(vs: Seq<SpecValue>) -> Seq<u32>
    decreases vs,
{
    if vs.len() == 0 {
        Seq::empty()
    } else {
        seq_number_list(vs.drop_last()) + number_list(vs.last())
    }
}

/// The text that `str` gives `v` when `nums` are the texts of its numbers,
/// in order: as `value_text`, with each number written as its text.
pub open spec fn text_with(v: SpecValue, nums: Seq<Seq<char>>) -> Seq<char>
    decreases v,
{
    match v {
        SpecValue::Number(_) => nums[0],
        SpecValue::Stack(vs) => seq!['['] + texts_with(vs, nums) + seq![']'],
        _ => value_text(v),
    }
}

/// The texts of `vs` separated by commas; each value takes its own numbers'
/// texts from `nums`, in order.
pub open spec fn texts_with(vs: Seq<SpecValue>, nums: Seq<Seq<char>>) -> Seq<char>
    decreases vs,
{
    if vs.len() == 0 {
        Seq::empty()
    } else {
        let k = nums.len() - number_list(vs.last()).len();
        let last = text_with(vs.last(), nums.skip(k));
        if vs.len() == 1 {
            last
        } else {
            texts_with(vs.drop_last(), nums.take(k)) + seq![','] + last
        }
    }
}

proof fn lemma_numbers_take(vs: Seq<SpecValue>, i: int)
    requires
        0 <= i < vs.len(),
    ensures
        seq_number_list(vs.take(i + 1)) == seq_number_list(vs.take(i)) + number_list(vs[i]),
        seq_number_list(vs.take(i + 1)).len() <= seq_number_list(vs).len(),
    decreases vs.len(),
{
    assert(vs.take(i + 1).drop_last() =~= vs.take(i));
    if i + 1 < vs.len() {
        let d = vs.drop_last();
        lemma_numbers_take(d, i);
        assert(d.take(i + 1) =~= vs.take(i + 1));
        assert(d.take(i) =~= vs.take(i));
    } else {
        assert(vs.take(i + 1) =~= vs);
    }
}

impl Value {
    /// The bit patterns of the numbers in the value, in the order `str`
    /// writes them.
    pub fn numbers(&self) -> (r: Vec<u32>)
        ensures
            r@ == number_list(self@),
        decreases self,
    {
        match self {
            Value::Number(b) => {
                let r = vec![*b];
                assert(r@ =~= seq![*b]);
                r
            },
            Value::Stack(st) => st.numbers(),
            _ => Vec::new(),
        }
    }

    /// The text that `str` gives the value, given the texts of its numbers
    /// (one for each of `numbers()`, in order).
    pub fn as_string_with(&self, texts: &Vec<String>) -> (r: String)
        requires
            texts@.len() == number_list(self@).len(),
        ensures
            r@ == text_with(self@, strings_view(texts@)),
    {
        assert(strings_view(texts@).subrange(0, texts@.len() as int) =~= strings_view(texts@));
        self.text_from(texts, 0).0
    }

    /// The text of the value, its numbers' texts starting at `texts[at]`,
    /// and how many texts it took.
    fn text_from(&self, texts: &Vec<String>, at: usize) -> (r: (String, usize))
        requires
            at + number_list(self@).len() <= texts@.len(),
        ensures
            r.1 == number_list(self@).len(),
            r.0@ == text_with(
                self@,
                strings_view(texts@).subrange(at as int, at + number_list(self@).len()),
            ),
        decreases self,
    {
        match self {
            Value::Number(_) => (texts[at].clone(), 1),
            Value::Stack(st) => st.text_from(texts, at),
            _ => {
                let r = self.as_string();
                match r {
                    Some(t) => (t, 0),
                    None => (String::new(), 0),
                }
            },
        }
    }
}

impl Stack {
    /// The bit patterns of the numbers in the stack, bottom first.
    pub fn numbers(&self) -> (r: Vec<u32>)
        ensures
            r@ == seq_number_list(self@),
        decreases self,
    {
        let ghost vs = self@;
        proof {
            lemma_values_view(self.values@);
        }
        let mut out: Vec<u32> = Vec::new();
        let mut i: usize = 0;
        assert(vs.take(0) =~= Seq::<SpecValue>::empty());
        while i < self.values.len()
            invariant
                vs == self@,
                vs.len() == self.values@.len(),
                forall|k: int| 0 <= k < vs.len() ==> #[trigger] vs[k] == self.values@[k]@,
                i <= vs.len(),
                out@ == seq_number_list(vs.take(i as int)),
            decreases vs.len() - i,
        {
            assert(decreases_to!(self => self.values@[i as int]));
            let mut ns = self.values[i].numbers();
            proof {
                lemma_numbers_take(vs, i as int);
            }
            out.append(&mut ns);
            i = i + 1;
        }
        assert(vs.take(vs.len() as int) =~= vs);
        out
    }

    fn text_from(&self, texts: &Vec<String>, at: usize) -> (r: (String, usize))
        requires
            at + seq_number_list(self@).len() <= texts@.len(),
        ensures
            r.1 == seq_number_list(self@).len(),
            r.0@ == seq!['['] + texts_with(
                self@,
                strings_view(texts@).subrange(at as int, at + seq_number_list(self@).len()),
            ) + seq![']'],
        decreases self,
    {
        let ghost vs = self@;
        let ghost sv = strings_view(texts@);
        proof {
            lemma_values_view(self.values@);
        }
        let total = texts.len();
        let mut out = String::new();
        string_push(&mut out, '[');
        let mut i: usize = 0;
        let mut pos: usize = at;
        assert(vs.take(0) =~= Seq::<SpecValue>::empty());
        while i < self.values.len()
            invariant
                vs == self@,
                sv == strings_view(texts@),
                sv.len() == texts@.len(),
                total == texts@.len(),
                vs.len() == self.values@.len(),
                forall|k: int| 0 <= k < vs.len() ==> #[trigger] vs[k] == self.values@[k]@,
                i <= vs.len(),
                at + seq_number_list(vs).len() <= texts@.len(),
                pos == at + seq_number_list(vs.take(i as int)).len(),
                seq_number_list(vs.take(i as int)).len() <= seq_number_list(vs).len(),
                out@ == seq!['['] + texts_with(vs.take(i as int), sv.subrange(at as int, pos as int)),
            decreases vs.len() - i,
        {
            assert(decreases_to!(self => self.values@[i as int]));
            proof {
                lemma_numbers_take(vs, i as int);
            }
            let ghost n = number_list(vs[i as int]).len();
            let (t, used) = self.values[i].text_from(texts, pos);
            let ghost pre = vs.take(i as int);
            let ghost next = vs.take(i + 1);
            let ghost nn = sv.subrange(at as int, pos + n);
            assert(next.drop_last() =~= pre);
            assert(next.last() == vs[i as int]);
            assert(nn.len() - n == pos - at);
            assert(nn.skip(pos - at) =~= sv.subrange(pos as int, pos + n));
            assert(nn.take(pos - at) =~= sv.subrange(at as int, pos as int));
            if i > 0 {
                string_push(&mut out, ',');
            }
            out.append(t.as_str());
            proof {
                if i == 0 {
                    assert(texts_with(pre, sv.subrange(at as int, pos as int)) =~= Seq::<char>::empty());
                }
                assert(out@ =~= seq!['['] + texts_with(next, nn));
            }
            assert(seq_number_list(next).len() == seq_number_list(pre).len() + n);
            assert(pos + used <= texts@.len());
            pos = pos + used;
            i = i + 1;
        }
        string_push(&mut out, ']');
        assert(vs.take(vs.len() as int) =~= vs);
        (out, pos - at)
    }
}

/// The top `params.len()` values of `st` meet `params`, the last parameter
/// at the top.
pub open spec fn params_match(st: Seq<SpecValue>, params: Seq<ValueType>) -> bool {
    &&& params.len() <= st.len()
    &&& forall|i: int|
        0 <= i < params.len() ==> satisfies(
            type_of(#[trigger] st[st.len() - params.len() + i]),
            params[i],
        )
}

/// Type names joined by commas.
pub open spec fn join_types(ts: Seq<ValueType>) -> Seq<char>
    decreases ts.len(),
{
    if ts.len() == 0 {
        Seq::empty()
    } else if ts.len() == 1 {
        type_text(ts[0])
    } else {
        join_types(ts.drop_last()) + ","@ + type_text(ts.last())
    }
}

/// The types of the top `n` values of `st` (all of them when there are
/// fewer), bottom first.
pub open spec fn top_types(st: Seq<SpecValue>, n: nat) -> Seq<ValueType> {
    let k = if n <= st.len() {
        n as int
    } else {
        st.len() as int
    };
    st.subrange(st.len() - k, st.len() as int).map_values(|v: SpecValue| type_of(v))
}

/// The message for a call whose parameters are not on the stack.
pub open spec fn param_message(st: Seq<SpecValue>, params: Seq<ValueType>) -> Seq<char> {
    "Expected parameters ("@ + join_types(params) + "), found ("@ + join_types(
        top_types(st, params.len()),
    ) + ")"@
}

/// The names of `ts` joined by commas.
fn join_type_names(ts: &[ValueType]) -> (r: String)
    ensures
        r@ == join_types(ts@),
{
    let mut r = String::new();
    let mut i: usize = 0;
    while i < ts.len()
        invariant
            i <= ts@.len(),
            r@ == join_types(ts@.take(i as int)),
        decreases ts@.len() - i,
    {
        let ghost pre = ts@.take(i as int);
        let ghost next = ts@.take(i + 1);
        assert(next.drop_last() =~= pre);
        if i > 0 {
            r.append(",");
        }
        r.append(ts[i].into_str());
        proof {
            if i == 0 {
                assert(r@ =~= type_text(next[0]));
            }
        }
        i = i + 1;
    }
    assert(ts@.take(ts@.len() as int) =~= ts@);
    r
}

// ---------------------------------------------------------------------------
// Functions
// ---------------------------------------------------------------------------

/// The built-in functions.
#[derive(Debug, Clone, Copy, PartialEq, Eq, Structural)]
pub enum Builtin {
    Println,
    Dump,
    Dup,
    Pop,
    Swap,
    Rot,
    RotRev,
    Depth,
    Add,
    Sub,
    Mul,
    Div,
    Exp,
    Str,
    Int,
    Greater,
    GreaterEq,
    Less,
    LessEq,
    Equal,
}

/// A function: built in, or defined by the program.
#[derive(Debug)]
pub enum Function {
    Internal { params: Vec<ValueType>, body: Builtin },
    Runtime { params: Vec<ValueType>, body: Vec<Node> },
}

pub enum SpecFunction {
    Internal(Seq<ValueType>, Builtin),
    Runtime(Seq<ValueType>, Seq<SpecNode>),
}

impl View for Function {
    type V = SpecFunction;

    open spec fn view(&self) -> SpecFunction {
        match self {
            Function::Internal { params, body } => SpecFunction::Internal(params@, *body),
            Function::Runtime { params, body } => SpecFunction::Runtime(params@, nodes_view(body@)),
        }
    }
}

pub open spec fn function_params(f: SpecFunction) -> Seq<ValueType> {
    match f {
        SpecFunction::Internal(p, _) => p,
        SpecFunction::Runtime(p, _) => p,
    }
}

fn copy_types(ps: &Vec<ValueType>) -> (r: Vec<ValueType>)
    ensures
        r@ == ps@,
{
    let mut r: Vec<ValueType> = Vec::new();
    let mut i: usize = 0;
    while i < ps.len()
        invariant
            i <= ps@.len(),
            r@ == ps@.take(i as int),
        decreases ps@.len() - i,
    {
        assert(ps@.take(i + 1) =~= ps@.take(i as int).push(ps@[i as int]));
        r.push(ps[i]);
        i = i + 1;
    }
    assert(ps@.take(ps@.len() as int) =~= ps@);
    r
}

impl Function {
    pub fn copy(&self) -> (r: Function)
        ensures
            r@ == self@,
    {
        match self {
            Function::Internal { params, body } => Function::Internal {
                params: copy_types(params),
                body: *body,
            },
            Function::Runtime { params, body } => Function::Runtime {
                params: copy_types(params),
                body: copy_nodes(body),
            },
        }
    }

    pub fn params(&self) -> (r: &Vec<ValueType>)
        ensures
            r@ == function_params(self@),
    {
        match self {
            Function::Internal { params, .. } => params,
            Function::Runtime { params, .. } => params,
        }
    }
}

pub open spec fn entries_view(es: Seq<(String, Function)>) -> Seq<(Seq<char>, SpecFunction)> {
    es.map_values(|e: (String, Function)| (e.0@, e.1@))
}

/// The map that a list of named entries describes; a later entry wins.
pub open spec fn entries_map(es: Seq<(Seq<char>, SpecFunction)>) -> Map<Seq<char>, SpecFunction>
    decreases es.len(),
{
    if es.len() == 0 {
        Map::empty()
    } else {
        entries_map(es.drop_last()).insert(es.last().0, es.last().1)
    }
}

pub open spec fn names_unique(es: Seq<(Seq<char>, SpecFunction)>) -> bool {
    forall|i: int, j: int| 0 <= i < j < es.len() ==> (#[trigger] es[i]).0 != (#[trigger] es[j]).0
}

pub proof fn lemma_entries_map(es: Seq<(Seq<char>, SpecFunction)>)
    requires
        names_unique(es),
    ensures
        forall|x: Seq<char>|
            #![trigger entries_map(es).dom().contains(x)]
            entries_map(es).dom().contains(x) <==> exists|i: int| 0 <= i < es.len() && es[i].0 == x,
        forall|i: int| 0 <= i < es.len() ==> entries_map(es)[#[trigger] es[i].0] == es[i].1,
    decreases es.len(),
{
    if es.len() > 0 {
        let d = es.drop_last();
        assert(names_unique(d));
        lemma_entries_map(d);
        assert forall|x: Seq<char>|
            #![trigger entries_map(es).dom().contains(x)]
            entries_map(es).dom().contains(x) <==> exists|i: int| 0 <= i < es.len() && es[i].0 == x by {
            if entries_map(es).dom().contains(x) {
                if x == es.last().0 {
                    assert(es[es.len() - 1].0 == x);
                } else {
                    assert(entries_map(d).dom().contains(x));
                    let i = choose|i: int| 0 <= i < d.len() && d[i].0 == x;
                    assert(es[i].0 == x);
                }
            }
            if exists|i: int| 0 <= i < es.len() && es[i].0 == x {
                let i = choose|i: int| 0 <= i < es.len() && es[i].0 == x;
                if i < es.len() - 1 {
                    assert(d[i].0 == x);
                }
            }
        }
        assert forall|i: int| 0 <= i < es.len() implies entries_map(es)[#[trigger] es[i].0]
            == es[i].1 by {
            if i < es.len() - 1 {
                assert(d[i] == es[i]);
                assert(es[i].0 != es[es.len() - 1].0);
            }
        }
    }
}

/// The functions in scope, by name.
pub struct FunctionTable {
    entries: Vec<(String, Function)>,
}

impl View for FunctionTable {
    type V = Map<Seq<char>, SpecFunction>;

    closed spec fn view(&self) -> Map<Seq<char>, SpecFunction> {
        entries_map(entries_view(self.entries@))
    }
}

impl FunctionTable {
    #[verifier::type_invariant]
    closed spec fn inv(self) -> bool {
        names_unique(entries_view(self.entries@))
    }

    pub fn new() -> (r: FunctionTable)
        ensures
            r@ == Map::<Seq<char>, SpecFunction>::empty(),
    {
        let r = FunctionTable { entries: Vec::new() };
        assert(entries_view(r.entries@) =~= Seq::<(Seq<char>, SpecFunction)>::empty());
        r
    }

    /// The position of the entry named `name`.
    fn find(&self, name: &str) -> (r: Option<usize>)
        ensures
            r is None <==> !self@.dom().contains(name@),
            r matches Some(i) ==> i < self.entries@.len() && self.entries@[i as int].0@ == name@
                && self@[name@] == self.entries@[i as int].1@,
    {
        proof {
            use_type_invariant(self);
            lemma_entries_map(entries_view(self.entries@));
        }
        let ghost es = entries_view(self.entries@);
        let mut i: usize = 0;
        while i < self.entries.len()
            invariant
                es == entries_view(self.entries@),
                i <= self.entries@.len(),
                forall|k: int| 0 <= k < i ==> (#[trigger] es[k]).0 != name@,
            decreases self.entries@.len() - i,
        {
            if str_eq(self.entries[i].0.as_str(), name) {
                assert(es[i as int].0 == name@);
                proof {
                    use_type_invariant(self);
                    lemma_entries_map(es);
                }
                return Some(i);
            }
            i = i + 1;
        }
        proof {
            use_type_invariant(self);
            lemma_entries_map(es);
        }
        None
    }

    pub fn contains_key(&self, name: &str) -> (r: bool)
        ensures
            r == self@.dom().contains(name@),
    {
        self.find(name).is_some()
    }

    /// A copy of the function named `name`.
    pub fn get(&self, name: &str) -> (r: Option<Function>)
        ensures
            r is Some <==> self@.dom().contains(name@),
            r matches Some(f) ==> f@ == self@[name@],
    {
        match self.find(name) {
            Some(i) => Some(self.entries[i].1.copy()),
            None => None,
        }
    }

    /// Binds `name` to `f`, replacing an earlier binding.
    pub fn insert(&mut self, name: String, f: Function)
        ensures
            final(self)@ == old(self)@.insert(name@, f@),
    {
        proof {
            use_type_invariant(&*self);
            lemma_entries_map(entries_view(self.entries@));
        }
        let ghost es = entries_view(self.entries@);
        let ghost n = name@;
        let ghost fv = f@;
        match self.find(name.as_str()) {
            Some(i) => {
                let mut entries: Vec<(String, Function)> = Vec::new();
                std::mem::swap(&mut entries, &mut self.entries);
                entries.set(i, (name, f));
                let ghost es2 = entries_view(entries@);
                assert(es2 =~= es.update(i as int, (n, fv)));
                assert(forall|k: int| 0 <= k < es2.len() ==> (#[trigger] es2[k]).0 == es[k].0);
                assert(names_unique(es2));
                proof {
                    lemma_entries_map(es2);
                    assert(entries_map(es2) =~= entries_map(es).insert(n, fv)) by {
                        assert forall|x: Seq<char>| #[trigger]
                            entries_map(es2).dom().contains(x) == entries_map(es).insert(
                                n,
                                fv,
                            ).dom().contains(x) by {
                            if entries_map(es2).dom().contains(x) {
                                let k = choose|k: int| 0 <= k < es2.len() && es2[k].0 == x;
                                if k != i {
                                    assert(es[k].0 == x);
                                }
                            }
                            if entries_map(es).dom().contains(x) {
                                let k = choose|k: int| 0 <= k < es.len() && es[k].0 == x;
                                if k != i {
                                    assert(es2[k].0 == x);
                                }
                            }
                        }
                        assert forall|x: Seq<char>|
                            #[trigger] entries_map(es2).dom().contains(x) implies entries_map(es2)[x]
                            == entries_map(es).insert(n, fv)[x] by {
                            let k = choose|k: int| 0 <= k < es2.len() && es2[k].0 == x;
                            if k != i {
                                assert(es[k] == es2[k]);
                                if k < i {
                                    assert(es[k].0 != es[i as int].0);
                                } else {
                                    assert(es[i as int].0 != es[k].0);
                                }
                                assert(x != n);
                            }
                        }
                    }
                }
                self.entries = entries;
            },
            None => {
                proof {
                    assert forall|k: int| 0 <= k < es.len() implies es[k].0 != n by {
                        if es[k].0 == n {
                            assert(entries_map(es).dom().contains(n));
                        }
                    }
                }
                let mut entries: Vec<(String, Function)> = Vec::new();
                std::mem::swap(&mut entries, &mut self.entries);
                entries.push((name, f));
                let ghost es2 = entries_view(entries@);
                assert(es2 =~= es.push((n, fv)));
                assert(es2.drop_last() =~= es);
                self.entries = entries;
            },
        }
    }

    /// A copy of the table.
    pub fn copy(&self) -> (r: FunctionTable)
        ensures
            r@ == self@,
    {
        proof {
            use_type_invariant(self);
        }
        let ghost es = entries_view(self.entries@);
        let mut out: Vec<(String, Function)> = Vec::new();
        let mut i: usize = 0;
        while i < self.entries.len()
            invariant
                es == entries_view(self.entries@),
                names_unique(es),
                i <= self.entries@.len(),
                entries_view(out@) == es.take(i as int),
            decreases self.entries@.len() - i,
        {
            let e = (self.entries[i].0.clone(), self.entries[i].1.copy());
            assert(entries_view(out@.push(e)) =~= entries_view(out@).push((e.0@, e.1@)));
            assert(es.take(i + 1) =~= es.take(i as int).push(es[i as int]));
            out.push(e);
            i = i + 1;
        }
        assert(es.take(es.len() as int) =~= es);
        FunctionTable { entries: out }
    }
}

// ---------------------------------------------------------------------------
// Scope
// ---------------------------------------------------------------------------

/// A stack with the functions visible to the code running on it.
pub struct Scope {
    pub stack: Stack,
    pub funcs: FunctionTable,
}

impl Scope {
    /// An empty stack with the built-in functions.
    pub fn new() -> (r: Scope)
        ensures
            r.stack@ == Seq::<SpecValue>::empty(),
            r.funcs@ == crate::faestd::std_table(),
    {
        Scope { stack: Stack::new(), funcs: crate::faestd::std_get_fns() }
    }

    pub fn is_matching_params(&self, params: &[ValueType]) -> (r: bool)
        ensures
            r == params_match(self.stack@, params@),
    {
        proof {
            lemma_values_view(self.stack.values@);
        }
        let ghost st = self.stack@;
        let n = self.stack.values.len();
        let p = params.len();
        if p > n {
            return false;
        }
        let mut i: usize = 0;
        while i < p
            invariant
                st == self.stack@,
                n == st.len(),
                p == params@.len(),
                p <= n,
                i <= p,
                forall|j: int|
                    0 <= j < i ==> satisfies(
                        type_of(#[trigger] st[n - 1 - j]),
                        params@[p - 1 - j],
                    ),
            decreases p - i,
        {
            proof {
                lemma_values_view(self.stack.values@);
            }
            if !self.stack.values[n - 1 - i].value_type().matches_constraint(&params[p - 1 - i]) {
                assert(!satisfies(type_of(st[n - p + (p - 1 - i)]), params@[p - 1 - i]));
                return false;
            }
            i = i + 1;
        }
        assert forall|k: int| 0 <= k < p implies satisfies(
            type_of(#[trigger] st[st.len() - p + k]),
            params@[k],
        ) by {
            let j = p - 1 - k;
            assert(st[n - 1 - j] == st[st.len() - p + k]);
        }
        true
    }

    /// Checks that the top of the stack holds values for `params`; when it
    /// does not, gives the message that reports the call.
    pub fn ensure_params(&self, params: &[ValueType]) -> (r: Result<(), String>)
        ensures
            r is Ok <==> params_match(self.stack@, params@),
            r matches Err(m) ==> m@ == param_message(self.stack@, params@),
    {
        if self.is_matching_params(params) {
            return Ok(());
        }
        proof {
            lemma_values_view(self.stack.values@);
        }
        let ghost st = self.stack@;
        let n = self.stack.values.len();
        let k = if params.len() <= n {
            params.len()
        } else {
            n
        };
        let mut got_types: Vec<ValueType> = Vec::new();
        let mut j: usize = n - k;
        while j < n
            invariant
                st == self.stack@,
                n == st.len(),
                k <= n,
                n - k <= j <= n,
                got_types@ == st.subrange(n - k, j as int).map_values(|v: SpecValue| type_of(v)),
            decreases n - j,
        {
            proof {
                lemma_values_view(self.stack.values@);
            }
            let t = self.stack.values[j].value_type();
            assert(st.subrange(n - k, j + 1).map_values(|v: SpecValue| type_of(v))
                =~= st.subrange(n - k, j as int).map_values(|v: SpecValue| type_of(v)).push(t));
            got_types.push(t);
            j = j + 1;
        }
        let got = join_type_names(got_types.as_slice());
        let wanted = join_type_names(params);
        let mut msg = String::new();
        msg.append("Expected parameters (");
        msg.append(wanted.as_str());
        msg.append("), found (");
        msg.append(got.as_str());
        msg.append(")");
        Err(msg)
    }
}

} // verus!
