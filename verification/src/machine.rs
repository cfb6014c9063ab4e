//! Running a program, one step at a time.
//!
//! A `Machine` holds the scopes and the blocks being run. Each `step` runs
//! one node or finishes one block, and reports what the caller must do:
//! nothing, stop, run a built-in that needs floating point or output,
//! convert a decimal literal, or report an error; it also says when a block
//! started from outside has ended, and whether by a `break`. Everything the interpreter decides
//! (control flow, `break`, function definition and lookup, parameter
//! checks, scopes of calls and `with` blocks, stack shuffling) happens here.
use vstd::prelude::*;
use crate::lexer::Span;
use crate::ast::{Node, NodeKind, SpecNode, SpecNodeKind, nodes_view, copy_nodes};
use crate::runtime::{
    Builtin,
    Function,
    FunctionTable,
    Scope,
    SpecFunction,
    SpecValue,
    Stack,
    Value,
    ValueType,
    params_match,
    holds_number,
    value_text,
    param_message,
    values_view,
    lemma_values_view,
};
use crate::faestd::values_equal;

verus! {

/// How a block ended.
pub enum ControlState {
    Normal,
    Break,
}

/// What a running block is.
#[derive(Debug, Clone, Copy, PartialEq, Eq, Structural)]
pub enum FrameKind {
    /// A block started from outside.
    Top,
    /// The body of a `loop`, run again each time it ends.
    Loop,
    /// The body of an `if` whose condition held.
    If,
    /// The body of a user function, in a scope of its own.
    Call,
    /// The body of a `with`, in a scope whose stack is the popped stack.
    With,
}

/// A block being run: its nodes, the next one to run, and what it is.
pub struct Frame {
    pub body: Vec<Node>,
    pub index: usize,
    pub kind: FrameKind,
}

/// What the caller of `step` must do next.
#[derive(Debug)]
pub enum Event {
    /// Nothing: step again.
    Continue,
    /// Nothing is left to run.
    Done,
    /// Run the built-in `op` on the current stack; its parameters are there.
    /// For `int` the top is a `Number`; for `str` the top holds one.
    Builtin { op: Builtin, pos: Span },
    /// Push the binary32 number that the decimal `text` denotes.
    Number { text: String, pos: Span },
    /// The program failed at `pos`.
    Error { pos: Span, message: String },
    /// A node that the parser marked as an error was reached, at `pos`.
    ErrorNode { pos: Span },
    /// A block started by `start_block` has ended, by a `break` or not.
    Ended { by_break: bool },
}

pub enum SpecEvent {
    Continue,
    Done,
    Builtin(Builtin, Span),
    Number(Seq<char>, Span),
    Error(Span, Seq<char>),
    ErrorNode(Span),
    Ended(bool),
}

impl View for Event {
    type V = SpecEvent;

    open spec fn view(&self) -> SpecEvent {
        match self {
            Event::Continue => SpecEvent::Continue,
            Event::Done => SpecEvent::Done,
            Event::Builtin { op, pos } => SpecEvent::Builtin(*op, *pos),
            Event::Number { text, pos } => SpecEvent::Number(text@, *pos),
            Event::Error { pos, message } => SpecEvent::Error(*pos, message@),
            Event::ErrorNode { pos } => SpecEvent::ErrorNode(*pos),
            Event::Ended { by_break } => SpecEvent::Ended(*by_break),
        }
    }
}

// ---------------------------------------------------------------------------
// Models
// ---------------------------------------------------------------------------

pub struct ScopeModel {
    pub stack: Seq<SpecValue>,
    pub funcs: Map<Seq<char>, SpecFunction>,
}

pub struct FrameModel {
    pub body: Seq<SpecNode>,
    pub index: nat,
    pub kind: FrameKind,
}

pub struct MachineModel {
    pub scopes: Seq<ScopeModel>,
    pub frames: Seq<FrameModel>,
}

pub open spec fn scope_view(s: Scope) -> ScopeModel {
    ScopeModel { stack: s.stack@, funcs: s.funcs@ }
}

pub open spec fn frame_view(f: Frame) -> FrameModel {
    FrameModel { body: nodes_view(f.body@), index: f.index as nat, kind: f.kind }
}

/// Whether a frame of this kind runs in a scope of its own.
pub open spec fn has_scope(k: FrameKind) -> bool {
    k == FrameKind::Call || k == FrameKind::With
}

pub open spec fn scoped_count(fs: Seq<FrameModel>) -> nat
    decreases fs.len(),
{
    if fs.len() == 0 {
        0
    } else {
        scoped_count(fs.drop_last()) + if has_scope(fs.last().kind) {
            1nat
        } else {
            0nat
        }
    }
}

/// The parameters of each built-in.
pub open spec fn builtin_params(op: Builtin) -> Seq<ValueType> {
    match op {
        Builtin::Println => seq![ValueType::String],
        Builtin::Dump | Builtin::Depth => Seq::empty(),
        Builtin::Dup | Builtin::Pop | Builtin::Str | Builtin::Int => seq![ValueType::Any],
        Builtin::Swap | Builtin::Equal => seq![ValueType::Any, ValueType::Any],
        Builtin::Rot | Builtin::RotRev => seq![ValueType::Any, ValueType::Any, ValueType::Any],
        _ => seq![ValueType::Integral, ValueType::Integral],
    }
}

/// Every built-in in `fs` has its own parameters.
pub open spec fn funcs_ok(fs: Map<Seq<char>, SpecFunction>) -> bool {
    forall|name: Seq<char>|
        #![trigger fs[name]]
        fs.dom().contains(name) ==> match fs[name] {
            SpecFunction::Runtime(_, _) => true,
            SpecFunction::Internal(p, op) => p == builtin_params(op),
        }
}

pub open spec fn frames_ok(fs: Seq<FrameModel>) -> bool {
    forall|i: int|
        0 <= i < fs.len() ==> (#[trigger] fs[i]).index <= fs[i].body.len()
}

pub open spec fn scopes_ok(ss: Seq<ScopeModel>) -> bool {
    forall|j: int| 0 <= j < ss.len() ==> funcs_ok((#[trigger] ss[j]).funcs)
}

/// One scope for the top level and one for each call or `with` being run;
/// each block's next node within it; built-ins with their own parameters.
pub open spec fn model_wf(m: MachineModel) -> bool {
    &&& m.scopes.len() == 1 + scoped_count(m.frames)
    &&& frames_ok(m.frames)
    &&& scopes_ok(m.scopes)
}

// ---------------------------------------------------------------------------
// The meaning of a step
// ---------------------------------------------------------------------------

pub open spec fn cur(m: MachineModel) -> ScopeModel {
    m.scopes.last()
}

pub open spec fn set_cur(m: MachineModel, sc: ScopeModel) -> MachineModel {
    MachineModel { scopes: m.scopes.update(m.scopes.len() - 1, sc), frames: m.frames }
}

pub open spec fn set_stack(m: MachineModel, st: Seq<SpecValue>) -> MachineModel {
    set_cur(m, ScopeModel { stack: st, funcs: cur(m).funcs })
}

pub open spec fn push_value(m: MachineModel, v: SpecValue) -> MachineModel {
    set_stack(m, cur(m).stack.push(v))
}

pub open spec fn push_frame(m: MachineModel, body: Seq<SpecNode>, kind: FrameKind) -> MachineModel {
    MachineModel {
        scopes: m.scopes,
        frames: m.frames.push(FrameModel { body, index: 0, kind }),
    }
}

/// The top frame's block has ended, normally or by a `break`. A loop runs
/// again after a normal end and stops after a break; a break leaves an `if`
/// and goes on ending the enclosing block; a call gives its stack back to
/// the caller, on top of the caller's; a `with` pushes its stack, as one
/// value, onto the enclosing stack.
pub open spec fn end_block(m: MachineModel, brk: bool) -> MachineModel
    decreases m.frames.len(),
{
    if m.frames.len() == 0 {
        m
    } else {
        let f = m.frames.last();
        let fr = m.frames.drop_last();
        let popped = MachineModel { scopes: m.scopes, frames: fr };
        match f.kind {
            FrameKind::Loop => if brk {
                popped
            } else {
                MachineModel { scopes: m.scopes, frames: fr.push(FrameModel { index: 0, ..f }) }
            },
            FrameKind::If => if brk {
                end_block(popped, true)
            } else {
                popped
            },
            FrameKind::Top => popped,
            FrameKind::Call => {
                let callee = m.scopes.last();
                let rest = m.scopes.drop_last();
                let caller = rest.last();
                MachineModel {
                    scopes: rest.update(
                        rest.len() - 1,
                        ScopeModel { stack: caller.stack + callee.stack, funcs: caller.funcs },
                    ),
                    frames: fr,
                }
            },
            FrameKind::With => {
                let inner = m.scopes.last();
                let rest = m.scopes.drop_last();
                let outer = rest.last();
                MachineModel {
                    scopes: rest.update(
                        rest.len() - 1,
                        ScopeModel {
                            stack: outer.stack.push(SpecValue::Stack(inner.stack)),
                            funcs: outer.funcs,
                        },
                    ),
                    frames: fr,
                }
            },
        }
    }
}

/// Whether ending the top block, normally or by a `break`, ends a block
/// started by `start_block`: that is where the end stops.
pub open spec fn ends_top(m: MachineModel, brk: bool) -> bool
    decreases m.frames.len(),
{
    if m.frames.len() == 0 {
        false
    } else {
        let popped = MachineModel { scopes: m.scopes, frames: m.frames.drop_last() };
        match m.frames.last().kind {
            FrameKind::If => brk && ends_top(popped, true),
            FrameKind::Top => true,
            _ => false,
        }
    }
}

/// The event of ending the top block: `Ended` when a block started by
/// `start_block` ends, `Continue` otherwise.
pub open spec fn end_event(m: MachineModel, brk: bool) -> SpecEvent {
    if ends_top(m, brk) {
        SpecEvent::Ended(brk)
    } else {
        SpecEvent::Continue
    }
}

/// What a built-in that only rearranges or compares does to a stack whose
/// top meets its parameters.
pub open spec fn apply_stack_builtin(op: Builtin, s: Seq<SpecValue>) -> Seq<SpecValue> {
    let n = s.len() as int;
    match op {
        Builtin::Dup => s.push(s[n - 1]),
        Builtin::Pop => s.drop_last(),
        Builtin::Swap => s.take(n - 2) + seq![s[n - 1], s[n - 2]],
        Builtin::Rot => s.take(n - 3) + seq![s[n - 2], s[n - 1], s[n - 3]],
        Builtin::RotRev => s.take(n - 3) + seq![s[n - 1], s[n - 3], s[n - 2]],
        Builtin::Depth => s.push(SpecValue::Int(n as i32)),
        Builtin::Equal => s.take(n - 2).push(SpecValue::Bool(values_equal(s[n - 2], s[n - 1]))),
        _ => s,
    }
}

/// The built-ins that the machine runs itself.
pub open spec fn is_stack_builtin(op: Builtin) -> bool {
    match op {
        Builtin::Dup | Builtin::Pop | Builtin::Swap | Builtin::Rot | Builtin::RotRev
        | Builtin::Depth | Builtin::Equal => true,
        _ => false,
    }
}

pub open spec fn span_of(n: SpecNode) -> Span {
    Span { start: n.start as usize, end: n.end as usize }
}

pub open spec fn msg_if() -> Seq<char> {
    "If expects parameters: (bool)"@
}

pub open spec fn msg_redefine(name: Seq<char>) -> Seq<char> {
    "Cannot redefine existing function '"@ + name + "'"@
}

pub open spec fn msg_not_found() -> Seq<char> {
    "Function not found"@
}

pub open spec fn msg_not_int() -> Seq<char> {
    "Failed to cast to int"@
}

/// `str` on a stack with a value on top: a value that holds no number is
/// replaced by its text; one that does is handed out (a number's text is
/// floating point).
pub open spec fn str_builtin(m: MachineModel, at: Span) -> (MachineModel, SpecEvent) {
    let st = cur(m).stack;
    if holds_number(st.last()) {
        (m, SpecEvent::Builtin(Builtin::Str, at))
    } else {
        (
            set_stack(m, st.drop_last().push(SpecValue::String(value_text(st.last())))),
            SpecEvent::Continue,
        )
    }
}

/// `int` on a stack with a value on top: an `Int` stays, a `Bool` becomes
/// 0 or 1, a `Number` is handed out (its conversion is floating point), and
/// a string or a stack is popped and fails.
pub open spec fn int_builtin(m: MachineModel, at: Span) -> (MachineModel, SpecEvent) {
    let st = cur(m).stack;
    match st.last() {
        SpecValue::Int(_) => (m, SpecEvent::Continue),
        SpecValue::Bool(b) => (
            set_stack(m, st.drop_last().push(SpecValue::Int(if b { 1i32 } else { 0i32 }))),
            SpecEvent::Continue,
        ),
        SpecValue::Number(_) => (m, SpecEvent::Builtin(Builtin::Int, at)),
        _ => (set_stack(m, st.drop_last()), SpecEvent::Error(at, msg_not_int())),
    }
}

/// Running node `n` (the top frame has already moved past it).
pub open spec fn run_node(m: MachineModel, n: SpecNode) -> (MachineModel, SpecEvent) {
    let sc = cur(m);
    let st = sc.stack;
    let at = span_of(n);
    match n.kind {
        SpecNodeKind::Loop(body) => (push_frame(m, body, FrameKind::Loop), SpecEvent::Continue),
        SpecNodeKind::If(body) => {
            if st.len() > 0 && st.last() == SpecValue::Bool(true) {
                (push_frame(set_stack(m, st.drop_last()), body, FrameKind::If), SpecEvent::Continue)
            } else if st.len() > 0 && st.last() == SpecValue::Bool(false) {
                (set_stack(m, st.drop_last()), SpecEvent::Continue)
            } else {
                (
                    set_stack(
                        m,
                        if st.len() > 0 {
                            st.drop_last()
                        } else {
                            st
                        },
                    ),
                    SpecEvent::Error(at, msg_if()),
                )
            }
        },
        SpecNodeKind::Function(name, params, body) => {
            if sc.funcs.dom().contains(name) {
                (m, SpecEvent::Error(at, msg_redefine(name)))
            } else {
                (
                    set_cur(
                        m,
                        ScopeModel {
                            stack: st,
                            funcs: sc.funcs.insert(name, SpecFunction::Runtime(params, body)),
                        },
                    ),
                    SpecEvent::Continue,
                )
            }
        },
        SpecNodeKind::Break => (end_block(m, true), end_event(m, true)),
        SpecNodeKind::Instruction(name) => {
            if !sc.funcs.dom().contains(name) {
                (m, SpecEvent::Error(at, msg_not_found()))
            } else {
                match sc.funcs[name] {
                    SpecFunction::Runtime(params, body) => {
                        if !params_match(st, params) {
                            (m, SpecEvent::Error(at, param_message(st, params)))
                        } else {
                            let k = st.len() - params.len();
                            let caller = set_stack(m, st.take(k));
                            let callee = ScopeModel { stack: st.skip(k), funcs: sc.funcs };
                            (
                                MachineModel {
                                    scopes: caller.scopes.push(callee),
                                    frames: caller.frames.push(
                                        FrameModel { body, index: 0, kind: FrameKind::Call },
                                    ),
                                },
                                SpecEvent::Continue,
                            )
                        }
                    },
                    SpecFunction::Internal(params, op) => {
                        if !params_match(st, params) {
                            (m, SpecEvent::Error(at, param_message(st, params)))
                        } else if is_stack_builtin(op) {
                            (set_stack(m, apply_stack_builtin(op, st)), SpecEvent::Continue)
                        } else if op == Builtin::Int {
                            int_builtin(m, at)
                        } else if op == Builtin::Str {
                            str_builtin(m, at)
                        } else {
                            (m, SpecEvent::Builtin(op, at))
                        }
                    },
                }
            }
        },
        SpecNodeKind::String(s) => (push_value(m, SpecValue::String(s)), SpecEvent::Continue),
        SpecNodeKind::Number(t) => (m, SpecEvent::Number(t, at)),
        SpecNodeKind::Int(v) => (push_value(m, SpecValue::Int(v as i32)), SpecEvent::Continue),
        SpecNodeKind::Bool(b) => (push_value(m, SpecValue::Bool(b)), SpecEvent::Continue),
        SpecNodeKind::Stack(vs) => (push_value(m, SpecValue::Stack(vs)), SpecEvent::Continue),
        SpecNodeKind::With(body) => {
            if !params_match(st, seq![ValueType::Stack]) {
                (m, SpecEvent::Error(at, param_message(st, seq![ValueType::Stack])))
            } else {
                let inner = match st.last() {
                    SpecValue::Stack(vs) => vs,
                    _ => Seq::empty(),
                };
                let outer = set_stack(m, st.drop_last());
                (
                    MachineModel {
                        scopes: outer.scopes.push(ScopeModel { stack: inner, funcs: sc.funcs }),
                        frames: outer.frames.push(
                            FrameModel { body, index: 0, kind: FrameKind::With },
                        ),
                    },
                    SpecEvent::Continue,
                )
            }
        },
        SpecNodeKind::Error(_) => (m, SpecEvent::ErrorNode(at)),
    }
}

/// One step: nothing left, the end of the top block, or its next node.
pub open spec fn step_spec(m: MachineModel) -> (MachineModel, SpecEvent) {
    if m.frames.len() == 0 {
        (m, SpecEvent::Done)
    } else {
        let f = m.frames.last();
        if f.index >= f.body.len() {
            (end_block(m, false), end_event(m, false))
        } else {
            let moved = MachineModel {
                scopes: m.scopes,
                frames: m.frames.update(m.frames.len() - 1, FrameModel { index: f.index + 1, ..f }),
            };
            run_node(moved, f.body[f.index as int])
        }
    }
}

// ---------------------------------------------------------------------------
// The machine
// ---------------------------------------------------------------------------

pub open spec fn scopes_view(v: Seq<Scope>) -> Seq<ScopeModel> {
    v.map_values(|s: Scope| scope_view(s))
}

pub open spec fn frames_view(v: Seq<Frame>) -> Seq<FrameModel> {
    v.map_values(|f: Frame| frame_view(f))
}

proof fn lemma_scoped_push(fs: Seq<FrameModel>, f: FrameModel)
    ensures
        scoped_count(fs.push(f)) == scoped_count(fs) + if has_scope(f.kind) {
            1nat
        } else {
            0nat
        },
{
    assert(fs.push(f).drop_last() =~= fs);
}

proof fn lemma_update_last<A>(s: Seq<A>, x: A)
    requires
        s.len() > 0,
    ensures
        s.drop_last().push(x) == s.update(s.len() - 1, x),
{
    assert(s.drop_last().push(x) =~= s.update(s.len() - 1, x));
}

proof fn lemma_std_funcs_ok()
    ensures
        funcs_ok(crate::faestd::std_table()),
{
    let t = crate::faestd::std_table();
    assert forall|name: Seq<char>| #![trigger t[name]] t.dom().contains(name) implies match t[name] {
        SpecFunction::Runtime(_, _) => true,
        SpecFunction::Internal(p, op) => p == builtin_params(op),
    } by {
    }
}

/// Runs programs: the scopes, innermost last, and the blocks being run,
/// innermost last.
pub struct Machine {
    scopes: Vec<Scope>,
    frames: Vec<Frame>,
}

impl View for Machine {
    type V = MachineModel;

    closed spec fn view(&self) -> MachineModel {
        MachineModel { scopes: scopes_view(self.scopes@), frames: frames_view(self.frames@) }
    }
}

impl Machine {
    pub closed spec fn wf(&self) -> bool {
        model_wf(self@)
    }

    /// A machine with one scope holding the built-ins, and nothing to run.
    pub fn new() -> (r: Machine)
        ensures
            r.wf(),
            r@ == (MachineModel {
                scopes: seq![
                    ScopeModel {
                        stack: Seq::empty(),
                        funcs: crate::faestd::std_table(),
                    },
                ],
                frames: Seq::empty(),
            }),
    {
        let mut scopes: Vec<Scope> = Vec::new();
        scopes.push(Scope::new());
        let r = Machine { scopes, frames: Vec::new() };
        proof {
            lemma_std_funcs_ok();
            assert(r@.scopes =~= seq![
                ScopeModel {
                    stack: Seq::empty(),
                    funcs: crate::faestd::std_table(),
                },
            ]);
            assert(r@.frames =~= Seq::<FrameModel>::empty());
        }
        r
    }

    /// Starts running `block` in the current scope, before whatever was
    /// being run.
    pub fn start_block(&mut self, block: Vec<Node>)
        requires
            old(self).wf(),
        ensures
            final(self).wf(),
            final(self)@ == push_frame(old(self)@, nodes_view(block@), FrameKind::Top),
    {
        let f = Frame { body: block, index: 0, kind: FrameKind::Top };
        proof {
            lemma_scoped_push(self@.frames, frame_view(f));
        }
        self.frames.push(f);
        assert(self@.frames =~= old(self)@.frames.push(frame_view(f)));
    }

    /// Whether the current scope has a function named `name`.
    pub fn has_function(&self, name: &str) -> (r: bool)
        requires
            self.wf(),
        ensures
            r == cur(self@).funcs.dom().contains(name@),
    {
        let s = self.scopes.len() - 1;
        self.scopes[s].funcs.contains_key(name)
    }

    /// The values of the current stack, bottom first.
    pub fn stack_values(&self) -> (r: &Vec<Value>)
        requires
            self.wf(),
        ensures
            values_view(r@) == cur(self@).stack,
    {
        let s = self.scopes.len() - 1;
        &self.scopes[s].stack.values
    }

    /// Pushes `v` onto the current stack.
    pub fn push_value(&mut self, v: Value)
        requires
            old(self).wf(),
        ensures
            final(self).wf(),
            final(self)@ == push_value(old(self)@, v@),
    {
        let mut sc = self.take_scope();
        sc.stack.push(v);
        self.put_scope(sc);
        proof {
            lemma_update_last(old(self)@.scopes, scope_view(sc));
        }
    }

    /// Pops the top of the current stack.
    pub fn pop_value(&mut self) -> (r: Option<Value>)
        requires
            old(self).wf(),
        ensures
            final(self).wf(),
            cur(old(self)@).stack.len() > 0 ==> (r matches Some(v) && v@ == cur(old(self)@).stack.last()
                && final(self)@ == set_stack(old(self)@, cur(old(self)@).stack.drop_last())),
            cur(old(self)@).stack.len() == 0 ==> r is None && final(self)@ == old(self)@,
    {
        let mut sc = self.take_scope();
        let r = sc.stack.pop();
        self.put_scope(sc);
        proof {
            lemma_update_last(old(self)@.scopes, scope_view(sc));
            if cur(old(self)@).stack.len() == 0 {
                assert(self@.scopes =~= old(self)@.scopes);
            }
        }
        r
    }

    /// Runs one of the built-ins that only rearrange or compare values.
    fn run_stack_builtin(&mut self, op: Builtin, at: Span)
        requires
            old(self).wf(),
            is_stack_builtin(op),
            params_match(cur(old(self)@).stack, builtin_params(op)),
        ensures
            final(self).wf(),
            final(self)@ == set_stack(old(self)@, apply_stack_builtin(op, cur(old(self)@).stack)),
    {
        let mut sc = self.take_scope();
        let ghost s = sc.stack@;
        match op {
            Builtin::Dup => crate::faestd::dup(&mut sc, at),
            Builtin::Pop => crate::faestd::pop(&mut sc, at),
            Builtin::Swap => crate::faestd::rot2(&mut sc, at),
            Builtin::Rot => crate::faestd::rot3(&mut sc, at),
            Builtin::RotRev => crate::faestd::rot3_rev(&mut sc, at),
            Builtin::Depth => crate::faestd::depth(&mut sc, at),
            _ => crate::faestd::equ(&mut sc, at),
        }
        self.put_scope(sc);
        proof {
            lemma_update_last(old(self)@.scopes, scope_view(sc));
        }
    }

    /// Runs `str` on a stack with a value on top.
    fn run_str(&mut self, at: Span) -> (ev: Event)
        requires
            old(self).wf(),
            cur(old(self)@).stack.len() > 0,
        ensures
            final(self).wf(),
            (final(self)@, ev@) == str_builtin(old(self)@, at),
    {
        let ghost m = self@;
        let mut sc = self.take_scope();
        let v = sc.stack.pop().unwrap();
        match v.as_string() {
            Some(t) => {
                sc.stack.push(Value::String(t));
                self.put_scope(sc);
                proof {
                    lemma_update_last(m.scopes, scope_view(sc));
                }
                Event::Continue
            },
            None => {
                sc.stack.push(v);
                self.put_scope(sc);
                proof {
                    lemma_update_last(m.scopes, scope_view(sc));
                    assert(cur(m).stack.drop_last().push(cur(m).stack.last()) =~= cur(m).stack);
                    assert(self@.scopes =~= m.scopes);
                }
                Event::Builtin { op: Builtin::Str, pos: at }
            },
        }
    }

    /// Runs `int` on a stack with a value on top.
    fn run_int(&mut self, at: Span) -> (ev: Event)
        requires
            old(self).wf(),
            cur(old(self)@).stack.len() > 0,
        ensures
            final(self).wf(),
            (final(self)@, ev@) == int_builtin(old(self)@, at),
    {
        let ghost m = self@;
        let mut sc = self.take_scope();
        let v = sc.stack.pop().unwrap();
        match v {
            Value::Int(n) => {
                sc.stack.push(Value::Int(n));
                self.put_scope(sc);
                proof {
                    lemma_update_last(m.scopes, scope_view(sc));
                    assert(cur(m).stack.drop_last().push(cur(m).stack.last()) =~= cur(m).stack);
                    assert(self@.scopes =~= m.scopes);
                }
                Event::Continue
            },
            Value::Bool(b) => {
                sc.stack.push(Value::Int(if b { 1 } else { 0 }));
                self.put_scope(sc);
                proof {
                    lemma_update_last(m.scopes, scope_view(sc));
                }
                Event::Continue
            },
            Value::Number(x) => {
                sc.stack.push(Value::Number(x));
                self.put_scope(sc);
                proof {
                    lemma_update_last(m.scopes, scope_view(sc));
                    assert(cur(m).stack.drop_last().push(cur(m).stack.last()) =~= cur(m).stack);
                    assert(self@.scopes =~= m.scopes);
                }
                Event::Builtin { op: Builtin::Int, pos: at }
            },
            _ => {
                self.put_scope(sc);
                proof {
                    lemma_update_last(m.scopes, scope_view(sc));
                }
                Event::Error { pos: at, message: String::from_str("Failed to cast to int") }
            },
        }
    }

    /// Runs node `n`; the top frame has already moved past it.
    fn run_node(&mut self, n: Node) -> (ev: Event)
        requires
            old(self).wf(),
        ensures
            final(self).wf(),
            (final(self)@, ev@) == run_node(old(self)@, n@),
    {
        let ghost m = self@;
        let ghost nv = n@;
        let at = n.pos;
        match n.kind {
            NodeKind::Loop { body } => {
                self.put_frame(Frame { body, index: 0, kind: FrameKind::Loop });
                Event::Continue
            },
            NodeKind::If { body } => {
                let mut sc = self.take_scope();
                let v = sc.stack.pop();
                self.put_scope(sc);
                proof {
                    lemma_update_last(m.scopes, scope_view(sc));
                }
                match v {
                    Some(Value::Bool(true)) => {
                        self.put_frame(Frame { body, index: 0, kind: FrameKind::If });
                        Event::Continue
                    },
                    Some(Value::Bool(false)) => Event::Continue,
                    _ => Event::Error {
                        pos: at,
                        message: String::from_str("If expects parameters: (bool)"),
                    },
                }
            },
            NodeKind::Function { name, params, body } => {
                let s = self.scopes.len() - 1;
                if self.scopes[s].funcs.contains_key(name.as_str()) {
                    let mut msg = String::from_str("Cannot redefine existing function '");
                    msg.append(name.as_str());
                    msg.append("'");
                    return Event::Error { pos: at, message: msg };
                }
                let mut sc = self.take_scope();
                let ghost nm = name@;
                let ghost fv = SpecFunction::Runtime(params@, nodes_view(body@));
                sc.funcs.insert(name, Function::Runtime { params, body });
                proof {
                    let fs = sc.funcs@;
                    assert forall|k: Seq<char>| #![trigger fs[k]] fs.dom().contains(k) implies match fs[k] {
                        SpecFunction::Runtime(_, _) => true,
                        SpecFunction::Internal(p, op) => p == builtin_params(op),
                    } by {
                        if k != nm {
                            assert(cur(m).funcs[k] == fs[k]);
                        }
                    }
                }
                self.put_scope(sc);
                proof {
                    lemma_update_last(m.scopes, scope_view(sc));
                }
                assert(self@.scopes == run_node(m, nv).0.scopes);
                Event::Continue
            },
            NodeKind::Break => {
                if self.end_block(ControlState::Break) {
                    Event::Ended { by_break: true }
                } else {
                    Event::Continue
                }
            },
            NodeKind::Instruction(name) => {
                let s = self.scopes.len() - 1;
                let found = self.scopes[s].funcs.get(name.as_str());
                match found {
                    None => Event::Error { pos: at, message: String::from_str("Function not found") },
                    Some(Function::Runtime { params, body }) => {
                        match self.scopes[s].ensure_params(params.as_slice()) {
                            Err(msg) => Event::Error { pos: at, message: msg },
                            Ok(()) => {
                                assert(funcs_ok(cur(m).funcs));
                                let mut sc = self.take_scope();
                                let vals = sc.stack.top_n(params.len()).unwrap();
                                let callee = Scope { stack: Stack { values: vals }, funcs: sc.funcs.copy() };
                                let ghost k = cur(m).stack.len() - params@.len();
                                proof {
                                    assert(cur(m).stack.take(k) =~= cur(m).stack.subrange(0, k));
                                    assert(cur(m).stack.skip(k) =~= cur(m).stack.subrange(
                                        k,
                                        cur(m).stack.len() as int,
                                    ));
                                    if params@.len() == 0 {
                                        assert(values_view(vals@) =~= Seq::<SpecValue>::empty());
                                        assert(cur(m).stack.take(k) =~= cur(m).stack);
                                        assert(cur(m).stack.skip(k) =~= Seq::<SpecValue>::empty());
                                    }
                                    assert(sc.stack@ == cur(m).stack.take(k));
                                    assert(callee.stack@ == cur(m).stack.skip(k));
                                }
                                self.put_scope(sc);
                                proof {
                                    lemma_update_last(m.scopes, scope_view(sc));
                                }
                                self.put_scope(callee);
                                self.put_frame(Frame { body, index: 0, kind: FrameKind::Call });
                                assert(self@.scopes == run_node(m, nv).0.scopes);
                                Event::Continue
                            },
                        }
                    },
                    Some(Function::Internal { params, body: op }) => {
                        match self.scopes[s].ensure_params(params.as_slice()) {
                            Err(msg) => Event::Error { pos: at, message: msg },
                            Ok(()) => {
                                assert(funcs_ok(cur(m).funcs));
                                match op {
                                    Builtin::Dup | Builtin::Pop | Builtin::Swap | Builtin::Rot
                                    | Builtin::RotRev | Builtin::Depth | Builtin::Equal => {
                                        self.run_stack_builtin(op, at);
                                        Event::Continue
                                    },
                                    Builtin::Int => self.run_int(at),
                                    Builtin::Str => self.run_str(at),
                                    _ => Event::Builtin { op, pos: at },
                                }
                            },
                        }
                    },
                }
            },
            NodeKind::String(t) => {
                self.push_value(Value::String(t));
                Event::Continue
            },
            NodeKind::Number(t) => Event::Number { text: t, pos: at },
            NodeKind::Int(v) => {
                self.push_value(Value::Int(v));
                Event::Continue
            },
            NodeKind::Bool(b) => {
                self.push_value(Value::Bool(b));
                Event::Continue
            },
            NodeKind::Stack(st) => {
                self.push_value(Value::Stack(st));
                Event::Continue
            },
            NodeKind::With { body } => {
                let s = self.scopes.len() - 1;
                let want = vec![ValueType::Stack];
                assert(want@ =~= seq![ValueType::Stack]);
                match self.scopes[s].ensure_params(want.as_slice()) {
                    Err(msg) => Event::Error { pos: at, message: msg },
                    Ok(()) => {
                        let mut sc = self.take_scope();
                        let v = sc.stack.pop();
                        let inner = match v {
                            Some(Value::Stack(stk)) => stk,
                            _ => {
                                proof {
                                    assert(crate::runtime::satisfies(
                                        crate::runtime::type_of(
                                            cur(m).stack[cur(m).stack.len() - 1 + 0],
                                        ),
                                        ValueType::Stack,
                                    ));
                                }
                                Stack::new()
                            },
                        };
                        let callee = Scope { stack: inner, funcs: sc.funcs.copy() };
                        self.put_scope(sc);
                        proof {
                            lemma_update_last(m.scopes, scope_view(sc));
                        }
                        self.put_scope(callee);
                        self.put_frame(Frame { body, index: 0, kind: FrameKind::With });
                        assert(self@.scopes == run_node(m, nv).0.scopes);
                        Event::Continue
                    },
                }
            },
            NodeKind::Error(_) => Event::ErrorNode { pos: at },
        }
    }

    /// Runs one step: ends the top block when it has no node left, or runs
    /// its next node.
    pub fn step(&mut self) -> (ev: Event)
        requires
            old(self).wf(),
        ensures
            final(self).wf(),
            (final(self)@, ev@) == step_spec(old(self)@),
    {
        let ghost m = self@;
        if self.frames.len() == 0 {
            return Event::Done;
        }
        let k = self.frames.len() - 1;
        proof {
            crate::ast::lemma_nodes_view(self.frames@[k as int].body@);
        }
        if self.frames[k].index >= self.frames[k].body.len() {
            if self.end_block(ControlState::Normal) {
                return Event::Ended { by_break: false };
            }
            return Event::Continue;
        }
        let mut f = self.take_frame();
        let node = f.body[f.index].copy();
        proof {
            crate::ast::lemma_nodes_view(f.body@);
        }
        f.index = f.index + 1;
        self.put_frame(f);
        proof {
            lemma_update_last(m.frames, frame_view(f));
        }
        self.run_node(node)
    }

    /// Takes off the top frame.
    fn take_frame(&mut self) -> (f: Frame)
        requires
            old(self)@.frames.len() > 0,
        ensures
            final(self)@.scopes == old(self)@.scopes,
            final(self)@.frames == old(self)@.frames.drop_last(),
            frame_view(f) == old(self)@.frames.last(),
            f == old(self).frames@.last(),
            final(self).scopes@ == old(self).scopes@,
            scoped_count(old(self)@.frames) == scoped_count(final(self)@.frames) + if has_scope(
                f.kind,
            ) {
                1nat
            } else {
                0nat
            },
            frames_ok(old(self)@.frames) ==> frames_ok(final(self)@.frames) && f.index <= f.body@.len(),
    {
        let ghost m = self@.frames;
        proof {
            lemma_scoped_push(m.drop_last(), m.last());
            assert(m.drop_last().push(m.last()) =~= m);
        }
        let f = self.frames.pop().unwrap();
        assert(self@.frames =~= old(self)@.frames.drop_last());
        proof {
            crate::ast::lemma_nodes_view(f.body@);
            if frames_ok(m) {
                assert(m[m.len() - 1] == frame_view(f));
            }
        }
        f
    }

    /// Ends the top block, normally or by a `break`.
    fn end_block(&mut self, state: ControlState) -> (ended: bool)
        requires
            old(self).wf(),
        ensures
            final(self).wf(),
            final(self)@ == end_block(old(self)@, state is Break),
            ended == ends_top(old(self)@, state is Break),
    {
        let mut brk = match state {
            ControlState::Normal => false,
            ControlState::Break => true,
        };
        loop
            invariant
                self.wf(),
                end_block(old(self)@, state is Break) == end_block(self@, brk),
                ends_top(old(self)@, state is Break) == ends_top(self@, brk),
            decreases self@.frames.len(),
        {
            if self.frames.len() == 0 {
                return false;
            }
            let ghost m = self@;
            let mut f = self.take_frame();
            match f.kind {
                FrameKind::Loop => {
                    if brk {
                        return false;
                    }
                    f.index = 0;
                    self.put_frame(f);
                    return false;
                },
                FrameKind::If => {
                    if !brk {
                        return false;
                    }
                },
                FrameKind::Top => {
                    return true;
                },
                FrameKind::Call => {
                    let mut callee = self.take_scope();
                    let mut caller = self.take_scope();
                    let ghost cs = callee.stack.values@;
                    let ghost rs = caller.stack.values@;
                    caller.stack.values.append(&mut callee.stack.values);
                    proof {
                        crate::runtime::lemma_values_view_concat(rs, cs);
                    }
                    self.put_scope(caller);
                    proof {
                        lemma_update_last(m.scopes.drop_last(), scope_view(caller));
                    }
                    return false;
                },
                FrameKind::With => {
                    let inner = self.take_scope();
                    let mut outer = self.take_scope();
                    outer.stack.push(Value::Stack(inner.stack));
                    self.put_scope(outer);
                    proof {
                        lemma_update_last(m.scopes.drop_last(), scope_view(outer));
                    }
                    return false;
                },
            }
        }
    }

    /// Takes off the current scope.
    fn take_scope(&mut self) -> (sc: Scope)
        requires
            old(self).scopes@.len() > 0,
        ensures
            final(self)@.frames == old(self)@.frames,
            final(self)@.scopes == old(self)@.scopes.drop_last(),
            scope_view(sc) == old(self)@.scopes.last(),
            scopes_ok(old(self)@.scopes) ==> scopes_ok(final(self)@.scopes) && funcs_ok(sc.funcs@),
    {
        let sc = self.scopes.pop().unwrap();
        assert(self@.scopes =~= old(self)@.scopes.drop_last());
        assert(self@.frames =~= old(self)@.frames);
        proof {
            if scopes_ok(old(self)@.scopes) {
                assert(funcs_ok(old(self)@.scopes[old(self)@.scopes.len() - 1].funcs));
            }
        }
        sc
    }

    /// Puts a scope on top.
    fn put_scope(&mut self, sc: Scope)
        ensures
            final(self)@.frames == old(self)@.frames,
            final(self)@.scopes == old(self)@.scopes.push(scope_view(sc)),
            scopes_ok(old(self)@.scopes) && funcs_ok(sc.funcs@) ==> scopes_ok(final(self)@.scopes),
    {
        let ghost sv = scope_view(sc);
        self.scopes.push(sc);
        assert(self@.scopes =~= old(self)@.scopes.push(sv));
        assert(self@.frames =~= old(self)@.frames);
    }

    /// Puts a frame on top.
    fn put_frame(&mut self, f: Frame)
        ensures
            final(self)@.scopes == old(self)@.scopes,
            final(self)@.frames == old(self)@.frames.push(frame_view(f)),
            scoped_count(final(self)@.frames) == scoped_count(old(self)@.frames) + if has_scope(
                f.kind,
            ) {
                1nat
            } else {
                0nat
            },
            frames_ok(old(self)@.frames) && f.index <= f.body@.len() ==> frames_ok(
                final(self)@.frames,
            ),
    {
        let ghost fv = frame_view(f);
        proof {
            lemma_scoped_push(self@.frames, fv);
            crate::ast::lemma_nodes_view(f.body@);
        }
        self.frames.push(f);
        assert(self@.frames =~= old(self)@.frames.push(fv));
        assert(self@.scopes =~= old(self)@.scopes);
    }
}

} // verus!
