use fae::ast::{Node, NodeKind, Parser};
use fae::lexer::{Lexer, Span};
use fae::machine::{Event, Machine};
use fae::runtime::{Builtin, Stack, Value};

fn parse(src: &str) -> Vec<Node> {
    let mut l = Lexer::new(src.to_string());
    assert!(l.try_all_checked());
    let mut p = Parser::new(l.tokens);
    assert!(p.try_all_checked());
    p.nodes
}

/// Runs until the machine stops or asks for something other than a decimal
/// literal, which is converted here. Returns the last event.
fn run(m: &mut Machine) -> Event {
    for _ in 0..10_000 {
        match m.step() {
            Event::Continue | Event::Ended { .. } => {}
            Event::Number { text, .. } => {
                let x: f32 = text.parse().unwrap();
                m.push_value(Value::Number(x.to_bits()));
            }
            other => return other,
        }
    }
    panic!("program did not stop");
}

fn run_src(src: &str) -> (Machine, Event) {
    let mut m = Machine::new();
    m.start_block(parse(src));
    let ev = run(&mut m);
    (m, ev)
}

fn ints(m: &Machine) -> Vec<i32> {
    m.stack_values()
        .iter()
        .map(|v| match v {
            Value::Int(n) => *n,
            other => panic!("not an int: {:?}", other),
        })
        .collect()
}

fn assert_done(ev: &Event) {
    assert!(matches!(ev, Event::Done), "{:?}", ev);
}

fn assert_error(ev: &Event, span: (usize, usize), msg: &str) {
    match ev {
        Event::Error { pos, message } => {
            assert_eq!((pos.start, pos.end), span);
            assert_eq!(message, msg);
        }
        other => panic!("expected an error, got {:?}", other),
    }
}

#[test]
fn literals_are_pushed() {
    let (m, ev) = run_src("1 2 3");
    assert_done(&ev);
    assert_eq!(ints(&m), vec![1, 2, 3]);
}

#[test]
fn stack_builtins_run_in_the_machine() {
    let cases: [(&str, Vec<i32>); 6] = [
        ("1 2 swap", vec![2, 1]),
        ("1 2 3 rot", vec![2, 3, 1]),
        ("1 2 3 rot-", vec![3, 1, 2]),
        ("1 dup", vec![1, 1]),
        ("1 2 pop", vec![1]),
        ("5 6 depth", vec![5, 6, 2]),
    ];
    for (src, want) in cases {
        let (m, ev) = run_src(src);
        assert_done(&ev);
        assert_eq!(ints(&m), want, "{}", src);
    }
}

#[test]
fn equality_in_the_machine() {
    let (m, ev) = run_src("1 1 = \"a\" 1 = 0.0 -0.0 = 1.5 2.5 =");
    assert_done(&ev);
    let got: Vec<bool> = m
        .stack_values()
        .iter()
        .map(|v| match v {
            Value::Bool(b) => *b,
            other => panic!("{:?}", other),
        })
        .collect();
    assert_eq!(got, vec![true, false, true, false]);
}

#[test]
fn loop_until_break() {
    let (m, ev) = run_src("loop { 1 break 2 }");
    assert_done(&ev);
    assert_eq!(ints(&m), vec![1]);
}

#[test]
fn break_inside_if_leaves_the_loop() {
    let (m, ev) = run_src("loop { 9 true if { break } 8 } 7");
    assert_done(&ev);
    assert_eq!(ints(&m), vec![9, 7]);
}

#[test]
fn loop_runs_until_a_true() {
    let (m, ev) = run_src("true false false loop { if { 1 break } }");
    assert_done(&ev);
    assert_eq!(ints(&m), vec![1]);
}

#[test]
fn if_takes_a_bool() {
    let (m, ev) = run_src("true if { 5 } false if { 6 }");
    assert_done(&ev);
    assert_eq!(ints(&m), vec![5]);
}

#[test]
fn if_without_a_bool_fails() {
    let (m, ev) = run_src("4 3 if { 5 }");
    assert_error(&ev, (4, 12), "If expects parameters: (bool)");
    assert_eq!(ints(&m), vec![4]);
    let (_, ev) = run_src("if { }");
    assert_error(&ev, (0, 6), "If expects parameters: (bool)");
}

#[test]
fn functions_are_defined_and_called() {
    let (m, ev) = run_src("f() { 1 2 } f f");
    assert_done(&ev);
    assert_eq!(ints(&m), vec![1, 2, 1, 2]);
    assert!(m.has_function("f"));
    assert!(m.has_function("dup"));
    assert!(!m.has_function("g"));
}

#[test]
fn a_call_runs_on_its_own_stack() {
    let (m, ev) = run_src("7 8 f() { depth } f");
    assert_done(&ev);
    assert_eq!(ints(&m), vec![7, 8, 0]);
}

#[test]
fn break_ends_a_call() {
    let (m, ev) = run_src("f() { 1 break 2 } f 3");
    assert_done(&ev);
    assert_eq!(ints(&m), vec![1, 3]);
}

#[test]
fn definitions_inside_a_call_stay_inside() {
    let (_, ev) = run_src("f() { g() { } } f g");
    assert_error(&ev, (18, 19), "Function not found");
}

#[test]
fn redefinition_fails() {
    let (_, ev) = run_src("f() { } f() { }");
    assert_error(&ev, (8, 15), "Cannot redefine existing function 'f'");
    let (_, ev) = run_src("dup() { }");
    assert_error(&ev, (0, 9), "Cannot redefine existing function 'dup'");
}

#[test]
fn unknown_function_fails() {
    let (_, ev) = run_src("1 nope");
    assert_error(&ev, (2, 6), "Function not found");
}

#[test]
fn missing_parameters_fail() {
    let (_, ev) = run_src("dup");
    assert_error(&ev, (0, 3), "Expected parameters (Any), found ()");
    let (m, ev) = run_src("\"a\" 1 +");
    assert_error(&ev, (6, 7), "Expected parameters (Integral,Integral), found (String,Int)");
    assert_eq!(m.stack_values().len(), 2);
}

#[test]
fn output_and_arithmetic_are_handed_out() {
    let (m, ev) = run_src("\"hi\" println");
    match ev {
        Event::Builtin { op, pos } => {
            assert_eq!(op, Builtin::Println);
            assert_eq!((pos.start, pos.end), (5, 12));
        }
        other => panic!("{:?}", other),
    }
    assert_eq!(m.stack_values().len(), 1);

    let (_, ev) = run_src("1 2.5 +");
    assert!(matches!(ev, Event::Builtin { op: Builtin::Add, .. }), "{:?}", ev);
}

#[test]
fn decimal_literals_are_handed_out() {
    let mut m = Machine::new();
    m.start_block(parse("2.5"));
    match m.step() {
        Event::Number { text, pos } => {
            assert_eq!(text, "2.5");
            assert_eq!((pos.start, pos.end), (0, 3));
        }
        other => panic!("{:?}", other),
    }
}

#[test]
fn error_node_is_reported() {
    let (_, ev) = run_src("true if { loop }");
    match ev {
        Event::ErrorNode { pos } => assert_eq!((pos.start, pos.end), (10, 14)),
        other => panic!("{:?}", other),
    }
}

#[test]
fn with_runs_on_the_popped_stack() {
    let at = Span { start: 0, end: 1 };
    let block = vec![
        Node { kind: NodeKind::Stack(Stack { values: vec![Value::Int(1)] }), pos: at },
        Node { kind: NodeKind::With { body: vec![Node { kind: NodeKind::Int(2), pos: at }] }, pos: at },
    ];
    let mut m = Machine::new();
    m.start_block(block);
    assert_done(&run(&mut m));
    assert_eq!(m.stack_values().len(), 1);
    match &m.stack_values()[0] {
        Value::Stack(st) => {
            let got: Vec<i32> = st
                .values
                .iter()
                .map(|v| match v {
                    Value::Int(n) => *n,
                    other => panic!("{:?}", other),
                })
                .collect();
            assert_eq!(got, vec![1, 2]);
        }
        other => panic!("{:?}", other),
    }
}

#[test]
fn with_needs_a_stack() {
    let at = Span { start: 3, end: 7 };
    let block = vec![Node { kind: NodeKind::With { body: Vec::new() }, pos: at }];
    let mut m = Machine::new();
    m.start_block(block);
    assert_error(&run(&mut m), (3, 7), "Expected parameters (Stack), found ()");
}

#[test]
fn values_pushed_and_popped_from_outside() {
    let mut m = Machine::new();
    assert!(m.pop_value().is_none());
    m.push_value(Value::Int(4));
    m.push_value(Value::Int(5));
    assert!(matches!(m.pop_value(), Some(Value::Int(5))));
    assert_eq!(ints(&m), vec![4]);
    assert!(matches!(m.step(), Event::Done));
}

#[test]
fn main_called_after_the_top_level() {
    let mut m = Machine::new();
    m.start_block(parse("main() { depth }"));
    assert_done(&run(&mut m));
    assert!(m.has_function("main"));
    m.push_value(Value::Stack(Stack { values: vec![Value::String("prog".to_string())] }));
    m.start_block(vec![Node {
        kind: NodeKind::Instruction("main".to_string()),
        pos: Span { start: 0, end: 0 },
    }]);
    assert_done(&run(&mut m));
    assert_eq!(m.stack_values().len(), 2);
    assert!(matches!(m.stack_values()[1], Value::Int(0)));
}

#[test]
fn int_conversion() {
    let (m, ev) = run_src("5 int true int false int");
    assert_done(&ev);
    assert_eq!(ints(&m), vec![5, 1, 0]);
    let (m, ev) = run_src("1 \"a\" int");
    assert_error(&ev, (6, 9), "Failed to cast to int");
    assert_eq!(ints(&m), vec![1]);
    let (_, ev) = run_src("2.5 int");
    assert!(matches!(ev, Event::Builtin { op: Builtin::Int, .. }), "{:?}", ev);
}

#[test]
fn str_conversion() {
    let (m, ev) = run_src("5 str -3 str true str \"s\" str");
    assert_done(&ev);
    let got: Vec<String> = m
        .stack_values()
        .iter()
        .map(|v| match v {
            Value::String(s) => s.clone(),
            other => panic!("{:?}", other),
        })
        .collect();
    assert_eq!(got, vec!["5", "-3", "true", "s"]);
    let (m, ev) = run_src("2.5 str");
    assert!(matches!(ev, Event::Builtin { op: Builtin::Str, .. }), "{:?}", ev);
    assert_eq!(m.stack_values().len(), 1);
}

#[test]
fn a_whole_call_returns_onto_the_caller() {
    let mut m = Machine::new();
    m.start_block(parse("5 f() { 1 2 + depth g() { } } f 6"));
    loop {
        match m.step() {
            Event::Continue | Event::Ended { .. } => {}
            Event::Done => break,
            Event::Builtin { op: Builtin::Add, .. } => {
                let b = m.pop_value();
                let a = m.pop_value();
                match (a, b) {
                    (Some(Value::Int(x)), Some(Value::Int(y))) => {
                        m.push_value(Value::Number(((x + y) as f32).to_bits()))
                    }
                    other => panic!("{:?}", other),
                }
            }
            other => panic!("{:?}", other),
        }
    }
    let vals = m.stack_values();
    assert_eq!(vals.len(), 4);
    assert!(matches!(vals[0], Value::Int(5)));
    assert!(matches!(vals[1], Value::Number(b) if f32::from_bits(b) == 3.0));
    assert!(matches!(vals[2], Value::Int(1)));
    assert!(matches!(vals[3], Value::Int(6)));
    assert!(m.has_function("f"));
    assert!(!m.has_function("g"));
}

fn events(src: &str) -> Vec<String> {
    let mut m = Machine::new();
    m.start_block(parse(src));
    let mut out = Vec::new();
    loop {
        let ev = m.step();
        let done = matches!(ev, Event::Done);
        out.push(format!("{:?}", ev));
        if done {
            return out;
        }
    }
}

#[test]
fn end_of_a_started_block_is_reported() {
    assert_eq!(events("1"), vec!["Continue", "Ended { by_break: false }", "Done"]);
    assert_eq!(events("1 break 2"), vec!["Continue", "Ended { by_break: true }", "Done"]);
    assert_eq!(
        events("true if { break }"),
        vec!["Continue", "Continue", "Ended { by_break: true }", "Done"]
    );
    assert_eq!(
        events("loop { break }"),
        vec!["Continue", "Continue", "Ended { by_break: false }", "Done"]
    );
}
