use turing::bytecode::{decode, Instr};
use turing::compile::{compile, Compiled};
use turing::error::ErrorKind;
use turing::lex::Span;
use turing::parse::{Arm, Name, Op, OpKind, Pattern, State, Symbol, ToState};
use turing::vm::{simulate, try_simulate};

fn span() -> Span {
    Span { line: 0, column: 0, len: 0 }
}

fn name(text: &str) -> Name {
    Name { name: text.to_string(), span: span() }
}

fn symbol(text: &str) -> Symbol {
    Symbol { symbol: text.to_string(), span: span() }
}

fn catch_all() -> Pattern {
    Pattern::Name(name("_"))
}

fn halt() -> ToState {
    ToState::Halt { span: span() }
}

fn call(text: &str, state_args: Vec<ToState>, symbol_args: Vec<Pattern>) -> ToState {
    ToState::State { name: name(text), state_args, symbol_args }
}

fn write(text: &str) -> Op {
    Op { kind: OpKind::Symbol(text.to_string()), span: span() }
}

fn write_name(text: &str) -> Op {
    Op { kind: OpKind::Name(text.to_string()), span: span() }
}

fn right() -> Op {
    Op { kind: OpKind::Right, span: span() }
}

fn left() -> Op {
    Op { kind: OpKind::Left, span: span() }
}

fn state(text: &str, states: &[&str], symbols: &[&str], arms: Vec<Arm>) -> State {
    State {
        name: name(text),
        state_params: states.iter().map(|s| name(s)).collect(),
        symbol_params: symbols.iter().map(|s| name(s)).collect(),
        arms,
    }
}

fn arm(pattern: Pattern, ops: Vec<Op>, to_state: ToState) -> Arm {
    Arm { pattern, ops, to_state }
}

fn texts(compiled: &Compiled, tape: &[u16]) -> Vec<String> {
    tape.iter().map(|id| compiled.symbols.get_by_right(id).unwrap().clone()).collect()
}

fn instructions(bytes: &[u8]) -> Vec<Instr> {
    let mut ip = 7;
    let mut all = Vec::new();
    while ip < bytes.len() {
        let instr = decode(bytes, ip).unwrap();
        ip += instr.len();
        all.push(instr);
    }
    all
}

#[test]
fn minimal_halt() {
    let unit = vec![state("start", &[], &[], vec![arm(catch_all(), vec![], halt())])];
    let compiled = compile(unit, vec![]).unwrap();
    assert_eq!(compiled.bytes, vec![1, 0, 7, 0, 0, 0, 3, 2, 18, 6, 0, 0, 0]);
    let run = simulate(&compiled.bytes, compiled.tape.clone(), usize::MAX);
    assert_eq!(run.moves, 1);
    assert_eq!(run.head_position, 0);
    assert_eq!(run.final_address, 6);
    assert!(run.tape.is_empty());
}

#[test]
fn single_write() {
    let unit = vec![state("start", &[], &[], vec![arm(catch_all(), vec![write("a")], halt())])];
    let compiled = compile(unit, vec![]).unwrap();
    let run = simulate(&compiled.bytes, compiled.tape.clone(), usize::MAX);
    assert_eq!(run.moves, 1);
    assert_eq!(run.head_position, 0);
    assert_eq!(texts(&compiled, &run.tape), vec!["a"]);
}

#[test]
fn move_and_loop() {
    let unit = vec![state(
        "start",
        &[],
        &[],
        vec![
            arm(Pattern::Symbol(symbol("a")), vec![right()], call("start", vec![], vec![])),
            arm(catch_all(), vec![write("b")], halt()),
        ],
    )];
    let compiled = compile(unit, vec![symbol("a"), symbol("a"), symbol("a")]).unwrap();
    assert_eq!(compiled.tape, vec![1, 1, 1]);
    let run = simulate(&compiled.bytes, compiled.tape.clone(), usize::MAX);
    assert_eq!(run.moves, 4);
    assert_eq!(run.head_position, 3);
    assert_eq!(texts(&compiled, &run.tape), vec!["a", "a", "a", "b"]);
}

#[test]
fn symbol_parameter() {
    let unit = vec![
        state(
            "start",
            &[],
            &[],
            vec![arm(catch_all(), vec![], call("write", vec![], vec![Pattern::Symbol(symbol("x"))]))],
        ),
        state("write", &[], &["s"], vec![arm(catch_all(), vec![write_name("s")], halt())]),
    ];
    let compiled = compile(unit, vec![]).unwrap();
    let run = simulate(&compiled.bytes, compiled.tape.clone(), usize::MAX);
    assert_eq!(run.moves, 2);
    assert_eq!(texts(&compiled, &run.tape), vec!["x"]);
}

#[test]
fn state_parameter_linear_use() {
    let unit = vec![
        state(
            "start",
            &[],
            &[],
            vec![arm(catch_all(), vec![], call("go", vec![call("k", vec![], vec![])], vec![]))],
        ),
        state("go", &["k"], &[], vec![arm(catch_all(), vec![], call("k", vec![], vec![]))]),
        state("k", &[], &[], vec![arm(catch_all(), vec![write("k")], halt())]),
    ];
    let compiled = compile(unit, vec![]).unwrap();
    let code = instructions(&compiled.bytes);
    assert!(code.contains(&Instr::FinalArg(0)));
    assert!(!code.iter().any(|i| matches!(i, Instr::TakeArg(_) | Instr::CloneArg(_))));
    let run = simulate(&compiled.bytes, compiled.tape.clone(), usize::MAX);
    assert_eq!(run.moves, 3);
    assert_eq!(texts(&compiled, &run.tape), vec!["k"]);
}

#[test]
fn clone_scenario() {
    let k = || call("k", vec![], vec![]);
    let unit = vec![
        state("start", &[], &[], vec![arm(catch_all(), vec![], call("pair", vec![k(), k()], vec![]))]),
        state("pair", &["a", "b"], &[], vec![arm(catch_all(), vec![], call("a", vec![], vec![]))]),
        state("k", &[], &[], vec![arm(catch_all(), vec![write("k")], halt())]),
    ];
    let compiled = compile(unit, vec![]).unwrap();
    let code = instructions(&compiled.bytes);
    // `b` has no use in `pair`: it is released before `a` becomes current.
    let free = code.iter().position(|i| *i == Instr::FreeArg(1)).unwrap();
    assert_eq!(code[free + 1], Instr::FinalArg(0));
    let run = simulate(&compiled.bytes, compiled.tape.clone(), usize::MAX);
    assert_eq!(run.moves, 3);
    assert_eq!(texts(&compiled, &run.tape), vec!["k"]);
}

#[test]
fn clone_before_take() {
    let k = || call("k", vec![], vec![]);
    let unit = vec![
        state("start", &[], &[], vec![arm(catch_all(), vec![], call("dup", vec![halt()], vec![]))]),
        state("dup", &["k"], &[], vec![arm(catch_all(), vec![], call("pair", vec![k(), k()], vec![]))]),
        state("pair", &["a", "b"], &[], vec![arm(catch_all(), vec![write("p")], call("b", vec![], vec![]))]),
    ];
    let compiled = compile(unit, vec![]).unwrap();
    let code = instructions(&compiled.bytes);
    let clone = code.iter().position(|i| *i == Instr::CloneArg(0)).unwrap();
    assert_eq!(code[clone + 1], Instr::TakeArg(0));
    assert!(matches!(code[clone + 2], Instr::FinalState(_)));
    let run = simulate(&compiled.bytes, compiled.tape.clone(), usize::MAX);
    assert_eq!(run.moves, 3);
    assert_eq!(run.final_address, 6);
    assert_eq!(texts(&compiled, &run.tape), vec!["p"]);
}

#[test]
fn max_moves_ceiling() {
    let unit = vec![state(
        "start",
        &[],
        &[],
        vec![arm(catch_all(), vec![right()], call("start", vec![], vec![]))],
    )];
    let compiled = compile(unit, vec![]).unwrap();
    let run = simulate(&compiled.bytes, compiled.tape.clone(), 10);
    assert_eq!(run.moves, 10);
    assert_eq!(run.head_position, 10);
    assert_eq!(run.final_address, 7);
}

#[test]
fn left_boundary_counts_the_move() {
    let unit = vec![state(
        "start",
        &[],
        &[],
        vec![arm(catch_all(), vec![write("a"), left(), write("b")], halt())],
    )];
    let compiled = compile(unit, vec![]).unwrap();
    let run = simulate(&compiled.bytes, compiled.tape.clone(), 5);
    assert_eq!(run.moves, 1);
    assert_eq!(run.head_position, 0);
    assert_eq!(run.final_address, 7);
    assert_eq!(texts(&compiled, &run.tape), vec!["a"]);
}

#[test]
fn invalid_bytecode_is_reported() {
    let error = try_simulate(&[1, 0, 7, 0, 0, 0, 3, 99], vec![], 3).unwrap_err();
    assert_eq!(error.kind, ErrorKind::InvalidBytecode);
    let error = try_simulate(&[1, 0, 7], vec![], 3).unwrap_err();
    assert_eq!(error.kind, ErrorKind::InvalidBytecode);
    let error = try_simulate(&[1, 0, 9, 0, 0, 0, 3], vec![], 3).unwrap_err();
    assert_eq!(error.kind, ErrorKind::InvalidBytecode);
}
