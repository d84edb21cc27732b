use turing::bytecode::{decode, Instr};
use turing::compile::{compile, describe, Compiled, Compiler};
use turing::dump::{dump, read_arm, read_header, try_dump, try_read_arm};
use turing::encoder::Encoder;
use turing::error::ErrorKind;
use turing::lex::{Span, Tokens};
use turing::lower::Signature;
use turing::parse::{parse, State};
use turing::symbols::Symbols;
use turing::vm::{simulate, trim, try_simulate, Flow, Record, Tape, Vm};

fn program(source: &str) -> Vec<State> {
    parse(Tokens::new(source, "test", false).unwrap()).unwrap()
}

fn build(source: &str) -> Compiled {
    compile(program(source), Vec::new()).unwrap()
}

fn body(source: &str) -> Vec<u8> {
    build(source).bytes[7..].to_vec()
}

fn code(bytes: &[u8]) -> Vec<Instr> {
    let mut ip = 7;
    let mut all = Vec::new();
    while ip < bytes.len() {
        let instr = decode(bytes, ip).unwrap();
        ip += instr.len();
        all.push(instr);
    }
    all
}

fn span() -> Span {
    Span { line: 0, column: 0, len: 0 }
}

#[test]
fn header_of_a_program() {
    let compiled = build("a { _ | | ! } start { _ | | a } b { _ | | ! }");
    assert_eq!(&compiled.bytes[..7], &[3, 0, 13, 0, 0, 0, 3]);
    assert_eq!(read_header(&compiled.bytes), Some((3, 13)));
    let listing = dump(&compiled.bytes);
    assert_eq!(listing.count, 3);
    assert_eq!(listing.start, 13);
    assert_eq!(compiled.states.get(&7).map(String::as_str), Some("a"));
    assert_eq!(compiled.states.get(&13).map(String::as_str), Some("start"));
    assert_eq!(compiled.states.get(&19).map(String::as_str), Some("b"));
    assert_eq!(compiled.states.len(), 3);
}

#[test]
fn disassembly() {
    let compiled = build("start { 'a' | > | start, s | < s | f(!; 'b', s) } f(k; t, u) { t | | k, _ | | ! }");
    let listing = dump(&compiled.bytes);
    assert_eq!(listing.states.len(), 2);
    assert_eq!(listing.states[0].address, 7);
    assert_eq!(
        listing.states[0].arms,
        vec![
            vec![Instr::CompareVal(1, 6), Instr::Right, Instr::FinalState(7)],
            vec![
                Instr::Other,
                Instr::Left,
                Instr::WriteBound,
                Instr::MakeState(0, 6),
                Instr::SymbolVal(2),
                Instr::SymbolBound,
                Instr::FinalState(36),
            ],
        ]
    );
    assert_eq!(listing.states[1].address, 36);
    assert_eq!(
        listing.states[1].arms,
        vec![
            vec![Instr::CompareArg(0, 2), Instr::FinalArg(0)],
            vec![Instr::Other, Instr::FreeArg(0), Instr::FinalState(6)],
        ]
    );
}

#[test]
fn disassembly_refuses_what_is_no_program() {
    let good = build("start { _ | | ! }").bytes;
    assert!(try_dump(&good).is_ok());
    let mut longer = good.clone();
    longer.push(2);
    assert_eq!(try_dump(&longer).err().unwrap().kind, ErrorKind::InvalidBytecode);
    let mut counted = good.clone();
    counted[0] = 2;
    assert_eq!(try_dump(&counted).err().unwrap().kind, ErrorKind::InvalidBytecode);
    let mut no_halt = good.clone();
    no_halt[6] = 0;
    assert_eq!(try_dump(&no_halt).err().unwrap().kind, ErrorKind::InvalidBytecode);
    assert_eq!(try_dump(&good[..9]).err().unwrap().kind, ErrorKind::InvalidBytecode);
    let mut halt_inside = good.clone();
    halt_inside[8] = 3;
    assert_eq!(try_dump(&halt_inside).err().unwrap().kind, ErrorKind::InvalidBytecode);
    assert_eq!(read_header(&good[..6]), None);
}

#[test]
fn a_state_without_arms_cannot_be_disassembled() {
    let compiled = build("start { _ | | ! } empty { } last { _ | | ! }");
    assert_eq!(read_header(&compiled.bytes), Some((3, 7)));
    assert_eq!(compiled.states.get(&13).map(String::as_str), Some("last"));
    assert_eq!(try_dump(&compiled.bytes).err().unwrap().kind, ErrorKind::InvalidBytecode);
}

#[test]
fn moves_are_fused() {
    let moves = |ops: &str| -> Vec<Instr> {
        let compiled = build(&format!("start {{ _ | {ops} | ! }}"));
        let mut instrs = code(&compiled.bytes);
        assert_eq!(instrs.remove(0), Instr::Other);
        assert_eq!(instrs.pop(), Some(Instr::FinalState(6)));
        instrs
    };
    assert_eq!(moves("> <"), vec![]);
    assert_eq!(moves(">"), vec![Instr::Right]);
    assert_eq!(moves("< < >"), vec![Instr::Left]);
    assert_eq!(moves("> > >"), vec![Instr::RightN(3)]);
    assert_eq!(moves(&"<".repeat(254)), vec![Instr::LeftN(254)]);
    assert_eq!(moves(&">".repeat(255)), vec![Instr::RightN(255)]);
    assert_eq!(moves(&"<".repeat(256)), vec![Instr::LeftN(255), Instr::Left]);
    assert_eq!(moves(&">".repeat(512)), vec![Instr::RightN(255), Instr::RightN(255), Instr::RightN(2)]);
    assert_eq!(
        moves("> > 'a' < _ < < > 'a' >"),
        vec![
            Instr::RightN(2),
            Instr::WriteVal(1),
            Instr::Left,
            Instr::WriteBound,
            Instr::Left,
            Instr::WriteVal(1),
            Instr::Right,
        ]
    );
    let compiled = build("start { x | > x | ! }");
    assert_eq!(code(&compiled.bytes), vec![Instr::Other, Instr::Right, Instr::WriteBound, Instr::FinalState(6)]);
}

#[test]
fn bytes_of_a_small_program() {
    assert_eq!(
        body("start { 'a' | > | start, _ | 'b' | ! }"),
        vec![1, 1, 0, 6, 0, 5, 18, 7, 0, 0, 0, 2, 9, 2, 0, 18, 6, 0, 0, 0]
    );
}

#[test]
fn forward_references_are_resolved() {
    let compiled = build(
        "start { 'a' | | later(later(!, !; 'z'), other; 'x'), _ | | other }\n\
         other { _ | | later(!, !; 'y') }\n\
         later(a, b; s) { s | | a, _ | | b }",
    );
    let instrs = code(&compiled.bytes);
    let later = *compiled.states.iter().find(|(_, name)| *name == "later").unwrap().0;
    let other = *compiled.states.iter().find(|(_, name)| *name == "other").unwrap().0;
    let mut made = 0;
    let mut calls = 0;
    for instr in &instrs {
        match instr {
            Instr::MakeState(_, address) => {
                assert!(*address == 6 || *address == other || *address == later);
                made += 1;
            }
            Instr::FinalState(address) => {
                assert!(*address == later || *address == other);
                calls += 1;
            }
            _ => {}
        }
    }
    assert_eq!((made, calls), (6, 3));
    // `later(!)` has one state argument: no such state is declared
    assert!(compile(
        program("start { _ | | later(later(!)) } later(a, b) { _ | | a }"),
        Vec::new()
    )
    .is_err());
}

#[test]
fn skips_land_on_the_next_arm() {
    let compiled = build(
        "start { 'a' | > > 'b' | start, 'b' | | f(start; 'c'), 'c' | < | !, _ | | ! }\n\
         f(k; s) { s | s > | k, 'a' | | f(k; s), x | x | k }",
    );
    let bytes = &compiled.bytes;
    let mut ip = 7;
    let mut compared = 0;
    while ip < bytes.len() {
        let instr = decode(bytes, ip).unwrap();
        let after = ip + instr.len();
        let skip = match instr {
            Instr::CompareArg(_, skip) | Instr::CompareVal(_, skip) => Some(skip),
            _ => None,
        };
        if let Some(skip) = skip {
            let target = after + skip as usize;
            assert!(matches!(
                decode(bytes, target),
                Some(Instr::CompareArg(..) | Instr::CompareVal(..) | Instr::Other)
            ));
            assert!(
                matches!(decode(bytes, target - 5), Some(Instr::FinalState(_)))
                    || matches!(decode(bytes, target - 2), Some(Instr::FinalArg(_)))
            );
            compared += 1;
        }
        ip = after;
    }
    assert_eq!(compared, 5);
}

#[test]
fn every_state_parameter_is_given_up_once() {
    let compiled = build(
        "start { _ | | f(!, !, !) }\n\
         f(a, b, c) { 'x' | | g(a, g(a, a, !), c), 'y' | | b, 'z' | | !, _ | | f(c, c, a) }\n\
         g(a, b, c) { _ | | a }",
    );
    let listing = dump(&compiled.bytes);
    let g = listing.states[2].address;
    for state in &listing.states[1..] {
        for arm in &state.arms {
            for index in 0..3u8 {
                let given_up = arm
                    .iter()
                    .filter(|instr| {
                        **instr == Instr::TakeArg(index)
                            || **instr == Instr::FreeArg(index)
                            || **instr == Instr::FinalArg(index)
                    })
                    .count();
                assert_eq!(given_up, 1, "{arm:?}");
            }
        }
    }
    assert_eq!(
        listing.states[1].arms[0][1..],
        [
            Instr::CloneArg(0),
            Instr::CloneArg(0),
            Instr::TakeArg(0),
            Instr::MakeState(0, 6),
            Instr::MakeState(3, g),
            Instr::TakeArg(2),
            Instr::FreeArg(1),
            Instr::FinalState(g),
        ]
    );
    assert_eq!(
        listing.states[1].arms[1][1..],
        [Instr::FreeArg(0), Instr::FreeArg(2), Instr::FinalArg(1)]
    );
    assert_eq!(
        listing.states[1].arms[2][1..],
        [Instr::FreeArg(0), Instr::FreeArg(1), Instr::FreeArg(2), Instr::FinalState(6)]
    );
}

#[test]
fn symbols_are_numbered_as_they_come() {
    let mut symbols = Symbols::new();
    assert_eq!(symbols.id_of(&String::new()), Some(0));
    assert_eq!(symbols.text_of(0), Some(String::new()));
    assert_eq!(symbols.text_of(1), None);
    assert_eq!(symbols.intern(&"b".to_string(), span()).unwrap(), 1);
    assert_eq!(symbols.intern(&"a".to_string(), span()).unwrap(), 2);
    assert_eq!(symbols.intern(&"b".to_string(), span()).unwrap(), 1);
    assert_eq!(symbols.intern(&String::new(), span()).unwrap(), 0);
    assert_eq!(symbols.id_of(&"a".to_string()), Some(2));
    assert_eq!(symbols.id_of(&"c".to_string()), None);
    assert_eq!(symbols.text_of(2), Some("a".to_string()));
    assert_eq!(symbols.text_of(1), Some("b".to_string()));
    assert_eq!(symbols.0.len(), 3);
}

#[test]
fn interning_round_trip() {
    let mut symbols = Symbols::new();
    for text in ["x", "", "yz", "x", "é", "yz"] {
        let text = text.to_string();
        let id = symbols.intern(&text, span()).unwrap();
        assert_eq!(symbols.id_of(&text), Some(id));
        assert_eq!(symbols.text_of(id), Some(text));
    }
    let compiled = compile(program("start { 'p' | 'q' | !, _ | | ! }"), Vec::new()).unwrap();
    assert_eq!(compiled.symbols.get_by_left("p"), Some(&1));
    assert_eq!(compiled.symbols.get_by_left("q"), Some(&2));
    assert_eq!(compiled.symbols.get_by_left(""), Some(&0));
}

#[test]
fn signatures_in_messages() {
    let sig = |name: &str, states, symbols| Signature { name: name.to_string(), states, symbols };
    assert_eq!(describe(&sig("f", 0, 0)), "f");
    assert_eq!(describe(&sig("f", 1, 0)), "f(_)");
    assert_eq!(describe(&sig("f", 3, 0)), "f(_, _, _)");
    assert_eq!(describe(&sig("f", 0, 2)), "f(; _, _)");
    assert_eq!(describe(&sig("go", 2, 1)), "go(_, _; _)");
}

#[test]
fn encoder_writes_little_endian() {
    let mut out = Encoder::new();
    out.emit_u8(7);
    out.emit_u16_le(0x1234);
    out.emit_u32_le(0x89abcdef);
    assert_eq!(out.position(), 7);
    let slot16 = out.reserve_u16();
    let slot32 = out.reserve_u32();
    assert_eq!((slot16, slot32), (7, 9));
    assert_eq!(out.bytes, vec![7, 0x34, 0x12, 0xef, 0xcd, 0xab, 0x89, 255, 255, 255, 255, 255, 255]);
    out.patch_u16(slot16, 0x0102);
    out.patch_u32(slot32, 0x03040506);
    assert_eq!(&out.bytes[7..], &[2, 1, 6, 5, 4, 3]);
    out.emit(Instr::MakeState(2, 0x01020304));
    out.emit(Instr::CompareVal(0x0a0b, 0x0c0d));
    assert_eq!(&out.bytes[13..], &[17, 2, 4, 3, 2, 1, 1, 0x0b, 0x0a, 0x0d, 0x0c]);
    assert_eq!(decode(&out.bytes, 13), Some(Instr::MakeState(2, 0x01020304)));
    assert_eq!(decode(&out.bytes, 19), Some(Instr::CompareVal(0x0a0b, 0x0c0d)));
    assert_eq!(decode(&out.bytes, 24), None);
    assert_eq!(decode(&out.bytes, 23), None);
}

#[test]
fn every_instruction_decodes_to_itself() {
    let all = [
        Instr::CompareArg(3, 500),
        Instr::CompareVal(600, 7),
        Instr::Other,
        Instr::Halt,
        Instr::Left,
        Instr::Right,
        Instr::LeftN(9),
        Instr::RightN(200),
        Instr::WriteArg(1),
        Instr::WriteVal(65535),
        Instr::WriteBound,
        Instr::SymbolArg(255),
        Instr::SymbolVal(256),
        Instr::SymbolBound,
        Instr::TakeArg(4),
        Instr::CloneArg(5),
        Instr::FreeArg(6),
        Instr::MakeState(7, 0xffff_ffff),
        Instr::FinalState(65536),
        Instr::FinalArg(8),
    ];
    let mut out = Encoder::new();
    for (opcode, instr) in all.iter().enumerate() {
        let at = out.position();
        out.emit(*instr);
        assert_eq!(out.bytes[at] as usize, opcode);
        assert_eq!(out.position() - at, instr.len());
        assert_eq!(decode(&out.bytes, at), Some(*instr));
    }
    out.emit_u8(20);
    assert_eq!(decode(&out.bytes, out.position() - 1), None);
}

#[test]
fn blank_cells() {
    let mut tape = Tape { tape: vec![5, 0, 6], head: 1 };
    assert_eq!(tape.read(), 0);
    tape.write(0);
    assert_eq!(tape.tape, vec![5, 0, 6]);
    tape.right(1);
    assert_eq!(tape.read(), 6);
    tape.write(0);
    assert_eq!(tape.read(), 6);
    tape.right(200);
    assert_eq!(tape.head, 202);
    assert_eq!(tape.read(), 0);
    tape.write(0);
    assert_eq!(tape.tape.len(), 3);
    tape.write(9);
    assert_eq!(tape.tape.len(), 202 + 256);
    assert_eq!(tape.read(), 9);
    assert!(tape.tape[3..202].iter().all(|cell| *cell == 0));
    assert!(tape.tape[203..].iter().all(|cell| *cell == 0));
    tape.right(255);
    assert_eq!(tape.read(), 0);
    tape.write(4);
    assert_eq!(tape.tape.len(), 202 + 256);
    assert!(!tape.left(255));
    assert!(!tape.left(202));
    assert_eq!(tape.head, 0);
    assert!(tape.left(1));
    assert_eq!(tape.head, 0);
    tape.right(3);
    assert!(tape.left(4));
    assert_eq!(tape.head, 0);
    let mut cells = tape.tape;
    trim(&mut cells);
    assert_eq!(cells.len(), 458);
    let mut blank = vec![0, 0];
    trim(&mut blank);
    assert!(blank.is_empty());
}

#[test]
fn moves_never_pass_the_ceiling() {
    let compiled = build("start { 'x' | | !, _ | > | start }");
    for max_moves in [0, 1, 2, 7, 100] {
        let run = simulate(&compiled.bytes, vec![0, 0, 0, 0, 1], max_moves);
        assert_eq!(run.moves, max_moves.min(5));
        assert_eq!(run.head_position, max_moves.min(4));
        assert_eq!(run.final_address, if max_moves >= 5 { 6 } else { 7 });
        assert_eq!(run.tape, vec![0, 0, 0, 0, 1]);
    }
}

#[test]
fn machine_step_by_step() {
    let compiled = build("start { 'a' | < | !, _ | 'a' | f(start) } f(k) { _ | > | k }");
    let mut vm = Vm::new(&compiled.bytes, Vec::new(), 10).unwrap();
    assert_eq!(vm.ip, 7);
    assert_eq!(vm.run_move(), Flow::Moved);
    assert_eq!(vm.tape.read(), 1);
    assert_eq!(vm.state.states.len(), 1);
    assert_eq!(vm.state.states[0].address, 7);
    assert_eq!(vm.run_move(), Flow::Moved);
    assert_eq!(vm.state.address, 7);
    assert_eq!(vm.tape.head, 1);
    assert_eq!(vm.run_move(), Flow::Moved);
    assert_eq!(vm.state.address, vm.state.states.len() as u32 * 0 + vm.ip as u32);
    assert_eq!(vm.run_move(), Flow::Moved);
    assert_eq!(vm.run_move(), Flow::Moved);
    assert_eq!(vm.run_move(), Flow::Moved);
    assert_eq!(vm.tape.tape[..3], [1, 1, 1]);
    vm.tape.head = 0;
    vm.ip = 7;
    assert_eq!(vm.run_move(), Flow::Boundary);
    vm.ip = 6;
    assert_eq!(vm.run_move(), Flow::Halted);
    vm.ip = 5;
    assert_eq!(vm.run_move(), Flow::Fault);
    assert!(Vm::new(&compiled.bytes[..5], Vec::new(), 1).is_none());
}

#[test]
fn a_fault_stops_the_machine_before_the_instruction() {
    // a write, a symbol, and a use of a state argument that is not there
    let bytes = [1, 0, 7, 0, 0, 0, 3, 2, 9, 5, 0, 12, 6, 0, 14, 0];
    let mut vm = Vm::new(&bytes, vec![4], 3).unwrap();
    assert!(!vm.run());
    assert_eq!(vm.ip, 14);
    assert_eq!(vm.moves, 0);
    assert_eq!(vm.bound, 4);
    assert_eq!(vm.tape.tape[0], 5);
    assert_eq!(vm.symbol_stack, vec![6]);
    assert!(vm.state_stack.is_empty());
    let bytes = [1, 0, 7, 0, 0, 0, 3, 1, 4, 0, 200, 0];
    let mut vm = Vm::new(&bytes, vec![5], 3).unwrap();
    assert_eq!(vm.run_move(), Flow::Fault);
    assert_eq!(vm.ip, 7);
    assert_eq!(vm.tape.tape, vec![5]);
}

#[test]
fn records_are_copied_deeply() {
    let inner = Record { address: 9, states: Vec::new(), symbols: vec![3] };
    let outer = Record { address: 8, states: vec![inner], symbols: vec![1, 2] };
    let copy = outer.copy();
    assert_eq!(copy.address, 8);
    assert_eq!(copy.symbols, vec![1, 2]);
    assert_eq!(copy.states.len(), 1);
    assert_eq!(copy.states[0].address, 9);
    assert_eq!(copy.states[0].symbols, vec![3]);
}

#[test]
fn malformed_programs_are_faults() {
    let header = [1u8, 0, 7, 0, 0, 0, 3];
    let fault = |body: &[u8]| {
        let mut bytes = header.to_vec();
        bytes.extend_from_slice(body);
        try_simulate(&bytes, vec![1], 10).err().map(|e| e.kind)
    };
    let faulty = Some(ErrorKind::InvalidBytecode);
    assert_eq!(fault(&[]), faulty);
    assert_eq!(fault(&[2]), faulty);
    assert_eq!(fault(&[4]), faulty);
    assert_eq!(fault(&[2, 3]), faulty);
    assert_eq!(fault(&[2, 8, 0]), faulty);
    assert_eq!(fault(&[2, 11, 0]), faulty);
    assert_eq!(fault(&[2, 14, 0]), faulty);
    assert_eq!(fault(&[2, 15, 0]), faulty);
    assert_eq!(fault(&[2, 19, 0]), faulty);
    assert_eq!(fault(&[2, 17, 1, 6, 0, 0, 0]), faulty);
    assert_eq!(fault(&[0, 0, 0, 0]), faulty);
    assert_eq!(fault(&[1, 2, 0, 9, 0]), faulty);
    assert_eq!(fault(&[2, 18, 6, 0, 0]), faulty);
    assert_eq!(fault(&[2, 16, 9, 18, 6, 0, 0, 0]), None);
    assert_eq!(fault(&[1, 2, 0, 0, 0, 3]), None);
}

#[test]
fn a_blank_write_changes_nothing_wherever_the_head_stands() {
    let mut tape = Tape { tape: vec![1, 2], head: usize::MAX };
    tape.write(0);
    assert_eq!(tape.tape, vec![1, 2]);
    assert_eq!(tape.head, usize::MAX);
    tape.head = 1;
    tape.write(0);
    assert_eq!(tape.tape, vec![1, 2]);
    tape.write(7);
    assert_eq!(tape.tape, vec![1, 7]);
}

#[test]
fn a_pattern_that_fails_writes_nothing() {
    let unit = program("f(; s) { 'a' | | !, s | | !, x | | !, y | | ! }");
    let arms = &unit[0].arms;
    let mut compiler = Compiler::new();
    let before = compiler.out.bytes.clone();
    let symbols = compiler.symbols.0.len();
    let error = compiler.compile_pattern(&arms[0].pattern, &unit[0].symbol_params, true);
    assert_eq!(error.err().unwrap().kind, ErrorKind::LastArmNotCatchall);
    let error = compiler.compile_pattern(&arms[1].pattern, &unit[0].symbol_params, true);
    assert_eq!(error.err().unwrap().kind, ErrorKind::LastArmNotCatchall);
    let error = compiler.compile_pattern(&arms[2].pattern, &unit[0].symbol_params, false);
    let error = error.err().unwrap();
    assert_eq!(error.kind, ErrorKind::CatchallNotLast);
    assert_eq!(error.span, Some(Span { line: 0, column: 29, len: 1 }));
    assert_eq!(compiler.out.bytes, before);
    assert_eq!(compiler.symbols.0.len(), symbols);
    let bound = compiler.compile_pattern(&arms[3].pattern, &unit[0].symbol_params, true);
    assert_eq!(bound.ok().unwrap().map(String::as_str), Some("y"));
    assert_eq!(compiler.out.bytes[7..], [2]);
}

#[test]
fn a_fault_stops_the_compiler_where_it_stands() {
    let unit = program("start { 'a' | > > 'b' < nope 'c' | ! , _ | | ! }");
    let mut compiler = Compiler::new();
    let error = compiler.compile_state(&unit[0]).err().unwrap();
    assert_eq!(error.kind, ErrorKind::UnresolvedName);
    // the state is counted, the comparison and the first write are
    // written, the move before the name is not
    assert_eq!(compiler.out.bytes, vec![1, 0, 255, 255, 255, 255, 3, 1, 1, 0, 255, 255, 7, 2, 9, 2, 0]);
    assert_eq!(compiler.symbols.0.len(), 3);
    assert_eq!(compiler.addresses.len(), 1);
    let unit = program("start { _ | | ! } start { _ | | ! }");
    let mut compiler = Compiler::new();
    assert!(compiler.compile_state(&unit[0]).is_ok());
    let before = compiler.out.bytes.clone();
    let error = compiler.compile_state(&unit[1]).err().unwrap();
    assert_eq!(error.kind, ErrorKind::DuplicateState);
    assert_eq!(compiler.out.bytes[..2], [2, 0]);
    assert_eq!(compiler.out.bytes[2..], before[2..]);
    assert_eq!(compiler.state_names.len(), 1);
}

#[test]
fn new_compiler_holds_the_header() {
    let compiler = Compiler::new();
    assert_eq!(compiler.out.bytes, vec![0, 0, 255, 255, 255, 255, 3]);
}

#[test]
fn a_pattern_is_written_without_its_skip() {
    let unit = program("f(; s, t) { 'a' | | !, t | | !, y | | ! }");
    let arms = &unit[0].arms;
    let params = &unit[0].symbol_params;
    let mut compiler = Compiler::new();
    let bound = compiler.compile_pattern(&arms[0].pattern, params, false);
    assert_eq!(bound.ok().unwrap(), None);
    assert_eq!(compiler.out.bytes[7..], [1, 1, 0]);
    let bound = compiler.compile_pattern(&arms[1].pattern, params, false);
    assert_eq!(bound.ok().unwrap(), None);
    assert_eq!(compiler.out.bytes[10..], [0, 1]);
    let bound = compiler.compile_pattern(&arms[2].pattern, params, true);
    assert_eq!(bound.ok().unwrap().map(String::as_str), Some("y"));
    assert_eq!(compiler.out.bytes[12..], [2]);
}

#[test]
fn an_arm_reserves_its_skip_and_resolves_it() {
    let unit = program("f(; s) { 'a' | > | !, s | | !, y | | ! }");
    let state = &unit[0];
    let mut compiler = Compiler::new();
    assert!(compiler.compile_arm(&state.arms[0], &state.state_params, &state.symbol_params, false).is_ok());
    assert_eq!(compiler.out.bytes[7..], [1, 1, 0, 6, 0, 5, 18, 6, 0, 0, 0]);
    assert!(compiler.compile_arm(&state.arms[1], &state.state_params, &state.symbol_params, false).is_ok());
    assert_eq!(compiler.out.bytes[18..], [0, 0, 5, 0, 18, 6, 0, 0, 0]);
    assert!(compiler.compile_arm(&state.arms[2], &state.state_params, &state.symbol_params, true).is_ok());
    assert_eq!(compiler.out.bytes[27..], [2, 18, 6, 0, 0, 0]);
}

#[test]
fn an_arm_is_read_through_its_terminal_instruction() {
    let bytes = [1, 0, 255, 255, 255, 255, 3, 1, 1, 0, 6, 0, 5, 18, 6, 0, 0, 0, 2, 19, 0];
    let (arm, next) = read_arm(&bytes, 7);
    assert_eq!(arm, vec![Instr::CompareVal(1, 6), Instr::Right, Instr::FinalState(6)]);
    assert_eq!(next, 18);
    let (arm, next) = read_arm(&bytes, 18);
    assert_eq!(arm, vec![Instr::Other, Instr::FinalArg(0)]);
    assert_eq!(next, 21);
    // no pattern, an opcode that is none, bytes that end too early
    assert!(try_read_arm(&bytes, 12).is_none());
    assert!(try_read_arm(&[2, 77], 0).is_none());
    assert!(try_read_arm(&bytes[..16], 7).is_none());
    assert!(try_read_arm(&bytes, 21).is_none());
}

#[test]
fn a_declaration_fills_the_slots_that_wait_for_it() {
    let unit = program("start { 'a' | | f(g), _ | | g } f(k) { _ | | k } g { _ | | f(!) }");
    let mut compiler = Compiler::new();
    assert!(compiler.compile_state(&unit[0]).is_ok());
    // three calls wait: of `g` (nested), of `f`, of `g` (outer)
    let waiting: Vec<usize> = compiler.forward_refs.iter().map(|slot| slot.location).collect();
    assert_eq!(waiting, vec![14, 19, 25]);
    for at in &waiting {
        assert_eq!(compiler.out.bytes[*at..*at + 4], [255, 255, 255, 255]);
    }
    let address = compiler.out.bytes.len() as u32;
    assert_eq!(address, 29);
    assert!(compiler.compile_state(&unit[1]).is_ok());
    assert_eq!(compiler.out.bytes[19..23], [29, 0, 0, 0]);
    assert_eq!(compiler.out.bytes[14..18], [255, 255, 255, 255]);
    assert_eq!(compiler.out.bytes[25..29], [255, 255, 255, 255]);
    assert_eq!(compiler.state_names.get(&29).map(String::as_str), Some("f"));
    let waiting: Vec<usize> = compiler.forward_refs.iter().map(|slot| slot.location).collect();
    assert_eq!(waiting, vec![14, 25]);
    let address = compiler.out.bytes.len() as u32;
    assert!(compiler.compile_state(&unit[2]).is_ok());
    assert_eq!(compiler.out.bytes[14..18], address.to_le_bytes());
    assert_eq!(compiler.out.bytes[25..29], address.to_le_bytes());
    assert!(compiler.forward_refs.is_empty());
    // the call of `f` in `g` comes after the declaration of `f`
    let end = compiler.out.bytes.len();
    assert_eq!(compiler.out.bytes[end - 5..], [18, 29, 0, 0, 0]);
}

#[test]
fn every_call_holds_the_address_of_a_state() {
    let compiled = build(
        "a(k) { 'x' | > | b(a(k)), _ | | k } start { 'y' | | a(!), 'z' | < | b(start), _ | | ! } b(k) { _ | | a(k) }",
    );
    let mut addresses: Vec<u32> = compiled.states.keys().copied().collect();
    addresses.push(6);
    let mut calls = 0;
    for instr in code(&compiled.bytes) {
        match instr {
            Instr::MakeState(_, address) | Instr::FinalState(address) => {
                assert!(addresses.contains(&address));
                calls += 1;
            }
            _ => {}
        }
    }
    assert_eq!(calls, 8);
    let entry = read_header(&compiled.bytes).unwrap().1;
    assert!(entry >= 7);
    assert_eq!(compiled.states.get(&entry).map(String::as_str), Some("start"));
}

#[test]
fn every_comparison_skips_to_the_next_arm() {
    let compiled = build(
        "start { _ | | go(; 'e') } go(; s) { 'a' | > 'b' | go(; 'c'), s | | !, 'd' | < < | go(; s), _ | | ! }",
    );
    let listing = dump(&compiled.bytes);
    for state in &listing.states {
        let mut at = state.address as usize;
        let last = state.arms.len() - 1;
        for (i, arm) in state.arms.iter().enumerate() {
            let size: usize = arm.iter().map(Instr::len).sum();
            match arm[0] {
                Instr::CompareArg(_, skip) | Instr::CompareVal(_, skip) => {
                    assert!(i < last);
                    assert_eq!(arm[0].len() + skip as usize, size);
                    assert!(compiled.bytes[at + size] <= 2);
                }
                Instr::Other => assert_eq!(i, last),
                _ => panic!("no pattern"),
            }
            at += size;
        }
    }
}

#[test]
fn a_run_below_its_ceiling_ends_in_the_halt_state_or_at_the_left_end() {
    let sources = [
        "start { _ | | ! }",
        "start { 'a' | > | start, _ | < | start }",
        "start { _ | > | go(!) } go(k) { 'x' | | k, _ | 'x' < | go(go(k)) }",
        "start { _ | > 'a' | start }",
    ];
    for source in sources {
        let compiled = build(source);
        for max_moves in [0, 1, 2, 3, 7, 50] {
            let end = simulate(&compiled.bytes, Vec::new(), max_moves);
            assert!(end.moves <= max_moves);
            if end.moves < max_moves {
                assert!(end.final_address == 6 || end.head_position == 0);
            }
        }
    }
}
