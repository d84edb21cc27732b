use turing::bytecode::{decode, Instr};
use turing::compile::{compile, Compiled, Compiler};
use turing::error::{Error, ErrorKind};
use turing::lex::{Span, Tag, TokenKind, Tokens};
use turing::parse::{parse, parse_tape, OpKind, Pattern, State, Symbol, ToState};
use turing::vm::{simulate, Simulated};

fn program(source: &str) -> Vec<State> {
    parse(Tokens::new(source, "test", false).unwrap()).unwrap()
}

fn tape(source: &str) -> Vec<Symbol> {
    parse_tape(Tokens::new(source, "tape", false).unwrap()).unwrap()
}

fn build(source: &str, cells: &str) -> Compiled {
    let symbols = if cells.is_empty() { Vec::new() } else { tape(cells) };
    compile(program(source), symbols).unwrap()
}

fn run(source: &str, cells: &str, max_moves: usize) -> (Compiled, Simulated) {
    let compiled = build(source, cells);
    let run = simulate(&compiled.bytes, compiled.tape.clone(), max_moves);
    (compiled, run)
}

fn shown(compiled: &Compiled, run: &Simulated) -> Vec<String> {
    run.tape.iter().map(|id| compiled.symbols.get_by_right(id).unwrap().clone()).collect()
}

fn code(bytes: &[u8]) -> Vec<Instr> {
    let mut ip = 7;
    let mut all = Vec::new();
    while ip < bytes.len() {
        let instr = decode(bytes, ip).unwrap();
        ip += instr.len();
        all.push(instr);
    }
    all
}

fn refused(source: &str) -> Error {
    match compile(program(source), Vec::new()) {
        Ok(_) => panic!("compiled"),
        Err(error) => error,
    }
}

fn lex_error(source: &str) -> Error {
    match parse(Tokens::new(source, "test", false).unwrap()) {
        Ok(_) => panic!("parsed"),
        Err(error) => error,
    }
}

#[test]
fn text_minimal_halt() {
    let (_, run) = run("start { _ | | ! }", "", usize::MAX);
    assert_eq!(run.moves, 1);
    assert_eq!(run.head_position, 0);
    assert_eq!(run.final_address, 6);
    assert!(run.tape.is_empty());
}

#[test]
fn text_move_and_loop() {
    let (compiled, run) = run("start { 'a' | > | start, _ | 'b' | ! }", "'a' 'a' 'a'", usize::MAX);
    assert_eq!(run.moves, 4);
    assert_eq!(run.head_position, 3);
    assert_eq!(shown(&compiled, &run), vec!["a", "a", "a", "b"]);
}

#[test]
fn text_symbol_parameter() {
    let (compiled, run) =
        run("start { _ | | write(; 'x') }\nwrite(; s) { _ | s | ! }", "", usize::MAX);
    assert_eq!(run.moves, 2);
    assert_eq!(shown(&compiled, &run), vec!["x"]);
}

#[test]
fn text_state_parameter() {
    let source = "start { _ | | go(k) }\ngo(k) { _ | | k }\nk { _ | 'k' | ! }\n";
    let (compiled, run) = run(source, "", usize::MAX);
    assert_eq!(run.moves, 3);
    assert_eq!(shown(&compiled, &run), vec!["k"]);
    assert!(code(&compiled.bytes).contains(&Instr::FinalArg(0)));
}

#[test]
fn text_clone() {
    let source = "start { _ | | pair(k, k) } pair(a, b) { _ | | a } k { _ | 'k' | ! }";
    let (compiled, run) = run(source, "", usize::MAX);
    assert_eq!(shown(&compiled, &run), vec!["k"]);
}

#[test]
fn text_max_moves() {
    let (_, run) = run("start { _ | > | start }", "", 10);
    assert_eq!(run.moves, 10);
    assert_eq!(run.head_position, 10);
}

#[test]
fn catch_all_binding_is_written_and_passed() {
    let source = "start { x | > x | copy(; x) }\ncopy(; s) { _ | > s | ! }";
    let (compiled, run) = run(source, "'q'", usize::MAX);
    assert_eq!(run.moves, 2);
    assert_eq!(shown(&compiled, &run), vec!["q", "q", "q"]);
    let instrs = code(&compiled.bytes);
    assert!(instrs.contains(&Instr::WriteBound));
    assert!(instrs.contains(&Instr::SymbolBound));
    assert!(instrs.contains(&Instr::WriteArg(0)));
}

#[test]
fn symbol_parameter_pattern_compares_with_the_argument() {
    let source = "start { _ | | find(; 'b') }\nfind(; s) { s | 'y' | !, _ | > | find(; s) }";
    let (compiled, run) = run(source, "'a' 'a' 'b'", usize::MAX);
    assert_eq!(shown(&compiled, &run), vec!["a", "a", "y"]);
    assert_eq!(run.moves, 4);
    assert_eq!(run.head_position, 2);
    assert!(code(&compiled.bytes).iter().any(|i| matches!(i, Instr::CompareArg(0, _))));
}

#[test]
fn tokens_of_a_line() {
    let mut tokens = Tokens::new("go(a, b; s) { 'x y' | < > | ! }", "test", false).unwrap();
    let mut tags = Vec::new();
    loop {
        let token = tokens.next().unwrap();
        let tag = token.kind.tag();
        tags.push(tag);
        if tag == Tag::Eof {
            assert_eq!(token.span, Span { line: 0, column: 31, len: 0 });
            break;
        }
    }
    assert_eq!(
        tags,
        vec![
            Tag::Name,
            Tag::LParen,
            Tag::Name,
            Tag::Comma,
            Tag::Name,
            Tag::Semi,
            Tag::Name,
            Tag::RParen,
            Tag::LBrace,
            Tag::Symbol,
            Tag::Bar,
            Tag::Left,
            Tag::Right,
            Tag::Bar,
            Tag::Bang,
            Tag::RBrace,
            Tag::Eof,
        ]
    );
    assert_eq!(tokens.next().unwrap().kind.tag(), Tag::Eof);
}

#[test]
fn token_spans_count_characters() {
    let mut tokens = Tokens::new("é 'ü\\'\\\\' name_1\n  x", "test", false).unwrap();
    let first = tokens.next().unwrap();
    assert!(matches!(&first.kind, TokenKind::Name(text) if text == "é"));
    assert_eq!(first.span, Span { line: 0, column: 0, len: 1 });
    let second = tokens.next().unwrap();
    assert!(matches!(&second.kind, TokenKind::Symbol(text) if text == "ü'\\"));
    assert_eq!(second.span, Span { line: 0, column: 2, len: 7 });
    let third = tokens.next().unwrap();
    assert!(matches!(&third.kind, TokenKind::Name(text) if text == "name_1"));
    assert_eq!(third.span, Span { line: 0, column: 10, len: 6 });
    let fourth = tokens.next().unwrap();
    assert!(matches!(&fourth.kind, TokenKind::Name(text) if text == "x"));
    assert_eq!(fourth.span, Span { line: 1, column: 2, len: 1 });
}

#[test]
fn lines_end_with_line_feeds() {
    let mut tokens = Tokens::new("a\r\nb\n\nc\n", "test", false).unwrap();
    let lines: Vec<usize> = (0..4).map(|_| tokens.next().unwrap().span.line).collect();
    assert_eq!(lines, vec![0, 1, 3, 3]);
    assert_eq!(tokens.next().unwrap().kind.tag(), Tag::Eof);
}

#[test]
fn token_descriptions() {
    assert_eq!(TokenKind::LParen.desc(), "`(`");
    assert_eq!(TokenKind::Bang.desc(), "`!`");
    assert_eq!(TokenKind::Name("n".to_string()).desc(), "name");
    assert_eq!(TokenKind::Symbol(String::new()).desc(), "symbol");
    assert_eq!(TokenKind::Eof.desc(), "end of file");
}

#[test]
fn empty_source_is_refused() {
    let error = Tokens::new("", "nothing", false).err().unwrap();
    assert_eq!(error.kind, ErrorKind::EmptyFile);
    assert_eq!(error.span, None);
    assert_eq!(error.msg, "file nothing is empty");
    assert!(parse(Tokens::new("\n", "blank", false).unwrap()).unwrap().is_empty());
}

#[test]
fn lexer_faults() {
    let error = lex_error("start {\n\t_ | | ! }");
    assert_eq!(error.kind, ErrorKind::TabNotAllowed);
    assert_eq!(error.span, Some(Span { line: 1, column: 0, len: 1 }));
    let error = lex_error("start { 'a\\n' | | ! }");
    assert_eq!(error.kind, ErrorKind::InvalidEscape);
    assert_eq!(error.span, Some(Span { line: 0, column: 10, len: 2 }));
    let error = lex_error("start { 'a\\");
    assert_eq!(error.kind, ErrorKind::InvalidEscape);
    assert_eq!(error.span, Some(Span { line: 0, column: 10, len: 1 }));
    let error = lex_error("start { 'a\u{7}' | | ! }");
    assert_eq!(error.kind, ErrorKind::WeirdCharacter);
    assert_eq!(error.span, Some(Span { line: 0, column: 10, len: 1 }));
    let error = lex_error("start { 'abc");
    assert_eq!(error.kind, ErrorKind::UnterminatedSymbol);
    assert_eq!(error.span, Some(Span { line: 0, column: 8, len: 4 }));
    let error = lex_error("start { # }");
    assert_eq!(error.kind, ErrorKind::UnexpectedCharacter);
    assert_eq!(error.span, Some(Span { line: 0, column: 8, len: 1 }));
}

#[test]
fn white_space_separates_tokens() {
    for space in ['\u{9}', '\u{b}', '\u{c}', ' ', '\u{85}', '\u{a0}', '\u{1680}', '\u{2000}',
        '\u{200a}', '\u{2028}', '\u{2029}', '\u{202f}', '\u{205f}', '\u{3000}']
    {
        let mut tokens = Tokens::new(&format!("a{space}b"), "test", true).unwrap();
        assert_eq!(tokens.next().unwrap().span, Span { line: 0, column: 0, len: 1 });
        assert_eq!(tokens.next().unwrap().span, Span { line: 0, column: 2, len: 1 });
        assert_eq!(tokens.next().unwrap().kind.tag(), Tag::Eof);
    }
    for other in ['\u{8}', '\u{e}', '\u{1f}', '\u{86}', '\u{180e}', '\u{200b}', '\u{2060}',
        '\u{feff}']
    {
        let mut tokens = Tokens::new(&format!("a{other}b"), "test", true).unwrap();
        assert_eq!(tokens.next().unwrap().span, Span { line: 0, column: 0, len: 1 });
        let error = tokens.next().err().unwrap();
        assert_eq!(error.kind, ErrorKind::UnexpectedCharacter);
        assert_eq!(error.span, Some(Span { line: 0, column: 1, len: 1 }));
    }
}

#[test]
fn tabs_can_be_allowed() {
    let unit = parse(Tokens::new("start {\n\t_ | | ! }", "test", true).unwrap()).unwrap();
    assert_eq!(unit.len(), 1);
}

#[test]
fn a_fault_is_reported_when_the_parser_comes_to_it() {
    let error = lex_error("start } #");
    assert_eq!(error.kind, ErrorKind::UnexpectedToken);
    assert_eq!(error.span, Some(Span { line: 0, column: 6, len: 1 }));
    assert_eq!(error.msg, "expected `{`, found `}`");
}

#[test]
fn parser_faults() {
    for (source, column) in [
        ("start { _ | | }", 14),
        ("start { | | ! }", 8),
        ("start { _ | ! | ! }", 12),
        ("start(a { _ | | ! }", 8),
        ("start { _ | | f(a b) }", 18),
        ("{ }", 0),
        ("start { _ | | ! } }", 18),
    ] {
        let error = lex_error(source);
        assert_eq!(error.kind, ErrorKind::UnexpectedToken, "{source}");
        assert_eq!(error.span.unwrap().column, column, "{source}");
    }
}

#[test]
fn syntax_tree_of_a_state() {
    let unit = program("go(a, b; s, t,) { 'x' | < 'y' s > | a(), _ | | f(b, !; s, 'z'), }");
    assert_eq!(unit.len(), 1);
    let state = &unit[0];
    assert_eq!(state.name.name, "go");
    assert_eq!(state.name.span, Span { line: 0, column: 0, len: 2 });
    let names = |list: &Vec<turing::parse::Name>| -> Vec<String> {
        list.iter().map(|n| n.name.clone()).collect()
    };
    assert_eq!(names(&state.state_params), vec!["a", "b"]);
    assert_eq!(names(&state.symbol_params), vec!["s", "t"]);
    assert_eq!(state.arms.len(), 2);
    let first = &state.arms[0];
    assert!(matches!(&first.pattern, Pattern::Symbol(s) if s.symbol == "x"));
    assert_eq!(first.ops.len(), 4);
    assert!(matches!(first.ops[0].kind, OpKind::Left));
    assert!(matches!(&first.ops[1].kind, OpKind::Symbol(s) if s == "y"));
    assert!(matches!(&first.ops[2].kind, OpKind::Name(s) if s == "s"));
    assert!(matches!(first.ops[3].kind, OpKind::Right));
    assert_eq!(first.ops[3].span, Span { line: 0, column: 32, len: 1 });
    match &first.to_state {
        ToState::State { name, state_args, symbol_args } => {
            assert_eq!(name.name, "a");
            assert!(state_args.is_empty() && symbol_args.is_empty());
        }
        _ => panic!("halt"),
    }
    match &state.arms[1].to_state {
        ToState::State { name, state_args, symbol_args } => {
            assert_eq!(name.name, "f");
            assert_eq!(state_args.len(), 2);
            assert!(matches!(&state_args[0], ToState::State { name, .. } if name.name == "b"));
            assert!(matches!(state_args[1], ToState::Halt { .. }));
            assert_eq!(symbol_args.len(), 2);
            assert!(matches!(&symbol_args[0], Pattern::Name(n) if n.name == "s"));
            assert!(matches!(&symbol_args[1], Pattern::Symbol(s) if s.symbol == "z"));
        }
        _ => panic!("halt"),
    }
}

#[test]
fn tape_of_symbols() {
    let cells = tape("'a' '' 'b c'\n'a'");
    let texts: Vec<&str> = cells.iter().map(|s| s.symbol.as_str()).collect();
    assert_eq!(texts, vec!["a", "", "b c", "a"]);
    assert_eq!(cells[3].span, Span { line: 1, column: 0, len: 3 });
    let error = parse_tape(Tokens::new("'a' b", "tape", false).unwrap()).err().unwrap();
    assert_eq!(error.kind, ErrorKind::UnexpectedToken);
}

#[test]
fn refuseds() {
    for (source, kind) in [
        ("start { _ | | ! } start { _ | | ! }", ErrorKind::DuplicateState),
        ("begin { _ | | ! }", ErrorKind::NoStart),
        ("start(a) { _ | | a }", ErrorKind::NoStart),
        ("start { _ | | missing }", ErrorKind::NoSuchFunction),
        ("start { _ | | f(!) } f(a, b) { _ | | a }", ErrorKind::NoSuchFunction),
        ("start { _ | | ! } f(a, a) { _ | | a }", ErrorKind::DuplicateParameter),
        ("start { _ | | ! } f(; s, s) { _ | | ! }", ErrorKind::DuplicateParameter),
        ("start { 'a' | | ! }", ErrorKind::LastArmNotCatchall),
        ("start { _ | | ! } f(; s) { s | | ! }", ErrorKind::LastArmNotCatchall),
        ("start { x | | !, 'a' | | !, _ | | ! }", ErrorKind::CatchallNotLast),
        ("start { _ | x | ! }", ErrorKind::UnresolvedName),
        ("start { 'a' | y | !, y | | ! }", ErrorKind::UnresolvedName),
        ("start { _ | | f(; x) } f(; s) { _ | | ! }", ErrorKind::UnresolvedName),
        ("start { _ | | ! } f(k) { _ | | k(!) }", ErrorKind::StateParamNotCallable),
        ("start { _ | | ! } f(k) { _ | | g(k(; 'a')) } g(a) { _ | | a }", ErrorKind::StateParamNotCallable),
    ] {
        assert_eq!(refused(source).kind, kind, "{source}");
    }
}

#[test]
fn refuseds_carry_the_place() {
    let error = refused("start { _ | | ! }\nstart { _ | | ! }");
    assert_eq!(error.span, Some(Span { line: 1, column: 0, len: 5 }));
    assert_eq!(error.msg, "a function with signature `start` already exists");
    let error = refused("start { _ | | f(!, !; 'a') }");
    assert_eq!(error.span, Some(Span { line: 0, column: 14, len: 1 }));
    assert_eq!(error.msg, "no function with signature `f(_, _; _)`");
    let error = refused("start { _ | | f(; 'a') }");
    assert_eq!(error.msg, "no function with signature `f(; _)`");
    let error = refused("begin { _ | | ! }");
    assert_eq!(error.span, None);
    let error = refused("start { _ | > nope | ! }");
    assert_eq!(error.span, Some(Span { line: 0, column: 14, len: 4 }));
    let error = refused("start { _ | | ! } f(a, b, a) { _ | | ! }");
    assert_eq!(error.span, Some(Span { line: 0, column: 26, len: 1 }));
    assert_eq!(error.msg, "duplicate state parameter `a`");
}

#[test]
fn too_many_parameters() {
    let names: Vec<String> = (0..257).map(|i| format!("p{i}")).collect();
    let source = format!("start {{ _ | | ! }} f({}) {{ _ | | ! }}", names.join(", "));
    assert_eq!(refused(&source).kind, ErrorKind::TooManyParameters);
    let source = format!("start {{ _ | | ! }} f(; {}) {{ _ | | ! }}", names.join(", "));
    assert_eq!(refused(&source).kind, ErrorKind::TooManyParameters);
    let source = format!("start {{ _ | | ! }} f({}) {{ _ | | ! }}", names[..256].join(", "));
    assert!(compile(program(&source), Vec::new()).is_ok());
}

#[test]
fn too_many_states() {
    let mut compiler = Compiler::new();
    compiler.out.bytes[0] = 0xfe;
    compiler.out.bytes[1] = 0xff;
    let unit = program("a { _ | | ! } b { _ | | ! }");
    assert!(compiler.compile_state(&unit[0]).is_ok());
    assert_eq!(&compiler.out.bytes[..2], &[0xff, 0xff]);
    let error = compiler.compile_state(&unit[1]).err().unwrap();
    assert_eq!(error.kind, ErrorKind::TooManyStates);
    assert_eq!(error.span, Some(Span { line: 0, column: 14, len: 1 }));
}

#[test]
fn too_many_symbols() {
    let cells: Vec<Symbol> = (0..65535)
        .map(|i| Symbol { symbol: format!("s{i}"), span: Span { line: 0, column: i, len: 1 } })
        .collect();
    let compiled = compile(program("start { _ | | ! }"), cells).unwrap();
    assert_eq!(compiled.symbols.len(), 65536);
    assert_eq!(compiled.tape[65534], 65535);
    let cells: Vec<Symbol> = (0..65536)
        .map(|i| Symbol { symbol: format!("s{i}"), span: Span { line: 0, column: i, len: 1 } })
        .collect();
    let error = compile(program("start { _ | | ! }"), cells).err().unwrap();
    assert_eq!(error.kind, ErrorKind::TooManySymbols);
    assert_eq!(error.span, Some(Span { line: 0, column: 65535, len: 1 }));
}

#[test]
fn arm_too_large() {
    // each write takes three bytes, and the call five
    let fits = format!("start {{ 'a' | {} | !, _ | | ! }}", "'b' ".repeat(21843));
    let compiled = compile(program(&fits), Vec::new()).unwrap();
    assert_eq!(decode(&compiled.bytes, 7), Some(Instr::CompareVal(1, 65534)));
    let full = format!("start {{ 'a' | {} > | !, _ | | ! }}", "'b' ".repeat(21843));
    let compiled = compile(program(&full), Vec::new()).unwrap();
    assert_eq!(decode(&compiled.bytes, 7), Some(Instr::CompareVal(1, 65535)));
    let over = format!("start {{ 'a' | {} >> | !, _ | | ! }}", "'b' ".repeat(21843));
    let error = refused(&over);
    assert_eq!(error.kind, ErrorKind::ArmTooLarge);
    assert_eq!(error.span, Some(Span { line: 0, column: 8, len: 3 }));
}

#[test]
fn a_message_shows_the_character_at_fault() {
    let said = |source: &str| lex_error(source).msg;
    assert_eq!(said("a $"), "unexpected character '$'");
    assert_eq!(said("a \""), "unexpected character '\"'");
    assert_eq!(said("a \u{7}"), "unexpected character '\\u{7}'");
    assert_eq!(said("'a\"b'"), "weird character '\"' is not allowed");
    assert_eq!(said("'a\u{1b}'"), "weird character '\\u{1b}' is not allowed");
    assert_eq!(said("'a\\n'"), "invalid escape sequence (only '\\'' and '\\\\' are supported)");
    assert_eq!(said("'abc"), "unterminated symbol");
    assert_eq!(said("a\tb"), "tab characters are not allowed");
}
