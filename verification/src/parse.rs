//! The syntax tree of a program, and the parser that builds it from the
//! tokens of a source.
//!
//! ```text
//! unit     = { state } end-of-file
//! state    = name [ "(" names [ ";" names ] ")" ] "{" arms "}"
//! names    = [ name { "," name } [ "," ] ]
//! arms     = [ arm { "," arm } [ "," ] ]
//! arm      = pattern "|" { op } "|" to-state
//! pattern  = symbol | name
//! op       = "<" | ">" | name | symbol
//! to-state = "!" | name [ "(" to-states [ ";" patterns ] ")" ]
//! ```
//!
//! `to-states` and `patterns` are lists like `names`.

use vstd::prelude::*;
use vstd::string::StringExecFns;
use crate::error::{Error, ErrorKind, Failure};
use crate::lex::{stream_at, tag_of, KindModel, Span, Tag, Token, TokenKind, TokenModel, Tokens};

verus! {

/// An identifier and where it stands.
#[derive(Debug)]
pub struct Name {
    pub name: String,
    pub span: Span,
}

/// A symbol literal, without its quotes and escapes, and where it stands.
#[derive(Debug)]
pub struct Symbol {
    pub symbol: String,
    pub span: Span,
}

/// What an arm matches, or a symbol argument of a call: a literal, or a name
/// that is a symbol parameter or, failing that, the catch-all binding.
#[derive(Debug)]
pub enum Pattern {
    Symbol(Symbol),
    Name(Name),
}

/// A tape operation: a move by one cell, or a write of a named or literal
/// symbol.
#[derive(Debug)]
pub enum OpKind {
    Left,
    Right,
    Name(String),
    Symbol(String),
}

/// A tape operation and where it stands.
#[derive(Debug)]
pub struct Op {
    pub kind: OpKind,
    pub span: Span,
}

/// The target of a tail call: the halt state, or a named state with its
/// state arguments and symbol arguments. A name without arguments may be a
/// state parameter.
#[derive(Debug)]
pub enum ToState {
    State { name: Name, state_args: Vec<ToState>, symbol_args: Vec<Pattern> },
    Halt { span: Span },
}

/// One branch of a state.
#[derive(Debug)]
pub struct Arm {
    pub pattern: Pattern,
    pub ops: Vec<Op>,
    pub to_state: ToState,
}

/// A state declaration.
#[derive(Debug)]
pub struct State {
    pub name: Name,
    pub state_params: Vec<Name>,
    pub symbol_params: Vec<Name>,
    pub arms: Vec<Arm>,
}

/// The mathematical value of a [`Name`].
pub struct NameModel {
    pub name: Seq<char>,
    pub span: Span,
}

/// The mathematical value of a [`Symbol`].
pub struct SymbolModel {
    pub symbol: Seq<char>,
    pub span: Span,
}

/// The mathematical value of a [`Pattern`].
pub enum PatternModel {
    Symbol(SymbolModel),
    Name(NameModel),
}

/// The mathematical value of an [`OpKind`].
pub enum OpKindModel {
    Left,
    Right,
    Name(Seq<char>),
    Symbol(Seq<char>),
}

/// The mathematical value of an [`Op`].
pub struct OpModel {
    pub kind: OpKindModel,
    pub span: Span,
}

/// The mathematical value of a [`ToState`].
pub enum ToStateModel {
    State { name: NameModel, state_args: Seq<ToStateModel>, symbol_args: Seq<PatternModel> },
    Halt { span: Span },
}

/// The mathematical value of an [`Arm`].
pub struct ArmModel {
    pub pattern: PatternModel,
    pub ops: Seq<OpModel>,
    pub to_state: ToStateModel,
}

/// The mathematical value of a [`State`].
pub struct StateModel {
    pub name: NameModel,
    pub state_params: Seq<NameModel>,
    pub symbol_params: Seq<NameModel>,
    pub arms: Seq<ArmModel>,
}

impl View for Name {
    type V = NameModel;

    open spec fn view(&self) -> NameModel {
        NameModel { name: self.name@, span: self.span }
    }
}

impl View for Symbol {
    type V = SymbolModel;

    open spec fn view(&self) -> SymbolModel {
        SymbolModel { symbol: self.symbol@, span: self.span }
    }
}

impl View for Pattern {
    type V = PatternModel;

    open spec fn view(&self) -> PatternModel {
        match self {
            Pattern::Symbol(symbol) => PatternModel::Symbol(symbol@),
            Pattern::Name(name) => PatternModel::Name(name@),
        }
    }
}

impl View for Op {
    type V = OpModel;

    open spec fn view(&self) -> OpModel {
        OpModel {
            kind: match self.kind {
                OpKind::Left => OpKindModel::Left,
                OpKind::Right => OpKindModel::Right,
                OpKind::Name(name) => OpKindModel::Name(name@),
                OpKind::Symbol(text) => OpKindModel::Symbol(text@),
            },
            span: self.span,
        }
    }
}

/// The values of a list of names.
pub open spec fn names_view(names: Seq<Name>) -> Seq<NameModel> {
    Seq::new(names.len(), |i: int| names[i]@)
}

/// The values of a list of patterns.
pub open spec fn patterns_view(patterns: Seq<Pattern>) -> Seq<PatternModel> {
    Seq::new(patterns.len(), |i: int| patterns[i]@)
}

/// The values of a list of operations.
pub open spec fn ops_view(ops: Seq<Op>) -> Seq<OpModel> {
    Seq::new(ops.len(), |i: int| ops[i]@)
}

impl ToState {
    /// The value of a call, arguments and all.
    pub open spec fn model(self) -> ToStateModel
        decreases self,
    {
        match self {
            ToState::Halt { span } => ToStateModel::Halt { span },
            ToState::State { name, state_args, symbol_args } => ToStateModel::State {
                name: name@,
                state_args: Seq::new(
                    state_args.len() as nat,
                    |i: int|
                        if 0 <= i < state_args.len() {
                            state_args[i].model()
                        } else {
                            arbitrary()
                        },
                ),
                symbol_args: patterns_view(symbol_args@),
            },
        }
    }
}

impl View for ToState {
    type V = ToStateModel;

    open spec fn view(&self) -> ToStateModel {
        self.model()
    }
}

/// The values of a list of calls.
pub open spec fn to_states_view(calls: Seq<ToState>) -> Seq<ToStateModel> {
    Seq::new(calls.len(), |i: int| calls[i]@)
}

impl View for Arm {
    type V = ArmModel;

    open spec fn view(&self) -> ArmModel {
        ArmModel { pattern: self.pattern@, ops: ops_view(self.ops@), to_state: self.to_state@ }
    }
}

/// The values of a list of arms.
pub open spec fn arms_view(arms: Seq<Arm>) -> Seq<ArmModel> {
    Seq::new(arms.len(), |i: int| arms[i]@)
}

impl View for State {
    type V = StateModel;

    open spec fn view(&self) -> StateModel {
        StateModel {
            name: self.name@,
            state_params: names_view(self.state_params@),
            symbol_params: names_view(self.symbol_params@),
            arms: arms_view(self.arms@),
        }
    }
}

/// The values of a list of states.
pub open spec fn states_view(states: Seq<State>) -> Seq<StateModel> {
    Seq::new(states.len(), |i: int| states[i]@)
}

/// The values of a list of symbols.
pub open spec fn symbols_view(symbols: Seq<Symbol>) -> Seq<SymbolModel> {
    Seq::new(symbols.len(), |i: int| symbols[i]@)
}

impl Pattern {
    pub open spec fn span(self) -> Span {
        match self {
            Pattern::Symbol(symbol) => symbol.span,
            Pattern::Name(name) => name.span,
        }
    }

    /// Where the pattern stands.
    pub fn get_span(&self) -> (span: Span)
        ensures
            span == self.span(),
    {
        match self {
            Pattern::Symbol(symbol) => symbol.span,
            Pattern::Name(name) => name.span,
        }
    }
}

/// The tokens of a source and the fault after them.
pub struct Stream {
    pub tokens: Seq<TokenModel>,
    pub failure: Option<Failure>,
}

impl Stream {
    /// The token at index `i`.
    pub open spec fn at(self, i: int) -> Result<TokenModel, Failure> {
        stream_at(self.tokens, self.failure, i)
    }

    /// Whether index `i` holds a token that can be read and left behind.
    pub open spec fn has(self, i: int) -> bool {
        0 <= i < self.tokens.len()
    }
}

/// The fault of a token that cannot stand where it stands.
pub open spec fn unexpected(token: TokenModel) -> Failure {
    Failure { kind: ErrorKind::UnexpectedToken, span: Some(token.span) }
}

/// Reads a token of the kind `kind`, which has no text.
pub open spec fn expect_spec(s: Stream, i: int, kind: KindModel) -> Result<int, Failure> {
    match s.at(i) {
        Err(f) => Err(f),
        Ok(token) => if token.kind == kind && s.has(i) {
            Ok(i + 1)
        } else {
            Err(unexpected(token))
        },
    }
}

/// Reads a list of names.
pub open spec fn names_spec(s: Stream, i: int) -> Result<(Seq<NameModel>, int), Failure>
    decreases s.tokens.len() - i,
{
    match s.at(i) {
        Err(f) => Err(f),
        Ok(token) => match token.kind {
            KindModel::Name(text) => if !s.has(i) {
                Ok((Seq::empty(), i))
            } else {
                let item = NameModel { name: text, span: token.span };
                match s.at(i + 1) {
                    Err(f) => Err(f),
                    Ok(next) => if next.kind == KindModel::Comma && s.has(i + 1) {
                        match names_spec(s, i + 2) {
                            Err(f) => Err(f),
                            Ok((rest, end)) => Ok((seq![item] + rest, end)),
                        }
                    } else {
                        Ok((seq![item], i + 1))
                    },
                }
            },
            _ => Ok((Seq::empty(), i)),
        },
    }
}

/// Reads a pattern.
pub open spec fn pattern_spec(s: Stream, i: int) -> Result<(PatternModel, int), Failure> {
    match s.at(i) {
        Err(f) => Err(f),
        Ok(token) => if !s.has(i) {
            Err(unexpected(token))
        } else {
            match token.kind {
                KindModel::Name(text) => Ok(
                    (PatternModel::Name(NameModel { name: text, span: token.span }), i + 1),
                ),
                KindModel::Symbol(text) => Ok(
                    (PatternModel::Symbol(SymbolModel { symbol: text, span: token.span }), i + 1),
                ),
                _ => Err(unexpected(token)),
            }
        },
    }
}

/// Reads a list of patterns.
pub open spec fn patterns_spec(s: Stream, i: int) -> Result<(Seq<PatternModel>, int), Failure>
    decreases s.tokens.len() - i,
{
    match s.at(i) {
        Err(f) => Err(f),
        Ok(token) => if !s.has(i) || !(token.kind is Name || token.kind is Symbol) {
            Ok((Seq::empty(), i))
        } else {
            match pattern_spec(s, i) {
                Err(f) => Err(f),
                Ok((item, _)) => match s.at(i + 1) {
                    Err(f) => Err(f),
                    Ok(next) => if next.kind == KindModel::Comma && s.has(i + 1) {
                        match patterns_spec(s, i + 2) {
                            Err(f) => Err(f),
                            Ok((rest, end)) => Ok((seq![item] + rest, end)),
                        }
                    } else {
                        Ok((seq![item], i + 1))
                    },
                },
            }
        },
    }
}

/// Reads the operations of an arm, up to the bar after them.
pub open spec fn ops_spec(s: Stream, i: int) -> Result<(Seq<OpModel>, int), Failure>
    decreases s.tokens.len() - i,
{
    match s.at(i) {
        Err(f) => Err(f),
        Ok(token) => if token.kind == KindModel::Bar {
            Ok((Seq::empty(), i))
        } else if !s.has(i) {
            Err(unexpected(token))
        } else {
            let kind = match token.kind {
                KindModel::Left => Some(OpKindModel::Left),
                KindModel::Right => Some(OpKindModel::Right),
                KindModel::Name(text) => Some(OpKindModel::Name(text)),
                KindModel::Symbol(text) => Some(OpKindModel::Symbol(text)),
                _ => None,
            };
            match kind {
                None => Err(unexpected(token)),
                Some(kind) => match ops_spec(s, i + 1) {
                    Err(f) => Err(f),
                    Ok((rest, end)) => Ok((seq![OpModel { kind, span: token.span }] + rest, end)),
                },
            }
        },
    }
}

/// Reads a call.
pub open spec fn to_state_spec(s: Stream, i: int) -> Result<(ToStateModel, int), Failure>
    decreases s.tokens.len() - i, 0int,
{
    match s.at(i) {
        Err(f) => Err(f),
        Ok(token) => if !s.has(i) {
            Err(unexpected(token))
        } else {
            match token.kind {
                KindModel::Bang => Ok((ToStateModel::Halt { span: token.span }, i + 1)),
                KindModel::Name(text) => {
                    let name = NameModel { name: text, span: token.span };
                    match s.at(i + 1) {
                        Err(f) => Err(f),
                        Ok(next) => if next.kind == KindModel::LParen && s.has(i + 1) {
                            match to_states_spec(s, i + 2) {
                                Err(f) => Err(f),
                                Ok((state_args, j)) => match s.at(j) {
                                    Err(f) => Err(f),
                                    Ok(after) => if after.kind == KindModel::Semi && s.has(j) {
                                        match patterns_spec(s, j + 1) {
                                            Err(f) => Err(f),
                                            Ok((symbol_args, k)) => match expect_spec(
                                                s,
                                                k,
                                                KindModel::RParen,
                                            ) {
                                                Err(f) => Err(f),
                                                Ok(end) => Ok(
                                                    (
                                                        ToStateModel::State {
                                                            name,
                                                            state_args,
                                                            symbol_args,
                                                        },
                                                        end,
                                                    ),
                                                ),
                                            },
                                        }
                                    } else {
                                        match expect_spec(s, j, KindModel::RParen) {
                                            Err(f) => Err(f),
                                            Ok(end) => Ok(
                                                (
                                                    ToStateModel::State {
                                                        name,
                                                        state_args,
                                                        symbol_args: Seq::empty(),
                                                    },
                                                    end,
                                                ),
                                            ),
                                        }
                                    },
                                },
                            }
                        } else {
                            Ok(
                                (
                                    ToStateModel::State {
                                        name,
                                        state_args: Seq::empty(),
                                        symbol_args: Seq::empty(),
                                    },
                                    i + 1,
                                ),
                            )
                        },
                    }
                },
                _ => Err(unexpected(token)),
            }
        },
    }
}

/// Reads a list of calls.
pub open spec fn to_states_spec(s: Stream, i: int) -> Result<(Seq<ToStateModel>, int), Failure>
    decreases s.tokens.len() - i, 1int,
{
    match s.at(i) {
        Err(f) => Err(f),
        Ok(token) => if !s.has(i) || !(token.kind is Name || token.kind is Bang) {
            Ok((Seq::empty(), i))
        } else {
            match to_state_spec(s, i) {
                Err(f) => Err(f),
                Ok((item, j)) => match s.at(j) {
                    Err(f) => Err(f),
                    Ok(next) => if next.kind == KindModel::Comma && s.has(j) && j > i {
                        match to_states_spec(s, j + 1) {
                            Err(f) => Err(f),
                            Ok((rest, end)) => Ok((seq![item] + rest, end)),
                        }
                    } else {
                        Ok((seq![item], j))
                    },
                },
            }
        },
    }
}

/// Reads an arm.
pub open spec fn arm_spec(s: Stream, i: int) -> Result<(ArmModel, int), Failure> {
    match pattern_spec(s, i) {
        Err(f) => Err(f),
        Ok((pattern, j)) => match expect_spec(s, j, KindModel::Bar) {
            Err(f) => Err(f),
            Ok(k) => match ops_spec(s, k) {
                Err(f) => Err(f),
                Ok((ops, l)) => match expect_spec(s, l, KindModel::Bar) {
                    Err(f) => Err(f),
                    Ok(m) => match to_state_spec(s, m) {
                        Err(f) => Err(f),
                        Ok((to_state, end)) => Ok((ArmModel { pattern, ops, to_state }, end)),
                    },
                },
            },
        },
    }
}

/// Reads the arms of a state, up to the brace after them.
pub open spec fn arms_spec(s: Stream, i: int) -> Result<(Seq<ArmModel>, int), Failure>
    decreases s.tokens.len() - i,
{
    match s.at(i) {
        Err(f) => Err(f),
        Ok(token) => if token.kind == KindModel::RBrace {
            Ok((Seq::empty(), i))
        } else {
            match arm_spec(s, i) {
                Err(f) => Err(f),
                Ok((item, j)) => match s.at(j) {
                    Err(f) => Err(f),
                    Ok(next) => if next.kind == KindModel::Comma && s.has(j) && j > i {
                        match arms_spec(s, j + 1) {
                            Err(f) => Err(f),
                            Ok((rest, end)) => Ok((seq![item] + rest, end)),
                        }
                    } else {
                        Ok((seq![item], j))
                    },
                },
            }
        },
    }
}

/// Reads the parameters of a state, if it has any: the state parameters
/// and the symbol parameters.
pub open spec fn params_spec(s: Stream, i: int) -> Result<
    (Seq<NameModel>, Seq<NameModel>, int),
    Failure,
> {
    match s.at(i) {
        Err(f) => Err(f),
        Ok(token) => if token.kind == KindModel::LParen && s.has(i) {
            match names_spec(s, i + 1) {
                Err(f) => Err(f),
                Ok((states, j)) => match s.at(j) {
                    Err(f) => Err(f),
                    Ok(after) => if after.kind == KindModel::Semi && s.has(j) {
                        match names_spec(s, j + 1) {
                            Err(f) => Err(f),
                            Ok((symbols, k)) => match expect_spec(s, k, KindModel::RParen) {
                                Err(f) => Err(f),
                                Ok(end) => Ok((states, symbols, end)),
                            },
                        }
                    } else {
                        match expect_spec(s, j, KindModel::RParen) {
                            Err(f) => Err(f),
                            Ok(end) => Ok((states, Seq::empty(), end)),
                        }
                    },
                },
            }
        } else {
            Ok((Seq::empty(), Seq::empty(), i))
        },
    }
}

/// Reads a state.
pub open spec fn state_spec(s: Stream, i: int) -> Result<(StateModel, int), Failure> {
    match s.at(i) {
        Err(f) => Err(f),
        Ok(token) => match token.kind {
            KindModel::Name(text) => if !s.has(i) {
                Err(unexpected(token))
            } else {
                match params_spec(s, i + 1) {
                    Err(f) => Err(f),
                    Ok((state_params, symbol_params, j)) => match expect_spec(
                        s,
                        j,
                        KindModel::LBrace,
                    ) {
                        Err(f) => Err(f),
                        Ok(k) => match arms_spec(s, k) {
                            Err(f) => Err(f),
                            Ok((arms, l)) => match expect_spec(s, l, KindModel::RBrace) {
                                Err(f) => Err(f),
                                Ok(end) => Ok(
                                    (
                                        StateModel {
                                            name: NameModel { name: text, span: token.span },
                                            state_params,
                                            symbol_params,
                                            arms,
                                        },
                                        end,
                                    ),
                                ),
                            },
                        },
                    },
                }
            },
            _ => Err(unexpected(token)),
        },
    }
}

/// Reads the states of a source, up to the end of the file.
pub open spec fn unit_spec(s: Stream, i: int) -> Result<Seq<StateModel>, Failure>
    decreases s.tokens.len() - i,
{
    match s.at(i) {
        Err(f) => Err(f),
        Ok(token) => if token.kind == KindModel::Eof {
            Ok(Seq::empty())
        } else {
            match state_spec(s, i) {
                Err(f) => Err(f),
                Ok((item, j)) => if j <= i || j > s.tokens.len() {
                    Ok(seq![item])
                } else {
                    match unit_spec(s, j) {
                        Err(f) => Err(f),
                        Ok(rest) => Ok(seq![item] + rest),
                    }
                },
            }
        },
    }
}

/// Reads the symbols of a tape, up to the end of the file.
pub open spec fn tape_spec(s: Stream, i: int) -> Result<Seq<SymbolModel>, Failure>
    decreases s.tokens.len() - i,
{
    match s.at(i) {
        Err(f) => Err(f),
        Ok(token) => match token.kind {
            KindModel::Eof => Ok(Seq::empty()),
            KindModel::Symbol(text) => if !s.has(i) {
                Err(unexpected(token))
            } else {
                match tape_spec(s, i + 1) {
                    Err(f) => Err(f),
                    Ok(rest) => Ok(seq![SymbolModel { symbol: text, span: token.span }] + rest),
                }
            },
            _ => Err(unexpected(token)),
        },
    }
}

/// The tokens that a reader reads, as a stream.
pub open spec fn stream(tokens: Tokens) -> Stream {
    Stream { tokens: tokens.model(), failure: tokens.failure() }
}

/// `b` reads the same source as `a`.
pub open spec fn same_source(a: Tokens, b: Tokens) -> bool {
    &&& b.tokens == a.tokens
    &&& b.error == a.error
    &&& b.wf()
    &&& b.next <= b.tokens.len()
}

/// Where a reader stands after a fault: at the token that cannot stand
/// where it stands, or at the fault of the source, which comes after the
/// last token.
pub open spec fn stopped_at(before: Tokens, after: Tokens, e: Error) -> bool {
    match stream(before).at(after.next as int) {
        Ok(token) => e@ == unexpected(token),
        Err(f) => e@ == f,
    }
}

/// An error for a token that cannot stand where it stands.
pub fn unexpected_token(expected: &str, found: &Token) -> (e: Error)
    ensures
        e@ == unexpected(found@),
{
    let mut msg = String::from_str("expected ");
    msg.append(expected);
    msg.append(", found ");
    msg.append(found.kind.desc());
    Error::new(ErrorKind::UnexpectedToken, msg, Some(found.span))
}

/// The kind and the place of the token `k` places after the next one.
pub fn peek(tokens: &Tokens, k: usize) -> (r: Result<(Tag, Span), Error>)
    requires
        tokens.wf(),
        tokens.next <= tokens.tokens.len(),
    ensures
        match stream(*tokens).at(tokens.next + k) {
            Ok(token) => r is Ok && r->Ok_0.0 == tag_of(token.kind) && r->Ok_0.1 == token.span && (
            token.kind != KindModel::Eof ==> stream(*tokens).has(tokens.next + k)),
            Err(f) => r is Err && r->Err_0@ == f,
        },
{
    match tokens.peek_at(k) {
        Ok(token) => Ok((token.kind.tag(), token.span)),
        Err(e) => Err(e),
    }
}

/// Reads the next token, which is there.
pub fn take(tokens: &mut Tokens) -> (token: Token)
    requires
        old(tokens).wf(),
        stream(*old(tokens)).has(old(tokens).next as int),
    ensures
        same_source(*old(tokens), *final(tokens)),
        final(tokens).next == old(tokens).next + 1,
        Ok::<TokenModel, Failure>(token@) == stream(*old(tokens)).at(old(tokens).next as int),
{
    match tokens.next() {
        Ok(token) => token,
        Err(_) => unreached(),
    }
}

/// Reads a token of the kind `tag`, which has no text.
pub fn expect(tokens: &mut Tokens, tag: Tag, kind: Ghost<KindModel>, expected: &str) -> (r:
    Result<(), Error>)
    requires
        old(tokens).wf(),
        old(tokens).next <= old(tokens).tokens.len(),
        tag_of(kind@) == tag,
        tag != Tag::Name && tag != Tag::Symbol && tag != Tag::Eof,
    ensures
        same_source(*old(tokens), *final(tokens)),
        final(tokens).next >= old(tokens).next,
        match expect_spec(stream(*old(tokens)), old(tokens).next as int, kind@) {
            Ok(end) => r is Ok && final(tokens).next == end,
            Err(f) => r is Err && r->Err_0@ == f && stopped_at(
                *old(tokens),
                *final(tokens),
                r->Err_0,
            ),
        },
{
    match tokens.peek_at(0) {
        Ok(token) => {
            if token.kind.tag() == tag {
                let _ = take(tokens);
                Ok(())
            } else {
                Err(unexpected_token(expected, token))
            }
        },
        Err(e) => Err(e),
    }
}

/// Reads a list of names.
pub fn names(tokens: &mut Tokens) -> (r: Result<Vec<Name>, Error>)
    requires
        old(tokens).wf(),
        old(tokens).next <= old(tokens).tokens.len(),
    ensures
        same_source(*old(tokens), *final(tokens)),
        final(tokens).next >= old(tokens).next,
        match names_spec(stream(*old(tokens)), old(tokens).next as int) {
            Ok((list, end)) => r is Ok && names_view(r->Ok_0@) == list && final(tokens).next
                == end,
            Err(f) => r is Err && r->Err_0@ == f && stopped_at(
                *old(tokens),
                *final(tokens),
                r->Err_0,
            ),
        },
{
    let mut out: Vec<Name> = Vec::new();
    let ghost s = stream(*tokens);
    let ghost start = tokens.next as int;
    assert(names_view(out@) =~= Seq::<NameModel>::empty());
    loop
        invariant
            same_source(*old(tokens), *tokens),
            s == stream(*old(tokens)),
            start == old(tokens).next,
            tokens.next >= start,
            match names_spec(s, tokens.next as int) {
                Ok((rest, end)) => names_spec(s, start) == Ok::<(Seq<NameModel>, int), Failure>(
                    (names_view(out@) + rest, end),
                ),
                Err(f) => names_spec(s, start) == Err::<(Seq<NameModel>, int), Failure>(f),
            },
        decreases tokens.tokens.len() - tokens.next,
    {
        match peek(tokens, 0) {
            Err(e) => {
                return Err(e);
            },
            Ok((tag, _)) => {
                if tag != Tag::Name {
                    assert(names_view(out@) + Seq::<NameModel>::empty() =~= names_view(out@));
                    return Ok(out);
                }
            },
        }
        let token = take(tokens);
        let item = match token.kind {
            TokenKind::Name(text) => Name { name: text, span: token.span },
            _ => unreached(),
        };
        let ghost before = names_view(out@);
        let ghost model = item@;
        out.push(item);
        assert(names_view(out@) =~= before.push(model));
        match peek(tokens, 0) {
            Err(e) => {
                return Err(e);
            },
            Ok((tag, _)) => {
                if tag != Tag::Comma {
                    assert(before + seq![model] =~= names_view(out@));
                    return Ok(out);
                }
            },
        }
        let _ = take(tokens);
        proof {
            match names_spec(s, tokens.next as int) {
                Ok((rest, end)) => {
                    assert(names_view(out@) + rest =~= before + (seq![model] + rest));
                },
                Err(f) => {},
            }
        }
    }
}

/// Reads a pattern.
pub fn pattern(tokens: &mut Tokens) -> (r: Result<Pattern, Error>)
    requires
        old(tokens).wf(),
        old(tokens).next <= old(tokens).tokens.len(),
    ensures
        same_source(*old(tokens), *final(tokens)),
        final(tokens).next >= old(tokens).next,
        match pattern_spec(stream(*old(tokens)), old(tokens).next as int) {
            Ok((item, end)) => r is Ok && r->Ok_0@ == item && final(tokens).next == end,
            Err(f) => r is Err && r->Err_0@ == f && stopped_at(
                *old(tokens),
                *final(tokens),
                r->Err_0,
            ),
        },
{
    match tokens.peek_at(0) {
        Err(e) => {
            return Err(e);
        },
        Ok(token) => {
            match token.kind.tag() {
                Tag::Name | Tag::Symbol => {},
                _ => {
                    return Err(unexpected_token("symbol or name", token));
                },
            }
        },
    }
    let token = take(tokens);
    match token.kind {
        TokenKind::Name(text) => Ok(Pattern::Name(Name { name: text, span: token.span })),
        TokenKind::Symbol(text) => Ok(Pattern::Symbol(Symbol { symbol: text, span: token.span })),
        _ => unreached(),
    }
}

/// Reads a list of patterns.
pub fn patterns(tokens: &mut Tokens) -> (r: Result<Vec<Pattern>, Error>)
    requires
        old(tokens).wf(),
        old(tokens).next <= old(tokens).tokens.len(),
    ensures
        same_source(*old(tokens), *final(tokens)),
        final(tokens).next >= old(tokens).next,
        match patterns_spec(stream(*old(tokens)), old(tokens).next as int) {
            Ok((list, end)) => r is Ok && patterns_view(r->Ok_0@) == list && final(tokens).next
                == end,
            Err(f) => r is Err && r->Err_0@ == f && stopped_at(
                *old(tokens),
                *final(tokens),
                r->Err_0,
            ),
        },
{
    let mut out: Vec<Pattern> = Vec::new();
    let ghost s = stream(*tokens);
    let ghost start = tokens.next as int;
    assert(patterns_view(out@) =~= Seq::<PatternModel>::empty());
    loop
        invariant
            same_source(*old(tokens), *tokens),
            s == stream(*old(tokens)),
            start == old(tokens).next,
            tokens.next >= start,
            match patterns_spec(s, tokens.next as int) {
                Ok((rest, end)) => patterns_spec(s, start) == Ok::<
                    (Seq<PatternModel>, int),
                    Failure,
                >((patterns_view(out@) + rest, end)),
                Err(f) => patterns_spec(s, start) == Err::<(Seq<PatternModel>, int), Failure>(f),
            },
        decreases tokens.tokens.len() - tokens.next,
    {
        match peek(tokens, 0) {
            Err(e) => {
                return Err(e);
            },
            Ok((tag, _)) => {
                if tag != Tag::Name && tag != Tag::Symbol {
                    assert(patterns_view(out@) + Seq::<PatternModel>::empty() =~= patterns_view(
                        out@,
                    ));
                    return Ok(out);
                }
            },
        }
        let item = match pattern(tokens) {
            Ok(item) => item,
            Err(e) => {
                return Err(e);
            },
        };
        let ghost before = patterns_view(out@);
        let ghost model = item@;
        out.push(item);
        assert(patterns_view(out@) =~= before.push(model));
        match peek(tokens, 0) {
            Err(e) => {
                return Err(e);
            },
            Ok((tag, _)) => {
                if tag != Tag::Comma {
                    assert(before + seq![model] =~= patterns_view(out@));
                    return Ok(out);
                }
            },
        }
        let _ = take(tokens);
        proof {
            match patterns_spec(s, tokens.next as int) {
                Ok((rest, end)) => {
                    assert(patterns_view(out@) + rest =~= before + (seq![model] + rest));
                },
                Err(f) => {},
            }
        }
    }
}

/// Reads the operations of an arm, up to the bar after them.
pub fn ops(tokens: &mut Tokens) -> (r: Result<Vec<Op>, Error>)
    requires
        old(tokens).wf(),
        old(tokens).next <= old(tokens).tokens.len(),
    ensures
        same_source(*old(tokens), *final(tokens)),
        final(tokens).next >= old(tokens).next,
        match ops_spec(stream(*old(tokens)), old(tokens).next as int) {
            Ok((list, end)) => r is Ok && ops_view(r->Ok_0@) == list && final(tokens).next == end,
            Err(f) => r is Err && r->Err_0@ == f && stopped_at(
                *old(tokens),
                *final(tokens),
                r->Err_0,
            ),
        },
{
    let mut out: Vec<Op> = Vec::new();
    let ghost s = stream(*tokens);
    let ghost start = tokens.next as int;
    assert(ops_view(out@) =~= Seq::<OpModel>::empty());
    loop
        invariant
            same_source(*old(tokens), *tokens),
            s == stream(*old(tokens)),
            start == old(tokens).next,
            tokens.next >= start,
            match ops_spec(s, tokens.next as int) {
                Ok((rest, end)) => ops_spec(s, start) == Ok::<(Seq<OpModel>, int), Failure>(
                    (ops_view(out@) + rest, end),
                ),
                Err(f) => ops_spec(s, start) == Err::<(Seq<OpModel>, int), Failure>(f),
            },
        decreases tokens.tokens.len() - tokens.next,
    {
        match tokens.peek_at(0) {
            Err(e) => {
                return Err(e);
            },
            Ok(token) => {
                match token.kind.tag() {
                    Tag::Bar => {
                        assert(ops_view(out@) + Seq::<OpModel>::empty() =~= ops_view(out@));
                        return Ok(out);
                    },
                    Tag::Left | Tag::Right | Tag::Name | Tag::Symbol => {},
                    _ => {
                        return Err(unexpected_token("`<`, `>`, symbol or name", token));
                    },
                }
            },
        }
        let token = take(tokens);
        let kind = match token.kind {
            TokenKind::Left => OpKind::Left,
            TokenKind::Right => OpKind::Right,
            TokenKind::Name(text) => OpKind::Name(text),
            TokenKind::Symbol(text) => OpKind::Symbol(text),
            _ => unreached(),
        };
        let item = Op { kind, span: token.span };
        let ghost before = ops_view(out@);
        let ghost model = item@;
        out.push(item);
        proof {
            assert(ops_view(out@) =~= before.push(model));
            match ops_spec(s, tokens.next as int) {
                Ok((rest, end)) => {
                    assert(ops_view(out@) + rest =~= before + (seq![model] + rest));
                },
                Err(f) => {},
            }
        }
    }
}

/// Reads a call.
pub fn to_state(tokens: &mut Tokens) -> (r: Result<ToState, Error>)
    requires
        old(tokens).wf(),
        old(tokens).next <= old(tokens).tokens.len(),
    ensures
        same_source(*old(tokens), *final(tokens)),
        final(tokens).next >= old(tokens).next,
        match to_state_spec(stream(*old(tokens)), old(tokens).next as int) {
            Ok((item, end)) => r is Ok && r->Ok_0@ == item && final(tokens).next == end && end
                > old(tokens).next,
            Err(f) => r is Err && r->Err_0@ == f && stopped_at(
                *old(tokens),
                *final(tokens),
                r->Err_0,
            ),
        },
    decreases old(tokens).tokens.len() - old(tokens).next, 0int,
{
    match tokens.peek_at(0) {
        Err(e) => {
            return Err(e);
        },
        Ok(token) => {
            match token.kind.tag() {
                Tag::Name | Tag::Bang => {},
                _ => {
                    return Err(unexpected_token("`!` or name", token));
                },
            }
        },
    }
    let token = take(tokens);
    let name = match token.kind {
        TokenKind::Bang => {
            return Ok(ToState::Halt { span: token.span });
        },
        TokenKind::Name(text) => Name { name: text, span: token.span },
        _ => unreached(),
    };
    match peek(tokens, 0) {
        Err(e) => {
            return Err(e);
        },
        Ok((tag, _)) => {
            if tag != Tag::LParen {
                let call = ToState::State {
                    name,
                    state_args: Vec::new(),
                    symbol_args: Vec::new(),
                };
                assert(call@->state_args =~= Seq::<ToStateModel>::empty());
                assert(call@->symbol_args =~= Seq::<PatternModel>::empty());
                return Ok(call);
            }
        },
    }
    let _ = take(tokens);
    let state_args = match to_states(tokens) {
        Ok(list) => list,
        Err(e) => {
            return Err(e);
        },
    };
    let semi: bool = match peek(tokens, 0) {
        Err(e) => {
            return Err(e);
        },
        Ok((tag, _)) => tag == Tag::Semi,
    };
    let symbol_args = if semi {
        let _ = take(tokens);
        match patterns(tokens) {
            Ok(list) => list,
            Err(e) => {
                return Err(e);
            },
        }
    } else {
        let none: Vec<Pattern> = Vec::new();
        assert(patterns_view(none@) =~= Seq::<PatternModel>::empty());
        none
    };
    match expect(tokens, Tag::RParen, Ghost(KindModel::RParen), "`)`") {
        Ok(()) => {},
        Err(e) => {
            return Err(e);
        },
    }
    let ghost args = to_states_view(state_args@);
    let ghost symbols = patterns_view(symbol_args@);
    let call = ToState::State { name, state_args, symbol_args };
    assert(call@->state_args =~= args);
    assert(call@->symbol_args =~= symbols);
    Ok(call)
}

/// Reads a list of calls.
pub fn to_states(tokens: &mut Tokens) -> (r: Result<Vec<ToState>, Error>)
    requires
        old(tokens).wf(),
        old(tokens).next <= old(tokens).tokens.len(),
    ensures
        same_source(*old(tokens), *final(tokens)),
        final(tokens).next >= old(tokens).next,
        match to_states_spec(stream(*old(tokens)), old(tokens).next as int) {
            Ok((list, end)) => r is Ok && to_states_view(r->Ok_0@) == list && final(tokens).next
                == end,
            Err(f) => r is Err && r->Err_0@ == f && stopped_at(
                *old(tokens),
                *final(tokens),
                r->Err_0,
            ),
        },
    decreases old(tokens).tokens.len() - old(tokens).next, 1int,
{
    let mut out: Vec<ToState> = Vec::new();
    let ghost s = stream(*tokens);
    let ghost start = tokens.next as int;
    assert(to_states_view(out@) =~= Seq::<ToStateModel>::empty());
    loop
        invariant
            same_source(*old(tokens), *tokens),
            s == stream(*old(tokens)),
            start == old(tokens).next,
            tokens.next >= start,
            match to_states_spec(s, tokens.next as int) {
                Ok((rest, end)) => to_states_spec(s, start) == Ok::<
                    (Seq<ToStateModel>, int),
                    Failure,
                >((to_states_view(out@) + rest, end)),
                Err(f) => to_states_spec(s, start) == Err::<(Seq<ToStateModel>, int), Failure>(f),
            },
        decreases tokens.tokens.len() - tokens.next,
    {
        match peek(tokens, 0) {
            Err(e) => {
                return Err(e);
            },
            Ok((tag, _)) => {
                if tag != Tag::Name && tag != Tag::Bang {
                    assert(to_states_view(out@) + Seq::<ToStateModel>::empty()
                        =~= to_states_view(out@));
                    return Ok(out);
                }
            },
        }
        let ghost at = tokens.next;
        let item = match to_state(tokens) {
            Ok(item) => item,
            Err(e) => {
                return Err(e);
            },
        };
        let ghost before = to_states_view(out@);
        let ghost model = item@;
        out.push(item);
        assert(to_states_view(out@) =~= before.push(model));
        match peek(tokens, 0) {
            Err(e) => {
                return Err(e);
            },
            Ok((tag, _)) => {
                if tag != Tag::Comma {
                    assert(before + seq![model] =~= to_states_view(out@));
                    return Ok(out);
                }
            },
        }
        let _ = take(tokens);
        proof {
            match to_states_spec(s, tokens.next as int) {
                Ok((rest, end)) => {
                    assert(to_states_view(out@) + rest =~= before + (seq![model] + rest));
                },
                Err(f) => {},
            }
        }
    }
}

/// Reads an arm.
pub fn arm(tokens: &mut Tokens) -> (r: Result<Arm, Error>)
    requires
        old(tokens).wf(),
        old(tokens).next <= old(tokens).tokens.len(),
    ensures
        same_source(*old(tokens), *final(tokens)),
        final(tokens).next >= old(tokens).next,
        match arm_spec(stream(*old(tokens)), old(tokens).next as int) {
            Ok((item, end)) => r is Ok && r->Ok_0@ == item && final(tokens).next == end && end
                > old(tokens).next,
            Err(f) => r is Err && r->Err_0@ == f && stopped_at(
                *old(tokens),
                *final(tokens),
                r->Err_0,
            ),
        },
{
    let pattern = match pattern(tokens) {
        Ok(item) => item,
        Err(e) => {
            return Err(e);
        },
    };
    match expect(tokens, Tag::Bar, Ghost(KindModel::Bar), "`|`") {
        Ok(()) => {},
        Err(e) => {
            return Err(e);
        },
    }
    let ops = match ops(tokens) {
        Ok(list) => list,
        Err(e) => {
            return Err(e);
        },
    };
    match expect(tokens, Tag::Bar, Ghost(KindModel::Bar), "`|`") {
        Ok(()) => {},
        Err(e) => {
            return Err(e);
        },
    }
    let to_state = match to_state(tokens) {
        Ok(item) => item,
        Err(e) => {
            return Err(e);
        },
    };
    Ok(Arm { pattern, ops, to_state })
}

/// Reads the arms of a state, up to the brace after them.
pub fn arms(tokens: &mut Tokens) -> (r: Result<Vec<Arm>, Error>)
    requires
        old(tokens).wf(),
        old(tokens).next <= old(tokens).tokens.len(),
    ensures
        same_source(*old(tokens), *final(tokens)),
        final(tokens).next >= old(tokens).next,
        match arms_spec(stream(*old(tokens)), old(tokens).next as int) {
            Ok((list, end)) => r is Ok && arms_view(r->Ok_0@) == list && final(tokens).next == end,
            Err(f) => r is Err && r->Err_0@ == f && stopped_at(
                *old(tokens),
                *final(tokens),
                r->Err_0,
            ),
        },
{
    let mut out: Vec<Arm> = Vec::new();
    let ghost s = stream(*tokens);
    let ghost start = tokens.next as int;
    assert(arms_view(out@) =~= Seq::<ArmModel>::empty());
    loop
        invariant
            same_source(*old(tokens), *tokens),
            s == stream(*old(tokens)),
            start == old(tokens).next,
            tokens.next >= start,
            match arms_spec(s, tokens.next as int) {
                Ok((rest, end)) => arms_spec(s, start) == Ok::<(Seq<ArmModel>, int), Failure>(
                    (arms_view(out@) + rest, end),
                ),
                Err(f) => arms_spec(s, start) == Err::<(Seq<ArmModel>, int), Failure>(f),
            },
        decreases tokens.tokens.len() - tokens.next,
    {
        match peek(tokens, 0) {
            Err(e) => {
                return Err(e);
            },
            Ok((tag, _)) => {
                if tag == Tag::RBrace {
                    assert(arms_view(out@) + Seq::<ArmModel>::empty() =~= arms_view(out@));
                    return Ok(out);
                }
            },
        }
        let item = match arm(tokens) {
            Ok(item) => item,
            Err(e) => {
                return Err(e);
            },
        };
        let ghost before = arms_view(out@);
        let ghost model = item@;
        out.push(item);
        assert(arms_view(out@) =~= before.push(model));
        match peek(tokens, 0) {
            Err(e) => {
                return Err(e);
            },
            Ok((tag, _)) => {
                if tag != Tag::Comma {
                    assert(before + seq![model] =~= arms_view(out@));
                    return Ok(out);
                }
            },
        }
        let _ = take(tokens);
        proof {
            match arms_spec(s, tokens.next as int) {
                Ok((rest, end)) => {
                    assert(arms_view(out@) + rest =~= before + (seq![model] + rest));
                },
                Err(f) => {},
            }
        }
    }
}

/// Reads the parameters of a state, if it has any.
pub fn params(tokens: &mut Tokens) -> (r: Result<(Vec<Name>, Vec<Name>), Error>)
    requires
        old(tokens).wf(),
        old(tokens).next <= old(tokens).tokens.len(),
    ensures
        same_source(*old(tokens), *final(tokens)),
        final(tokens).next >= old(tokens).next,
        match params_spec(stream(*old(tokens)), old(tokens).next as int) {
            Ok((states, symbols, end)) => r is Ok && names_view(r->Ok_0.0@) == states
                && names_view(r->Ok_0.1@) == symbols && final(tokens).next == end,
            Err(f) => r is Err && r->Err_0@ == f && stopped_at(
                *old(tokens),
                *final(tokens),
                r->Err_0,
            ),
        },
{
    match peek(tokens, 0) {
        Err(e) => {
            return Err(e);
        },
        Ok((tag, _)) => {
            if tag != Tag::LParen {
                let none: (Vec<Name>, Vec<Name>) = (Vec::new(), Vec::new());
                assert(names_view(none.0@) =~= Seq::<NameModel>::empty());
                assert(names_view(none.1@) =~= Seq::<NameModel>::empty());
                return Ok(none);
            }
        },
    }
    let _ = take(tokens);
    let states = match names(tokens) {
        Ok(list) => list,
        Err(e) => {
            return Err(e);
        },
    };
    let semi: bool = match peek(tokens, 0) {
        Err(e) => {
            return Err(e);
        },
        Ok((tag, _)) => tag == Tag::Semi,
    };
    let symbols = if semi {
        let _ = take(tokens);
        match names(tokens) {
            Ok(list) => list,
            Err(e) => {
                return Err(e);
            },
        }
    } else {
        let none: Vec<Name> = Vec::new();
        assert(names_view(none@) =~= Seq::<NameModel>::empty());
        none
    };
    match expect(tokens, Tag::RParen, Ghost(KindModel::RParen), "`)`") {
        Ok(()) => {},
        Err(e) => {
            return Err(e);
        },
    }
    Ok((states, symbols))
}

/// Reads a state.
pub fn state(tokens: &mut Tokens) -> (r: Result<State, Error>)
    requires
        old(tokens).wf(),
        old(tokens).next <= old(tokens).tokens.len(),
    ensures
        same_source(*old(tokens), *final(tokens)),
        final(tokens).next >= old(tokens).next,
        match state_spec(stream(*old(tokens)), old(tokens).next as int) {
            Ok((item, end)) => r is Ok && r->Ok_0@ == item && final(tokens).next == end && end
                > old(tokens).next,
            Err(f) => r is Err && r->Err_0@ == f && stopped_at(
                *old(tokens),
                *final(tokens),
                r->Err_0,
            ),
        },
{
    match tokens.peek_at(0) {
        Err(e) => {
            return Err(e);
        },
        Ok(token) => {
            match token.kind.tag() {
                Tag::Name => {},
                _ => {
                    return Err(unexpected_token("name", token));
                },
            }
        },
    }
    let token = take(tokens);
    let name = match token.kind {
        TokenKind::Name(text) => Name { name: text, span: token.span },
        _ => unreached(),
    };
    let (state_params, symbol_params) = match params(tokens) {
        Ok(pair) => pair,
        Err(e) => {
            return Err(e);
        },
    };
    match expect(tokens, Tag::LBrace, Ghost(KindModel::LBrace), "`{`") {
        Ok(()) => {},
        Err(e) => {
            return Err(e);
        },
    }
    let arms = match arms(tokens) {
        Ok(list) => list,
        Err(e) => {
            return Err(e);
        },
    };
    match expect(tokens, Tag::RBrace, Ghost(KindModel::RBrace), "`}`") {
        Ok(()) => {},
        Err(e) => {
            return Err(e);
        },
    }
    Ok(State { name, state_params, symbol_params, arms })
}

/// Reads a program: its states, up to the end of the file.
pub fn parse(tokens: Tokens) -> (r: Result<Vec<State>, Error>)
    requires
        tokens.wf(),
        tokens.next <= tokens.tokens.len(),
    ensures
        match unit_spec(stream(tokens), tokens.next as int) {
            Ok(unit) => r is Ok && states_view(r->Ok_0@) == unit,
            Err(f) => r is Err && r->Err_0@ == f,
        },
{
    let mut reader = tokens;
    let mut out: Vec<State> = Vec::new();
    let ghost s = stream(tokens);
    let ghost start = tokens.next as int;
    assert(states_view(out@) =~= Seq::<StateModel>::empty());
    loop
        invariant
            same_source(tokens, reader),
            s == stream(tokens),
            start == tokens.next,
            reader.next >= start,
            match unit_spec(s, reader.next as int) {
                Ok(rest) => unit_spec(s, start) == Ok::<Seq<StateModel>, Failure>(
                    states_view(out@) + rest,
                ),
                Err(f) => unit_spec(s, start) == Err::<Seq<StateModel>, Failure>(f),
            },
        decreases reader.tokens.len() - reader.next,
    {
        match peek(&reader, 0) {
            Err(e) => {
                return Err(e);
            },
            Ok((tag, _)) => {
                if tag == Tag::Eof {
                    assert(states_view(out@) + Seq::<StateModel>::empty() =~= states_view(out@));
                    return Ok(out);
                }
            },
        }
        let item = match state(&mut reader) {
            Ok(item) => item,
            Err(e) => {
                return Err(e);
            },
        };
        let ghost before = states_view(out@);
        let ghost model = item@;
        out.push(item);
        proof {
            assert(states_view(out@) =~= before.push(model));
            match unit_spec(s, reader.next as int) {
                Ok(rest) => {
                    assert(states_view(out@) + rest =~= before + (seq![model] + rest));
                },
                Err(f) => {},
            }
        }
    }
}

/// Reads an initial tape: its symbols, up to the end of the file.
pub fn parse_tape(tokens: Tokens) -> (r: Result<Vec<Symbol>, Error>)
    requires
        tokens.wf(),
        tokens.next <= tokens.tokens.len(),
    ensures
        match tape_spec(stream(tokens), tokens.next as int) {
            Ok(tape) => r is Ok && symbols_view(r->Ok_0@) == tape,
            Err(f) => r is Err && r->Err_0@ == f,
        },
{
    let mut reader = tokens;
    let mut out: Vec<Symbol> = Vec::new();
    let ghost s = stream(tokens);
    let ghost start = tokens.next as int;
    assert(symbols_view(out@) =~= Seq::<SymbolModel>::empty());
    loop
        invariant
            same_source(tokens, reader),
            s == stream(tokens),
            start == tokens.next,
            reader.next >= start,
            match tape_spec(s, reader.next as int) {
                Ok(rest) => tape_spec(s, start) == Ok::<Seq<SymbolModel>, Failure>(
                    symbols_view(out@) + rest,
                ),
                Err(f) => tape_spec(s, start) == Err::<Seq<SymbolModel>, Failure>(f),
            },
        decreases reader.tokens.len() - reader.next,
    {
        match reader.peek_at(0) {
            Err(e) => {
                return Err(e);
            },
            Ok(token) => {
                match token.kind.tag() {
                    Tag::Eof => {
                        assert(symbols_view(out@) + Seq::<SymbolModel>::empty() =~= symbols_view(
                            out@,
                        ));
                        return Ok(out);
                    },
                    Tag::Symbol => {},
                    _ => {
                        return Err(unexpected_token("symbol", token));
                    },
                }
            },
        }
        let token = take(&mut reader);
        let item = match token.kind {
            TokenKind::Symbol(text) => Symbol { symbol: text, span: token.span },
            _ => unreached(),
        };
        let ghost before = symbols_view(out@);
        let ghost model = item@;
        out.push(item);
        proof {
            assert(symbols_view(out@) =~= before.push(model));
            match tape_spec(s, reader.next as int) {
                Ok(rest) => {
                    assert(symbols_view(out@) + rest =~= before + (seq![model] + rest));
                },
                Err(f) => {},
            }
        }
    }
}

} // verus!
