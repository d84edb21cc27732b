//! What the compiler writes, as mathematics: the meaning of every step of
//! compilation as a function from the compiler's state to its next state.
//!
//! The compiler's state is a [`Model`]. A step either gives the next state
//! or fails with a [`Failure`]. Where a step fails, the compiler stops
//! with what it has written up to the fault: the functions whose names end
//! in `_stop` give that state.

use vstd::prelude::*;
use crate::bytecode::{
    le16, u16_at, COMPARE_ARG, COMPARE_VAL, HALT, HALT_ADDRESS, Instr, OTHER, UNRESOLVED,
};
use crate::encoder::{patched16, patched32};
use crate::error::{ErrorKind, Failure};
use crate::lex::Span;
use crate::parse::{Arm, Name, Op, OpKind, Pattern, State, Symbol, ToState};
use crate::symbols::{blank_table, interned};

verus! {

/// What identifies a state: its name and the numbers of its state
/// parameters and symbol parameters.
pub struct SigModel {
    pub name: Seq<char>,
    pub states: int,
    pub symbols: int,
}

/// The signature of a state, as the compiler holds it.
#[derive(Debug)]
pub struct Signature {
    pub name: String,
    pub states: usize,
    pub symbols: usize,
}

impl View for Signature {
    type V = SigModel;

    open spec fn view(&self) -> SigModel {
        SigModel { name: self.name@, states: self.states as int, symbols: self.symbols as int }
    }
}

/// A reserved address slot that waits for the state with a signature.
#[derive(Debug)]
pub struct ForwardRef {
    pub signature: Signature,
    /// Offset of the four bytes of the slot.
    pub location: usize,
    /// Where the call stands in the source.
    pub span: Span,
}

/// The names in scope inside an arm.
pub struct Scope {
    /// The state parameters, by index.
    pub states: Seq<Seq<char>>,
    /// The symbol parameters, by index.
    pub symbols: Seq<Seq<char>>,
    /// The catch-all binding of the arm, if it has one.
    pub bound: Option<Seq<char>>,
}

/// The state of the compiler.
pub struct Model {
    /// The program written so far.
    pub bytes: Seq<u8>,
    /// Every whole instruction written so far, in order, as it was when
    /// written. A comparison is whole once its skip is reserved.
    pub trace: Seq<Instr>,
    /// The symbol table.
    pub table: Map<Seq<char>, u16>,
    /// The address slots that are not resolved yet, oldest first.
    pub refs: Seq<ForwardRef>,
    /// The signatures declared so far, each with its address.
    pub addrs: Seq<(Signature, u32)>,
    /// The name of the state at each address.
    pub names: Map<u32, String>,
    /// For each state parameter of the arm being compiled, how many of its
    /// uses are still to be written.
    pub counts: Seq<usize>,
    /// The address slot of every call of a named state written so far, in
    /// order: its offset and the signature that the call names.
    pub slots: Seq<(int, SigModel)>,
    /// For every arm written so far that is not the last of its state: the
    /// offset of its pattern and the offset of the arm after it.
    pub skips: Seq<(int, int)>,
}

impl Model {
    /// The state after `instr` is written.
    pub open spec fn put(self, instr: Instr) -> Model {
        Model { bytes: self.bytes + instr.encoding(), trace: self.trace.push(instr), ..self }
    }
}

/// The header of an empty program: no states, an unresolved entry address,
/// and the halt state.
pub open spec fn header() -> Seq<u8> {
    seq![0u8, 0u8, 0xffu8, 0xffu8, 0xffu8, 0xffu8, HALT]
}

/// The compiler before the first declaration.
pub open spec fn start_model() -> Model {
    Model {
        bytes: header(),
        trace: Seq::empty(),
        table: blank_table(),
        refs: Seq::empty(),
        addrs: Seq::empty(),
        names: Map::empty(),
        counts: Seq::empty(),
        slots: Seq::empty(),
        skips: Seq::empty(),
    }
}

/// The names of a parameter list.
pub open spec fn names_of(params: Seq<Name>) -> Seq<Seq<char>> {
    Seq::new(params.len(), |i: int| params[i].name@)
}

/// The first index below `n` at which `name` stands in `names`.
pub open spec fn index_below(names: Seq<Seq<char>>, name: Seq<char>, n: int) -> Option<int>
    decreases n,
{
    if n <= 0 {
        None
    } else {
        match index_below(names, name, n - 1) {
            Some(i) => Some(i),
            None => if names[n - 1] == name {
                Some(n - 1)
            } else {
                None
            },
        }
    }
}

/// The first index at which `name` stands in `names`.
pub open spec fn index_of(names: Seq<Seq<char>>, name: Seq<char>) -> Option<int> {
    index_below(names, name, names.len() as int)
}

/// The first fault among the first `n` parameters: a name that an earlier
/// parameter has, or a parameter after the 256th.
pub open spec fn params_error(params: Seq<Name>, n: int) -> Option<Failure>
    decreases n,
{
    if n <= 0 {
        None
    } else {
        match params_error(params, n - 1) {
            Some(f) => Some(f),
            None => if index_below(names_of(params), params[n - 1].name@, n - 1) is Some {
                Some(
                    Failure {
                        kind: ErrorKind::DuplicateParameter,
                        span: Some(params[n - 1].span),
                    },
                )
            } else if n - 1 >= 256 {
                Some(
                    Failure { kind: ErrorKind::TooManyParameters, span: Some(params[n - 1].span) },
                )
            } else {
                None
            },
        }
    }
}

/// The address declared for `sig`, if any.
pub open spec fn lookup(addrs: Seq<(Signature, u32)>, sig: SigModel) -> Option<u32>
    decreases addrs.len(),
{
    if addrs.len() == 0 {
        None
    } else if addrs.last().0@ == sig {
        Some(addrs.last().1)
    } else {
        lookup(addrs.drop_last(), sig)
    }
}

/// A move of `n` cells to the left, in as few instructions as possible.
pub open spec fn lefts(m: Model, n: int) -> Model
    decreases n,
{
    if n >= 255 {
        lefts(m.put(Instr::LeftN(255)), n - 255)
    } else if n == 1 {
        m.put(Instr::Left)
    } else if n > 0 {
        m.put(Instr::LeftN(n as u8))
    } else {
        m
    }
}

/// A move of `n` cells to the right, in as few instructions as possible.
pub open spec fn rights(m: Model, n: int) -> Model
    decreases n,
{
    if n >= 255 {
        rights(m.put(Instr::RightN(255)), n - 255)
    } else if n == 1 {
        m.put(Instr::Right)
    } else if n > 0 {
        m.put(Instr::RightN(n as u8))
    } else {
        m
    }
}

/// A move by `offset` cells: to the right if positive, to the left if
/// negative, nothing if zero.
pub open spec fn moved(m: Model, offset: int) -> Model {
    if offset < 0 {
        lefts(m, -offset)
    } else {
        rights(m, offset)
    }
}

/// A write of the symbol called `name`: a symbol parameter first, the
/// catch-all binding second.
pub open spec fn named_write(scope: Scope, name: Seq<char>) -> Option<Instr> {
    match index_of(scope.symbols, name) {
        Some(i) => Some(Instr::WriteArg(i as u8)),
        None => if scope.bound == Some(name) {
            Some(Instr::WriteBound)
        } else {
            None
        },
    }
}

/// A symbol argument called `name`: a symbol parameter first, the catch-all
/// binding second.
pub open spec fn named_symbol(scope: Scope, name: Seq<char>) -> Option<Instr> {
    match index_of(scope.symbols, name) {
        Some(i) => Some(Instr::SymbolArg(i as u8)),
        None => if scope.bound == Some(name) {
            Some(Instr::SymbolBound)
        } else {
            None
        },
    }
}

/// The compiler and the pending displacement of the head after one more
/// operation. Moves only add to the displacement; a write first makes the
/// pending move.
pub open spec fn op_step(m: Model, offset: int, op: Op, scope: Scope) -> Result<
    (Model, int),
    Failure,
> {
    match op.kind {
        OpKind::Left => Ok((m, offset - 1)),
        OpKind::Right => Ok((m, offset + 1)),
        OpKind::Name(name) => match named_write(scope, name@) {
            Some(instr) => Ok((moved(m, offset).put(instr), 0)),
            None => Err(Failure { kind: ErrorKind::UnresolvedName, span: Some(op.span) }),
        },
        OpKind::Symbol(text) => match interned(m.table, text@) {
            Some((table, id)) => Ok(
                (Model { table, ..moved(m, offset) }.put(Instr::WriteVal(id)), 0),
            ),
            None => Err(Failure { kind: ErrorKind::TooManySymbols, span: Some(op.span) }),
        },
    }
}

/// The compiler and the pending displacement after the first `n`
/// operations.
pub open spec fn ops_upto(m: Model, ops: Seq<Op>, n: int, scope: Scope) -> Result<
    (Model, int),
    Failure,
>
    decreases n,
{
    if n <= 0 {
        Ok((m, 0))
    } else {
        match ops_upto(m, ops, n - 1, scope) {
            Err(f) => Err(f),
            Ok((m1, offset)) => op_step(m1, offset, ops[n - 1], scope),
        }
    }
}

/// The compiler after the operations of an arm.
pub open spec fn ops_spec(m: Model, ops: Seq<Op>, scope: Scope) -> Result<Model, Failure> {
    match ops_upto(m, ops, ops.len() as int, scope) {
        Err(f) => Err(f),
        Ok((m1, offset)) => Ok(moved(m1, offset)),
    }
}

/// How often the call `t` names the state parameter `i`.
pub open spec fn uses(t: ToState, states: Seq<Seq<char>>, i: int) -> int
    decreases t, 1int, 0int,
{
    match t {
        ToState::Halt { .. } => 0,
        ToState::State { name, state_args, symbol_args } => match index_of(states, name.name@) {
            Some(j) => if j == i {
                1
            } else {
                0
            },
            None => uses_upto(t, state_args.len() as int, states, i),
        },
    }
}

/// How often the first `n` state arguments of the call `t` name the state
/// parameter `i`.
pub open spec fn uses_upto(t: ToState, n: int, states: Seq<Seq<char>>, i: int) -> int
    decreases t, 0int, n,
{
    match t {
        ToState::Halt { .. } => 0,
        ToState::State { name, state_args, symbol_args } => if n <= 0 || n > state_args.len() {
            0
        } else {
            uses_upto(t, n - 1, states, i) + uses(state_args[n - 1], states, i)
        },
    }
}

/// The first state parameter, in the order of the source, that the call `t`
/// gives arguments to.
pub open spec fn call_error(t: ToState, states: Seq<Seq<char>>) -> Option<Failure>
    decreases t, 1int, 0int,
{
    match t {
        ToState::Halt { .. } => None,
        ToState::State { name, state_args, symbol_args } => match index_of(states, name.name@) {
            Some(_) => if state_args.len() == 0 && symbol_args.len() == 0 {
                None
            } else {
                Some(Failure { kind: ErrorKind::StateParamNotCallable, span: Some(name.span) })
            },
            None => call_error_upto(t, state_args.len() as int, states),
        },
    }
}

/// [`call_error`] among the first `n` state arguments of the call `t`.
pub open spec fn call_error_upto(t: ToState, n: int, states: Seq<Seq<char>>) -> Option<Failure>
    decreases t, 0int, n,
{
    match t {
        ToState::Halt { .. } => None,
        ToState::State { name, state_args, symbol_args } => if n <= 0 || n > state_args.len() {
            None
        } else {
            match call_error_upto(t, n - 1, states) {
                Some(f) => Some(f),
                None => call_error(state_args[n - 1], states),
            }
        },
    }
}

/// How often the call `t` names the state parameter `i` before the first
/// state parameter that is given arguments.
pub open spec fn uses_before(t: ToState, states: Seq<Seq<char>>, i: int) -> int
    decreases t, 1int, 0int,
{
    match t {
        ToState::Halt { .. } => 0,
        ToState::State { name, state_args, symbol_args } => match index_of(states, name.name@) {
            Some(j) => if j == i && state_args.len() == 0 && symbol_args.len() == 0 {
                1
            } else {
                0
            },
            None => uses_before_upto(t, state_args.len() as int, states, i),
        },
    }
}

/// [`uses_before`] among the first `n` state arguments of the call `t`.
pub open spec fn uses_before_upto(t: ToState, n: int, states: Seq<Seq<char>>, i: int) -> int
    decreases t, 0int, n,
{
    match t {
        ToState::Halt { .. } => 0,
        ToState::State { name, state_args, symbol_args } => if n <= 0 || n > state_args.len() {
            0
        } else {
            match call_error_upto(t, n - 1, states) {
                Some(_) => uses_before_upto(t, n - 1, states, i),
                None => uses_upto(t, n - 1, states, i) + uses_before(state_args[n - 1], states, i),
            }
        },
    }
}

/// The compiler after the first `n` state parameters are released where
/// they have no use.
pub open spec fn frees_upto(m: Model, n: int) -> Model
    decreases n,
{
    if n <= 0 {
        m
    } else {
        let m1 = frees_upto(m, n - 1);
        if m.counts[n - 1] == 0 {
            m1.put(Instr::FreeArg((n - 1) as u8))
        } else {
            m1
        }
    }
}

/// The compiler after every state parameter without a use is released.
pub open spec fn frees(m: Model) -> Model {
    frees_upto(m, m.counts.len() as int)
}

/// The compiler after one symbol argument.
pub open spec fn symbol_arg_step(m: Model, p: Pattern, scope: Scope) -> Result<Model, Failure> {
    match p {
        Pattern::Symbol(symbol) => match interned(m.table, symbol.symbol@) {
            Some((table, id)) => Ok(Model { table, ..m }.put(Instr::SymbolVal(id))),
            None => Err(Failure { kind: ErrorKind::TooManySymbols, span: Some(symbol.span) }),
        },
        Pattern::Name(name) => match named_symbol(scope, name.name@) {
            Some(instr) => Ok(m.put(instr)),
            None => Err(Failure { kind: ErrorKind::UnresolvedName, span: Some(name.span) }),
        },
    }
}

/// The compiler after the first `n` symbol arguments.
pub open spec fn symbol_args_upto(m: Model, args: Seq<Pattern>, n: int, scope: Scope) -> Result<
    Model,
    Failure,
>
    decreases n,
{
    if n <= 0 {
        Ok(m)
    } else {
        match symbol_args_upto(m, args, n - 1, scope) {
            Err(f) => Err(f),
            Ok(m1) => symbol_arg_step(m1, args[n - 1], scope),
        }
    }
}

/// The instruction that ends a call of the state at `address`: in outer
/// position it makes that state the current one, in nested position it
/// makes a record of it with `states` state arguments. The count is one
/// byte: a call with 256 state arguments, the most that a declaration can
/// take, is written with the count 0.
pub open spec fn call_instr(outer: bool, states: int, address: u32) -> Instr {
    if outer {
        Instr::FinalState(address)
    } else {
        Instr::MakeState((states % 256) as u8, address)
    }
}

/// The compiler after the instruction that ends a call of `sig`. An outer
/// call first releases the state parameters without a use. Where `sig` is
/// declared, the call holds its address; where it is not declared yet, the
/// address is left unresolved and the slot waits.
pub open spec fn finish_call(m: Model, sig: Signature, span: Span, outer: bool) -> Model {
    let m1 = if outer {
        frees(m)
    } else {
        m
    };
    let location = m1.bytes.len() + if outer {
        1int
    } else {
        2int
    };
    match lookup(m.addrs, sig@) {
        Some(address) => Model {
            slots: m1.slots.push((location, sig@)),
            ..m1.put(call_instr(outer, sig.states as int, address))
        },
        None => {
            Model {
                refs: m1.refs.push(
                    ForwardRef { signature: sig, location: location as usize, span },
                ),
                slots: m1.slots.push((location, sig@)),
                ..m1.put(call_instr(outer, sig.states as int, UNRESOLVED))
            }
        },
    }
}

/// The compiler after the call `t`, in outer or in nested position.
///
/// A name that is a state parameter is a use of it: the last use takes the
/// parameter (in outer position it becomes the current state), every
/// earlier one clones it. Any other name is a call of a state: its state
/// arguments are written first, its symbol arguments next, the call last.
pub open spec fn call_spec(m: Model, t: ToState, scope: Scope, outer: bool) -> Result<
    Model,
    Failure,
>
    decreases t, 1int, 0int,
{
    match t {
        ToState::Halt { .. } => if outer {
            Ok(frees(m).put(Instr::FinalState(HALT_ADDRESS)))
        } else {
            Ok(m.put(Instr::MakeState(0, HALT_ADDRESS)))
        },
        ToState::State { name, state_args, symbol_args } => match index_of(
            scope.states,
            name.name@,
        ) {
            Some(i) => if m.counts[i] == 1 {
                if outer {
                    Ok(frees(m).put(Instr::FinalArg(i as u8)))
                } else {
                    Ok(m.put(Instr::TakeArg(i as u8)))
                }
            } else {
                Ok(
                    Model { counts: m.counts.update(i, (m.counts[i] - 1) as usize), ..m }.put(
                        Instr::CloneArg(i as u8),
                    ),
                )
            },
            None => match state_args_upto(m, t, state_args.len() as int, scope) {
                Err(f) => Err(f),
                Ok(m1) => match symbol_args_upto(
                    m1,
                    symbol_args@,
                    symbol_args.len() as int,
                    scope,
                ) {
                    Err(f) => Err(f),
                    Ok(m2) => Ok(
                        finish_call(
                            m2,
                            Signature {
                                name: name.name,
                                states: state_args.len(),
                                symbols: symbol_args.len(),
                            },
                            name.span,
                            outer,
                        ),
                    ),
                },
            },
        },
    }
}

/// The compiler after the first `n` state arguments of the call `t`.
pub open spec fn state_args_upto(m: Model, t: ToState, n: int, scope: Scope) -> Result<
    Model,
    Failure,
>
    decreases t, 0int, n,
{
    match t {
        ToState::Halt { .. } => Ok(m),
        ToState::State { name, state_args, symbol_args } => if n <= 0 || n > state_args.len() {
            Ok(m)
        } else {
            match state_args_upto(m, t, n - 1, scope) {
                Err(f) => Err(f),
                Ok(m1) => call_spec(m1, state_args[n - 1], scope, false),
            }
        },
    }
}

/// The compiler after the pattern of an arm, and the catch-all binding
/// that the pattern makes. Only the opcode and the operand are written:
/// the skip of a comparison is not. Only the last arm may be a catch-all,
/// and it must be one.
pub open spec fn pattern_spec(m: Model, p: Pattern, symbols: Seq<Seq<char>>, is_last: bool)
    -> Result<(Model, Option<Seq<char>>), Failure> {
    match p {
        Pattern::Symbol(symbol) => if is_last {
            Err(Failure { kind: ErrorKind::LastArmNotCatchall, span: Some(symbol.span) })
        } else {
            match interned(m.table, symbol.symbol@) {
                Some((table, id)) => Ok(
                    (Model { table, bytes: m.bytes + seq![COMPARE_VAL] + le16(id), ..m }, None),
                ),
                None => Err(Failure { kind: ErrorKind::TooManySymbols, span: Some(symbol.span) }),
            }
        },
        Pattern::Name(name) => match index_of(symbols, name.name@) {
            Some(i) => if is_last {
                Err(Failure { kind: ErrorKind::LastArmNotCatchall, span: Some(name.span) })
            } else {
                Ok((Model { bytes: m.bytes + seq![COMPARE_ARG, i as u8], ..m }, None))
            },
            None => if is_last {
                Ok((Model { bytes: m.bytes + seq![OTHER], ..m }, Some(name.name@)))
            } else {
                Err(Failure { kind: ErrorKind::CatchallNotLast, span: Some(name.span) })
            },
        },
    }
}

/// The instruction that the pattern `p` opens an arm with, its skip
/// unresolved. `m` is the compiler before the pattern.
pub open spec fn pattern_instr(m: Model, p: Pattern, symbols: Seq<Seq<char>>) -> Instr {
    match p {
        Pattern::Symbol(symbol) => match interned(m.table, symbol.symbol@) {
            Some((_, id)) => Instr::CompareVal(id, u16::MAX),
            None => Instr::Other,
        },
        Pattern::Name(name) => match index_of(symbols, name.name@) {
            Some(i) => Instr::CompareArg(i as u8, u16::MAX),
            None => Instr::Other,
        },
    }
}

/// The compiler after the skip of an arm is reserved. `m` is the compiler
/// after the pattern; with the two bytes of the skip, which only an arm
/// that is not the last has, the pattern is the whole instruction `instr`.
pub open spec fn reserved(m: Model, instr: Instr, is_last: bool) -> Model {
    Model {
        bytes: if is_last {
            m.bytes
        } else {
            m.bytes + le16(u16::MAX)
        },
        trace: m.trace.push(instr),
        ..m
    }
}

/// The compiler after the pattern of an arm and the skip reserved for it,
/// and the catch-all binding that the pattern makes.
pub open spec fn opened(m: Model, p: Pattern, symbols: Seq<Seq<char>>, is_last: bool) -> Result<
    (Model, Option<Seq<char>>),
    Failure,
> {
    match pattern_spec(m, p, symbols, is_last) {
        Err(f) => Err(f),
        Ok((m1, bound)) => Ok((reserved(m1, pattern_instr(m, p, symbols), is_last), bound)),
    }
}

/// An arm is opened by one whole instruction: the pattern, with an
/// unresolved skip where it is a comparison.
pub proof fn lemma_opened(m: Model, p: Pattern, symbols: Seq<Seq<char>>, is_last: bool)
    requires
        opened(m, p, symbols, is_last) is Ok,
    ensures
        opened(m, p, symbols, is_last)->Ok_0.0 == (Model {
            table: opened(m, p, symbols, is_last)->Ok_0.0.table,
            ..m
        }).put(pattern_instr(m, p, symbols)),
        (pattern_instr(m, p, symbols) == Instr::Other) == is_last,
{
    let after = opened(m, p, symbols, is_last)->Ok_0.0;
    let whole = (Model { table: after.table, ..m }).put(pattern_instr(m, p, symbols));
    assert(after.bytes =~= whole.bytes);
}

/// `n` as a machine integer, or the largest machine integer if `n` is
/// larger.
pub open spec fn clamped(n: int) -> usize {
    if n > usize::MAX {
        usize::MAX
    } else {
        n as usize
    }
}

/// The number of uses of each state parameter in the call `t`, as far as a
/// machine integer can count.
pub open spec fn use_counts(t: ToState, states: Seq<Seq<char>>) -> Seq<usize> {
    Seq::new(states.len(), |i: int| clamped(uses(t, states, i)))
}

/// The compiler after one arm: the pattern, the skip over the rest of the
/// arm unless the arm is the last, the operations, and the outer call. The
/// skip is reserved after the pattern and resolved after the call.
pub open spec fn arm_spec(
    m: Model,
    arm: Arm,
    states: Seq<Seq<char>>,
    symbols: Seq<Seq<char>>,
    is_last: bool,
) -> Result<Model, Failure> {
    match opened(m, arm.pattern, symbols, is_last) {
        Err(f) => Err(f),
        Ok((m1, bound)) => {
            let scope = Scope { states, symbols, bound };
            let location = m1.bytes.len() - 2;
            match ops_spec(m1, arm.ops@, scope) {
                Err(f) => Err(f),
                Ok(m2) => match call_error(arm.to_state, states) {
                    Some(f) => Err(f),
                    None => match call_spec(
                        Model { counts: use_counts(arm.to_state, states), ..m2 },
                        arm.to_state,
                        scope,
                        true,
                    ) {
                        Err(f) => Err(f),
                        Ok(m3) => if is_last {
                            Ok(m3)
                        } else if m3.bytes.len() - location - 2 > u16::MAX {
                            Err(
                                Failure {
                                    kind: ErrorKind::ArmTooLarge,
                                    span: Some(arm.pattern.span()),
                                },
                            )
                        } else {
                            Ok(
                                Model {
                                    bytes: patched16(
                                        m3.bytes,
                                        location,
                                        (m3.bytes.len() - location - 2) as u16,
                                    ),
                                    skips: m3.skips.push(
                                        (m.bytes.len() as int, m3.bytes.len() as int),
                                    ),
                                    ..m3
                                },
                            )
                        },
                    },
                },
            }
        },
    }
}

/// The compiler after the first `n` arms of a state.
pub open spec fn arms_upto(
    m: Model,
    arms: Seq<Arm>,
    n: int,
    states: Seq<Seq<char>>,
    symbols: Seq<Seq<char>>,
) -> Result<Model, Failure>
    decreases n,
{
    if n <= 0 {
        Ok(m)
    } else {
        match arms_upto(m, arms, n - 1, states, symbols) {
            Err(f) => Err(f),
            Ok(m1) => arm_spec(m1, arms[n - 1], states, symbols, n == arms.len()),
        }
    }
}

/// `bytes` after every slot among the first `n` of `refs` that waits for
/// `sig` is given `address`.
pub open spec fn resolved_upto(
    bytes: Seq<u8>,
    refs: Seq<ForwardRef>,
    n: int,
    sig: SigModel,
    address: u32,
) -> Seq<u8>
    decreases n,
{
    if n <= 0 {
        bytes
    } else {
        let before = resolved_upto(bytes, refs, n - 1, sig, address);
        if refs[n - 1].signature@ == sig {
            patched32(before, refs[n - 1].location as int, address)
        } else {
            before
        }
    }
}

/// Those among the first `n` of `refs` that do not wait for `sig`.
pub open spec fn waiting_upto(refs: Seq<ForwardRef>, n: int, sig: SigModel) -> Seq<ForwardRef>
    decreases n,
{
    if n <= 0 {
        Seq::empty()
    } else {
        let before = waiting_upto(refs, n - 1, sig);
        if refs[n - 1].signature@ == sig {
            before
        } else {
            before.push(refs[n - 1])
        }
    }
}

/// The signature of a declaration.
pub open spec fn sig_of(state: State) -> Signature {
    Signature {
        name: state.name.name,
        states: state.state_params.len(),
        symbols: state.symbol_params.len(),
    }
}

/// The compiler after the head of a declaration: the state is counted in
/// the header, its parameters are checked, its address is the end of the
/// program so far, the slots that wait for it are resolved, and its
/// signature is recorded.
pub open spec fn declared(m: Model, state: State) -> Result<Model, Failure> {
    let count = u16_at(m.bytes, 0);
    if count == u16::MAX {
        Err(Failure { kind: ErrorKind::TooManyStates, span: Some(state.name.span) })
    } else {
        match params_error(state.state_params@, state.state_params.len() as int) {
            Some(f) => Err(f),
            None => match params_error(state.symbol_params@, state.symbol_params.len() as int) {
                Some(f) => Err(f),
                None => {
                    let address = m.bytes.len() as u32;
                    let sig = sig_of(state);
                    if lookup(m.addrs, sig@) is Some {
                        Err(
                            Failure {
                                kind: ErrorKind::DuplicateState,
                                span: Some(state.name.span),
                            },
                        )
                    } else {
                        Ok(
                            Model {
                                bytes: resolved_upto(
                                    patched16(m.bytes, 0, (count + 1) as u16),
                                    m.refs,
                                    m.refs.len() as int,
                                    sig@,
                                    address,
                                ),
                                refs: waiting_upto(m.refs, m.refs.len() as int, sig@),
                                addrs: m.addrs.push((sig, address)),
                                names: m.names.insert(address, state.name.name),
                                ..m
                            },
                        )
                    }
                },
            },
        }
    }
}

/// The compiler after one declaration.
pub open spec fn state_spec(m: Model, state: State) -> Result<Model, Failure> {
    match declared(m, state) {
        Err(f) => Err(f),
        Ok(m1) => arms_upto(
            m1,
            state.arms@,
            state.arms.len() as int,
            names_of(state.state_params@),
            names_of(state.symbol_params@),
        ),
    }
}

/// The compiler after the first `n` declarations of a program.
pub open spec fn states_upto(unit: Seq<State>, n: int) -> Result<Model, Failure>
    decreases n,
{
    if n <= 0 {
        Ok(start_model())
    } else {
        match states_upto(unit, n - 1) {
            Err(f) => Err(f),
            Ok(m) => state_spec(m, unit[n - 1]),
        }
    }
}

/// The signature of the entry state: `start`, without parameters.
pub open spec fn start_sig() -> SigModel {
    SigModel { name: "start"@, states: 0, symbols: 0 }
}

/// The compiler after a whole program: every declaration in order; then no
/// slot may be left unresolved, and the address of `start` is written
/// into the header. A slot left unresolved is reported at the oldest such
/// slot. A missing `start` is reported without a place: no token is at
/// fault.
pub open spec fn program_spec(unit: Seq<State>) -> Result<Model, Failure> {
    match states_upto(unit, unit.len() as int) {
        Err(f) => Err(f),
        Ok(m) => if m.refs.len() > 0 {
            Err(Failure { kind: ErrorKind::NoSuchFunction, span: Some(m.refs[0].span) })
        } else {
            match lookup(m.addrs, start_sig()) {
                None => Err(Failure { kind: ErrorKind::NoStart, span: None }),
                Some(address) => Ok(Model { bytes: patched32(m.bytes, 2, address), ..m }),
            }
        },
    }
}

/// The symbol table and the identifiers of the first `n` symbols of an
/// initial tape, interned in order into `table`.
pub open spec fn tape_upto(table: Map<Seq<char>, u16>, symbols: Seq<Symbol>, n: int) -> Result<
    (Map<Seq<char>, u16>, Seq<u16>),
    Failure,
>
    decreases n,
{
    if n <= 0 {
        Ok((table, Seq::empty()))
    } else {
        match tape_upto(table, symbols, n - 1) {
            Err(f) => Err(f),
            Ok((t1, ids)) => match interned(t1, symbols[n - 1].symbol@) {
                Some((t2, id)) => Ok((t2, ids.push(id))),
                None => Err(
                    Failure { kind: ErrorKind::TooManySymbols, span: Some(symbols[n - 1].span) },
                ),
            },
        }
    }
}

/// The compiler where the operations of an arm stop at a fault: after the
/// operations before the first that fails, with a move that is pending not
/// made.
pub open spec fn ops_stop(m: Model, ops: Seq<Op>, n: int, scope: Scope) -> Model
    decreases n,
{
    if n <= 0 {
        m
    } else {
        match ops_upto(m, ops, n, scope) {
            Ok((m1, _)) => m1,
            Err(_) => ops_stop(m, ops, n - 1, scope),
        }
    }
}

/// The compiler where the symbol arguments of a call stop at a fault:
/// after the arguments before the first that fails.
pub open spec fn symbol_args_stop(m: Model, args: Seq<Pattern>, n: int, scope: Scope) -> Model
    decreases n,
{
    if n <= 0 {
        m
    } else {
        match symbol_args_upto(m, args, n, scope) {
            Ok(m1) => m1,
            Err(_) => symbol_args_stop(m, args, n - 1, scope),
        }
    }
}

/// The compiler where the call `t` stops at a fault: inside the first
/// state argument that fails, or else at the first symbol argument that
/// fails.
pub open spec fn call_stop(m: Model, t: ToState, scope: Scope) -> Model
    decreases t, 1int, 0int,
{
    match t {
        ToState::Halt { .. } => m,
        ToState::State { name, state_args, symbol_args } => match index_of(
            scope.states,
            name.name@,
        ) {
            Some(_) => m,
            None => match state_args_upto(m, t, state_args.len() as int, scope) {
                Err(_) => state_args_stop(m, t, state_args.len() as int, scope),
                Ok(m1) => symbol_args_stop(m1, symbol_args@, symbol_args.len() as int, scope),
            },
        },
    }
}

/// The compiler where the first `n` state arguments of the call `t` stop
/// at a fault: inside the first of them that fails.
pub open spec fn state_args_stop(m: Model, t: ToState, n: int, scope: Scope) -> Model
    decreases t, 0int, n,
{
    match t {
        ToState::Halt { .. } => m,
        ToState::State { name, state_args, symbol_args } => if n <= 0 || n > state_args.len() {
            m
        } else {
            match state_args_upto(m, t, n - 1, scope) {
                Err(_) => state_args_stop(m, t, n - 1, scope),
                Ok(m1) => call_stop(m1, state_args[n - 1], scope),
            }
        },
    }
}

/// The compiler where an arm stops at a fault. A pattern that fails writes
/// nothing; operations and a call stop where they stop; a call that gives
/// arguments to a state parameter is found before any of it is written;
/// an arm that is too large is found when all of it is written, with its
/// skip unresolved.
pub open spec fn arm_stop(
    m: Model,
    arm: Arm,
    states: Seq<Seq<char>>,
    symbols: Seq<Seq<char>>,
    is_last: bool,
) -> Model {
    match opened(m, arm.pattern, symbols, is_last) {
        Err(_) => m,
        Ok((m1, bound)) => {
            let scope = Scope { states, symbols, bound };
            match ops_spec(m1, arm.ops@, scope) {
                Err(_) => ops_stop(m1, arm.ops@, arm.ops.len() as int, scope),
                Ok(m2) => match call_error(arm.to_state, states) {
                    Some(_) => m2,
                    None => {
                        let counted = Model { counts: use_counts(arm.to_state, states), ..m2 };
                        match call_spec(counted, arm.to_state, scope, true) {
                            Err(_) => call_stop(counted, arm.to_state, scope),
                            Ok(m3) => m3,
                        }
                    },
                },
            }
        },
    }
}

/// The compiler where the first `n` arms of a state stop at a fault:
/// inside the first of them that fails.
pub open spec fn arms_stop(
    m: Model,
    arms: Seq<Arm>,
    n: int,
    states: Seq<Seq<char>>,
    symbols: Seq<Seq<char>>,
) -> Model
    decreases n,
{
    if n <= 0 {
        m
    } else {
        match arms_upto(m, arms, n - 1, states, symbols) {
            Err(_) => arms_stop(m, arms, n - 1, states, symbols),
            Ok(m1) => arm_stop(m1, arms[n - 1], states, symbols, n == arms.len()),
        }
    }
}

/// The compiler where the head of a declaration stops at a fault. One
/// state too many changes nothing; any other fault is found when the state
/// is counted in the header and nothing else is done.
pub open spec fn declared_stop(m: Model, state: State) -> Model {
    let count = u16_at(m.bytes, 0);
    if count == u16::MAX {
        m
    } else {
        Model { bytes: patched16(m.bytes, 0, (count + 1) as u16), ..m }
    }
}

/// The compiler where a declaration stops at a fault.
pub open spec fn state_stop(m: Model, state: State) -> Model {
    match declared(m, state) {
        Err(_) => declared_stop(m, state),
        Ok(m1) => arms_stop(
            m1,
            state.arms@,
            state.arms.len() as int,
            names_of(state.state_params@),
            names_of(state.symbol_params@),
        ),
    }
}

/// The compiler where the first `n` declarations of a program stop at a
/// fault: inside the first of them that fails.
pub open spec fn states_stop(unit: Seq<State>, n: int) -> Model
    decreases n,
{
    if n <= 0 {
        start_model()
    } else {
        match states_upto(unit, n - 1) {
            Err(_) => states_stop(unit, n - 1),
            Ok(m) => state_stop(m, unit[n - 1]),
        }
    }
}

/// The compiler where a program stops at a fault: inside the first
/// declaration that fails; or, where a slot is left unresolved or `start`
/// is missing, after all declarations, with the header's entry address
/// unresolved.
pub open spec fn program_stop(unit: Seq<State>) -> Model {
    match states_upto(unit, unit.len() as int) {
        Err(_) => states_stop(unit, unit.len() as int),
        Ok(m) => m,
    }
}

/// What compilation gives.
pub struct CompiledModel {
    /// The program.
    pub bytes: Seq<u8>,
    /// The symbol table.
    pub table: Map<Seq<char>, u16>,
    /// The name of the state at each address.
    pub names: Map<u32, String>,
    /// The initial tape.
    pub tape: Seq<u16>,
}

/// What compiling the program `unit` with the initial tape `symbols`
/// gives: the program is compiled first, the tape is interned after it
/// into the same table.
pub open spec fn compile_spec(unit: Seq<State>, symbols: Seq<Symbol>) -> Result<
    CompiledModel,
    Failure,
> {
    match program_spec(unit) {
        Err(f) => Err(f),
        Ok(m) => match tape_upto(m.table, symbols, symbols.len() as int) {
            Err(f) => Err(f),
            Ok((table, tape)) => Ok(
                CompiledModel { bytes: m.bytes, table, names: m.names, tape },
            ),
        },
    }
}

} // verus!
