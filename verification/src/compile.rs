//! The compiler: from the declarations of a program to its bytes.
//!
//! The program is written in one pass. A call of a state that is not
//! declared yet leaves an address slot that is filled in when the
//! declaration comes.

use vstd::prelude::*;
use vstd::string::StringExecFns;
use std::collections::hash_map::RandomState;
use std::collections::HashMap;
use bimap::BiHashMap;
use crate::bytecode::{
    le16, u32_at, Instr, COMPARE_ARG, COMPARE_VAL, FINAL_STATE, HALT, HALT_ADDRESS, MAKE_STATE,
    OTHER, UNRESOLVED,
};
use crate::encoder::Encoder;
use crate::error::{Error, ErrorKind};
use crate::layout::refs_ok;
use crate::lex::Span;
use crate::lower::{
    arm_spec, arm_stop, arms_stop, arms_upto, call_error, call_error_upto, call_instr, call_spec,
    call_stop, clamped, compile_spec, declared, declared_stop, finish_call, frees, frees_upto,
    header, index_below, index_of, lefts, lookup, moved, names_of, ops_spec, ops_stop, ops_upto,
    params_error, pattern_instr, pattern_spec, program_spec, program_stop, resolved_upto, rights,
    sig_of, start_model, state_args_stop, state_args_upto, state_spec, state_stop, states_stop,
    states_upto, symbol_args_stop, symbol_args_upto, tape_upto, use_counts, uses, uses_before,
    uses_before_upto, uses_upto, waiting_upto, ForwardRef, Model, Scope, SigModel, Signature,
};
use crate::parse::{Arm, Name, Op, OpKind, Pattern, State, Symbol, ToState};
use crate::symbols::{symbol_ids, Symbols};

verus! {

broadcast use vstd::std_specs::hash::group_hash_axioms;

/// `name` stays the first match below any larger bound.
pub proof fn lemma_index_stable(names: Seq<Seq<char>>, name: Seq<char>, n: int, k: int)
    requires
        n <= k,
        index_below(names, name, n) is Some,
    ensures
        index_below(names, name, k) == index_below(names, name, n),
    decreases k - n,
{
    if n < k {
        lemma_index_stable(names, name, n, k - 1);
    }
}

/// What a match says: the name stands at the index, and the index is below
/// the bound.
pub proof fn lemma_index_found(names: Seq<Seq<char>>, name: Seq<char>, n: int)
    ensures
        index_below(names, name, n) is Some ==> 0 <= index_below(names, name, n)->0 < n
            && names[index_below(names, name, n)->0] == name,
    decreases n,
{
    if n > 0 {
        lemma_index_found(names, name, n - 1);
    }
}

/// The first index below `n` at which a parameter is called `name`.
pub fn find_below(params: &Vec<Name>, name: &String, n: usize) -> (r: Option<usize>)
    requires
        n <= params.len(),
    ensures
        match r {
            Some(i) => index_below(names_of(params@), name@, n as int) == Some(i as int) && i < n,
            None => index_below(names_of(params@), name@, n as int) is None,
        },
{
    let mut i: usize = 0;
    while i < n
        invariant
            i <= n <= params.len(),
            index_below(names_of(params@), name@, i as int) is None,
        decreases n - i,
    {
        if params[i].name == *name {
            proof {
                lemma_index_stable(names_of(params@), name@, i + 1, n as int);
            }
            return Some(i);
        }
        i += 1;
    }
    None
}

/// The index of the parameter called `name`.
pub fn find(params: &Vec<Name>, name: &String) -> (r: Option<usize>)
    ensures
        match r {
            Some(i) => index_of(names_of(params@), name@) == Some(i as int) && i < params.len(),
            None => index_of(names_of(params@), name@) is None,
        },
{
    find_below(params, name, params.len())
}

/// Checks a parameter list: no name twice, and at most 256 names. In the
/// scope that it opens, each name stands for its index. `kind` says in the
/// message what the parameters are.
pub fn make_map(params: &Vec<Name>, kind: &str) -> (r: Result<(), Error>)
    ensures
        match params_error(params@, params.len() as int) {
            None => r is Ok && params.len() <= 256,
            Some(f) => r is Err && r->Err_0@ == f,
        },
{
    let mut i: usize = 0;
    while i < params.len()
        invariant
            i <= params.len(),
            i <= 256,
            params_error(params@, i as int) is None,
        decreases params.len() - i,
    {
        if find_below(params, &params[i].name, i).is_some() {
            let mut msg = String::from_str("duplicate ");
            msg.append(kind);
            msg.append(" parameter `");
            msg.append(params[i].name.as_str());
            msg.append("`");
            proof {
                lemma_params_error_stable(params@, i + 1, params.len() as int);
            }
            return Err(Error::new(ErrorKind::DuplicateParameter, msg, Some(params[i].span)));
        } else if i == 256 {
            let mut msg = String::from_str("too many ");
            msg.append(kind);
            msg.append(" parameters (max is 256)");
            proof {
                lemma_params_error_stable(params@, i + 1, params.len() as int);
            }
            return Err(Error::new(ErrorKind::TooManyParameters, msg, Some(params[i].span)));
        }
        i += 1;
    }
    Ok(())
}

/// The first fault of a parameter list stays the first below any larger
/// bound.
pub proof fn lemma_params_error_stable(params: Seq<Name>, n: int, k: int)
    requires
        n <= k,
        params_error(params, n) is Some,
    ensures
        params_error(params, k) == params_error(params, n),
    decreases k - n,
{
    if n < k {
        lemma_params_error_stable(params, n, k - 1);
    }
}

/// The names that an arm can use, as the compiler holds them.
pub struct Names<'a> {
    pub states: &'a Vec<Name>,
    pub symbols: &'a Vec<Name>,
    pub bound: Option<&'a String>,
}

impl<'a> View for Names<'a> {
    type V = Scope;

    open spec fn view(&self) -> Scope {
        Scope {
            states: names_of(self.states@),
            symbols: names_of(self.symbols@),
            bound: match self.bound {
                Some(name) => Some(name@),
                None => None,
            },
        }
    }
}

impl<'a> Names<'a> {
    /// Every parameter has an index that fits in a byte.
    pub open spec fn wf(self) -> bool {
        self.states.len() <= 256 && self.symbols.len() <= 256
    }

    /// How a write or a symbol argument called `name` is resolved: `Some`
    /// of the index of a symbol parameter, `None` for the catch-all
    /// binding; an error if the name is neither.
    pub fn resolve(&self, name: &String) -> (r: Result<Option<u8>, ()>)
        requires
            self.wf(),
        ensures
            match r {
                Ok(Some(i)) => index_of(self@.symbols, name@) == Some(i as int),
                Ok(None) => index_of(self@.symbols, name@) is None && self@.bound == Some(name@),
                Err(_) => index_of(self@.symbols, name@) is None && self@.bound != Some(name@),
            },
    {
        match find(self.symbols, name) {
            Some(i) => Ok(Some(i as u8)),
            None => match self.bound {
                Some(bound) => if *bound == *name {
                    Ok(None)
                } else {
                    Err(())
                },
                None => Err(()),
            },
        }
    }
}

/// The compiler.
pub struct Compiler {
    pub out: Encoder,
    pub forward_refs: Vec<ForwardRef>,
    pub addresses: Vec<(Signature, u32)>,
    pub symbols: Symbols,
    pub state_names: HashMap<u32, String>,
    /// For each state parameter of the arm being compiled, how many of its
    /// uses are still to be written.
    pub counts: Vec<usize>,
    /// The instructions written so far.
    pub trace: Ghost<Seq<Instr>>,
    /// The address slots of the calls of named states written so far.
    pub slots: Ghost<Seq<(int, SigModel)>>,
    /// The arms written so far that skip to a next arm.
    pub skips: Ghost<Seq<(int, int)>>,
}

impl Compiler {
    /// The state of the compiler.
    pub open spec fn model(self) -> Model {
        Model {
            bytes: self.out@,
            trace: self.trace@,
            table: self.symbols.ids(),
            refs: self.forward_refs@,
            addrs: self.addresses@,
            names: self.state_names@,
            counts: self.counts@,
            slots: self.slots@,
            skips: self.skips@,
        }
    }

    /// The symbol table is well formed, the program holds its header, and
    /// the unresolved slots lie inside the program, after the header, one
    /// after the other.
    pub open spec fn wf(self) -> bool {
        &&& self.symbols.wf()
        &&& self.out@.len() >= 7
        &&& refs_ok(self.forward_refs@, self.out@.len() as int)
    }

    /// A compiler that has written the header of an empty program.
    pub fn new() -> (c: Compiler)
        ensures
            c.wf(),
            c.model() == start_model(),
    {
        let mut out = Encoder::new();
        out.emit_u16_le(0);
        out.emit_u32_le(UNRESOLVED);
        out.emit_u8(HALT);
        let c = Compiler {
            out,
            forward_refs: Vec::new(),
            addresses: Vec::new(),
            symbols: Symbols::new(),
            state_names: HashMap::new(),
            counts: Vec::new(),
            trace: Ghost(Seq::empty()),
            slots: Ghost(Seq::empty()),
            skips: Ghost(Seq::empty()),
        };
        assert(c.out@ =~= header());
        c
    }

    /// Writes one instruction.
    pub fn emit(&mut self, instr: Instr)
        requires
            old(self).wf(),
        ensures
            final(self).wf(),
            final(self).out@.len() > old(self).out@.len(),
            final(self).model() == old(self).model().put(instr),
    {
        self.out.emit(instr);
        self.trace = Ghost(self.trace@.push(instr));
    }

    /// Writes a move of `count` cells to the left.
    pub fn emit_left(&mut self, count: usize)
        requires
            old(self).wf(),
        ensures
            final(self).wf(),
            final(self).out@.len() >= old(self).out@.len(),
            final(self).model() == lefts(old(self).model(), count as int),
    {
        let mut n: usize = count;
        while n >= 255
            invariant
                self.wf(),
                self.out@.len() >= old(self).out@.len(),
                lefts(self.model(), n as int) == lefts(old(self).model(), count as int),
            decreases n,
        {
            self.emit(Instr::LeftN(255));
            n -= 255;
        }
        if n == 1 {
            self.emit(Instr::Left);
        } else if n > 0 {
            self.emit(Instr::LeftN(n as u8));
        }
    }

    /// Writes a move of `count` cells to the right.
    pub fn emit_right(&mut self, count: usize)
        requires
            old(self).wf(),
        ensures
            final(self).wf(),
            final(self).out@.len() >= old(self).out@.len(),
            final(self).model() == rights(old(self).model(), count as int),
    {
        let mut n: usize = count;
        while n >= 255
            invariant
                self.wf(),
                self.out@.len() >= old(self).out@.len(),
                rights(self.model(), n as int) == rights(old(self).model(), count as int),
            decreases n,
        {
            self.emit(Instr::RightN(255));
            n -= 255;
        }
        if n == 1 {
            self.emit(Instr::Right);
        } else if n > 0 {
            self.emit(Instr::RightN(n as u8));
        }
    }

    /// Writes the move that `left` steps to the left and `right` steps to
    /// the right add up to.
    pub fn emit_moves(&mut self, left: usize, right: usize)
        requires
            old(self).wf(),
        ensures
            final(self).wf(),
            final(self).out@.len() >= old(self).out@.len(),
            final(self).model() == moved(old(self).model(), right - left),
    {
        if left > right {
            self.emit_left(left - right);
        } else {
            self.emit_right(right - left);
        }
    }

    /// Writes the operations of an arm, with every run of moves made into
    /// one move.
    pub fn compile_ops(&mut self, ops: &Vec<Op>, names: &Names) -> (r: Result<(), Error>)
        requires
            old(self).wf(),
            names.wf(),
        ensures
            final(self).wf(),
            final(self).out@.len() >= old(self).out@.len(),
            match ops_spec(old(self).model(), ops@, names@) {
                Ok(m) => r is Ok && final(self).model() == m,
                Err(f) => r is Err && r->Err_0@ == f && final(self).model() == ops_stop(
                    old(self).model(),
                    ops@,
                    ops.len() as int,
                    names@,
                ),
            },
    {
        let mut left: usize = 0;
        let mut right: usize = 0;
        let mut i: usize = 0;
        while i < ops.len()
            invariant
                i <= ops.len(),
                self.wf(),
                names.wf(),
                self.out@.len() >= old(self).out@.len(),
                left + right <= i,
                ops_upto(old(self).model(), ops@, i as int, names@) == Ok::<(Model, int), crate::error::Failure>(
                    (self.model(), right - left),
                ),
            decreases ops.len() - i,
        {
            let ghost before = self.model();
            match &ops[i].kind {
                OpKind::Left => {
                    left += 1;
                },
                OpKind::Right => {
                    right += 1;
                },
                OpKind::Name(name) => {
                    let instr = match names.resolve(name) {
                        Ok(Some(index)) => Instr::WriteArg(index),
                        Ok(None) => Instr::WriteBound,
                        Err(_) => {
                            let mut msg = String::from_str("no value with name `");
                            msg.append(name.as_str());
                            msg.append("`");
                            proof {
                                lemma_ops_error_stable(
                                    old(self).model(),
                                    ops@,
                                    i + 1,
                                    ops.len() as int,
                                    names@,
                                );
                                lemma_ops_stop(
                                    old(self).model(),
                                    ops@,
                                    i as int,
                                    ops.len() as int,
                                    names@,
                                );
                            }
                            return Err(
                                Error::new(ErrorKind::UnresolvedName, msg, Some(ops[i].span)),
                            );
                        },
                    };
                    self.emit_moves(left, right);
                    self.emit(instr);
                    left = 0;
                    right = 0;
                },
                OpKind::Symbol(text) => {
                    let id = match self.symbols.intern(text, ops[i].span) {
                        Ok(id) => id,
                        Err(e) => {
                            proof {
                                lemma_ops_error_stable(
                                    old(self).model(),
                                    ops@,
                                    i + 1,
                                    ops.len() as int,
                                    names@,
                                );
                                lemma_ops_stop(
                                    old(self).model(),
                                    ops@,
                                    i as int,
                                    ops.len() as int,
                                    names@,
                                );
                            }
                            return Err(e);
                        },
                    };
                    proof {
                        lemma_moved_frame(before, right - left);
                        lemma_moved_table(
                            before,
                            Model { table: self.model().table, ..before },
                            right - left,
                        );
                    }
                    self.emit_moves(left, right);
                    self.emit(Instr::WriteVal(id));
                    left = 0;
                    right = 0;
                },
            }
            i += 1;
        }
        self.emit_moves(left, right);
        Ok(())
    }
}

/// Whether two signatures are the same.
pub fn same_signature(a: &Signature, b: &Signature) -> (r: bool)
    ensures
        r == (a@ == b@),
{
    let r = a.name == b.name && a.states == b.states && a.symbols == b.symbols;
    proof {
        if a@ == b@ {
            assert(a@.name == b@.name);
        }
    }
    r
}

/// A copy of a signature.
pub fn copy_signature(sig: &Signature) -> (r: Signature)
    ensures
        r == *sig,
{
    Signature { name: sig.name.clone(), states: sig.states, symbols: sig.symbols }
}

/// The text of a signature in messages: the name, and in brackets one `_`
/// for each parameter, the state parameters before a semicolon and the
/// symbol parameters after it.
pub open spec fn signature_text(sig: SigModel) -> Seq<char> {
    if sig.states == 0 && sig.symbols == 0 {
        sig.name
    } else if sig.symbols == 0 {
        sig.name + "("@ + blanks_text(sig.states) + ")"@
    } else {
        sig.name + "("@ + blanks_text(sig.states) + "; "@ + blanks_text(sig.symbols) + ")"@
    }
}

/// `n` times `_`, with `, ` between them.
pub open spec fn blanks_text(n: int) -> Seq<char>
    decreases n,
{
    if n <= 0 {
        Seq::empty()
    } else if n == 1 {
        "_"@
    } else {
        blanks_text(n - 1) + ", "@ + "_"@
    }
}

/// Appends `n` times `_`, with `, ` between them.
pub fn append_blanks(text: &mut String, n: usize)
    ensures
        final(text)@ == old(text)@ + blanks_text(n as int),
{
    let mut i: usize = 0;
    assert(text@ =~= old(text)@ + blanks_text(0));
    while i < n
        invariant
            i <= n,
            text@ == old(text)@ + blanks_text(i as int),
        decreases n - i,
    {
        let ghost before = text@;
        if i > 0 {
            text.append(", ");
        }
        text.append("_");
        i += 1;
        assert(text@ =~= old(text)@ + blanks_text(i as int));
    }
}

/// The text of a signature in messages.
pub fn describe(sig: &Signature) -> (text: String)
    ensures
        text@ == signature_text(sig@),
{
    let mut text = sig.name.clone();
    if sig.states == 0 && sig.symbols == 0 {
        return text;
    }
    text.append("(");
    append_blanks(&mut text, sig.states);
    if sig.symbols != 0 {
        text.append("; ");
        append_blanks(&mut text, sig.symbols);
    }
    text.append(")");
    assert(text@ =~= signature_text(sig@));
    text
}

/// A use of a state parameter is counted at least once.
pub proof fn lemma_uses_nonneg(t: ToState, states: Seq<Seq<char>>, i: int)
    ensures
        uses(t, states, i) >= 0,
    decreases t, 1int, 0int,
{
    match t {
        ToState::Halt { .. } => {},
        ToState::State { name, state_args, symbol_args } => {
            if index_of(states, name.name@) is None {
                lemma_uses_upto_nonneg(t, state_args.len() as int, states, i);
            }
        },
    }
}

/// The uses among the first `n` state arguments are counted among the
/// first `k`, for `n <= k`.
pub proof fn lemma_uses_upto_nonneg(t: ToState, n: int, states: Seq<Seq<char>>, i: int)
    ensures
        uses_upto(t, n, states, i) >= 0,
        forall|j: int|
            t is State && 0 <= j < n <= t->state_args.len() ==> uses(
                #[trigger] t->state_args[j],
                states,
                i,
            ) <= uses_upto(t, n, states, i),
    decreases t, 0int, n,
{
    match t {
        ToState::Halt { .. } => {},
        ToState::State { name, state_args, symbol_args } => {
            if 0 < n <= state_args.len() {
                lemma_uses_upto_nonneg(t, n - 1, states, i);
                lemma_uses_nonneg(state_args[n - 1], states, i);
            }
        },
    }
}

/// The first state parameter that is given arguments stays the first below
/// any larger bound.
pub proof fn lemma_call_error_stable(t: ToState, n: int, k: int, states: Seq<Seq<char>>)
    requires
        t is State,
        0 <= n <= k <= t->state_args.len(),
        call_error_upto(t, n, states) is Some,
    ensures
        call_error_upto(t, k, states) == call_error_upto(t, n, states),
    decreases k - n,
{
    if n < k {
        lemma_call_error_stable(t, n, k - 1, states);
    }
}

/// The uses before a fault are counted at least zero times.
pub proof fn lemma_uses_before_nonneg(t: ToState, states: Seq<Seq<char>>, i: int)
    ensures
        uses_before(t, states, i) >= 0,
    decreases t, 1int, 0int,
{
    match t {
        ToState::Halt { .. } => {},
        ToState::State { name, state_args, symbol_args } => {
            if index_of(states, name.name@) is None {
                lemma_uses_before_upto_nonneg(t, state_args.len() as int, states, i);
            }
        },
    }
}

/// The uses before a fault among the first `n` state arguments are
/// counted at least zero times.
pub proof fn lemma_uses_before_upto_nonneg(t: ToState, n: int, states: Seq<Seq<char>>, i: int)
    ensures
        uses_before_upto(t, n, states, i) >= 0,
    decreases t, 0int, n,
{
    match t {
        ToState::Halt { .. } => {},
        ToState::State { name, state_args, symbol_args } => {
            if 0 < n <= state_args.len() {
                lemma_uses_before_upto_nonneg(t, n - 1, states, i);
                lemma_uses_upto_nonneg(t, n - 1, states, i);
                lemma_uses_before_nonneg(state_args[n - 1], states, i);
            }
        },
    }
}

/// The uses before a fault in state argument `k`: those of the arguments
/// before it, and those in it before the fault.
pub proof fn lemma_uses_before_stable(t: ToState, k: int, n: int, states: Seq<Seq<char>>, i: int)
    requires
        t is State,
        0 <= k < n <= t->state_args.len(),
        call_error_upto(t, k, states) is None,
        call_error_upto(t, k + 1, states) is Some,
    ensures
        uses_before_upto(t, n, states, i) == uses_upto(t, k, states, i) + uses_before(
            t->state_args[k],
            states,
            i,
        ),
    decreases n - k,
{
    if n > k + 1 {
        lemma_call_error_stable(t, k + 1, n - 1, states);
        lemma_uses_before_stable(t, k, n - 1, states, i);
    }
}

/// Counts the uses of each state parameter in the call `t`, on top of
/// `counts`, as far as a machine integer can count. Fails with
/// `StateParamNotCallable` at the first state parameter that is given
/// arguments; the uses before it are counted by then.
pub fn count_state_args(t: &ToState, states: &Vec<Name>, counts: &mut Vec<usize>) -> (r: Result<
    (),
    Error,
>)
    requires
        old(counts).len() == states.len(),
    ensures
        final(counts).len() == old(counts).len(),
        match call_error(*t, names_of(states@)) {
            None => r is Ok && forall|i: int|
                0 <= i < old(counts).len() ==> final(counts)[i] == clamped(
                    old(counts)[i] + uses(*t, names_of(states@), i),
                ),
            Some(f) => r is Err && r->Err_0@ == f && forall|i: int|
                0 <= i < old(counts).len() ==> final(counts)[i] == clamped(
                    old(counts)[i] + uses_before(*t, names_of(states@), i),
                ),
        },
    decreases t,
{
    match t {
        ToState::Halt { .. } => Ok(()),
        ToState::State { name, state_args, symbol_args } => {
            match find(states, &name.name) {
                Some(index) => {
                    if state_args.len() == 0 && symbol_args.len() == 0 {
                        let count: usize = counts[index];
                        if count < usize::MAX {
                            counts.set(index, count + 1);
                        }
                        Ok(())
                    } else {
                        let mut msg = String::from_str("`");
                        msg.append(name.name.as_str());
                        msg.append("` is a state parameter, so it can't take arguments");
                        Err(Error::new(ErrorKind::StateParamNotCallable, msg, Some(name.span)))
                    }
                },
                None => {
                    let mut k: usize = 0;
                    while k < state_args.len()
                        invariant
                            k <= state_args.len(),
                            *t == (ToState::State {
                                name: *name,
                                state_args: *state_args,
                                symbol_args: *symbol_args,
                            }),
                            counts.len() == old(counts).len() == states.len(),
                            index_of(names_of(states@), name.name@) is None,
                            call_error_upto(*t, k as int, names_of(states@)) is None,
                            forall|i: int|
                                0 <= i < old(counts).len() ==> counts[i] == clamped(
                                    old(counts)[i] + uses_upto(*t, k as int, names_of(states@), i),
                                ),
                        decreases state_args.len() - k,
                    {
                        let ghost before = counts@;
                        match count_state_args(&state_args[k], states, counts) {
                            Ok(()) => {},
                            Err(e) => {
                                proof {
                                    lemma_call_error_stable(
                                        *t,
                                        k + 1,
                                        state_args.len() as int,
                                        names_of(states@),
                                    );
                                    assert forall|i: int| 0 <= i < old(counts).len() implies counts[i]
                                        == clamped(
                                        old(counts)[i] + uses_before(*t, names_of(states@), i),
                                    ) by {
                                        lemma_uses_upto_nonneg(*t, k as int, names_of(states@), i);
                                        lemma_uses_before_nonneg(
                                            state_args[k as int],
                                            names_of(states@),
                                            i,
                                        );
                                        lemma_uses_before_stable(
                                            *t,
                                            k as int,
                                            state_args.len() as int,
                                            names_of(states@),
                                            i,
                                        );
                                    }
                                }
                                return Err(e);
                            },
                        }
                        proof {
                            assert forall|i: int| 0 <= i < old(counts).len() implies counts[i]
                                == clamped(
                                old(counts)[i] + uses_upto(*t, k + 1, names_of(states@), i),
                            ) by {
                                lemma_uses_upto_nonneg(*t, k as int, names_of(states@), i);
                                lemma_uses_nonneg(state_args[k as int], names_of(states@), i);
                            }
                        }
                        k += 1;
                    }
                    Ok(())
                },
            }
        },
    }
}

/// Releasing parameters writes instructions and touches nothing else.
pub proof fn lemma_frees_frame(m: Model, n: int)
    ensures
        frees_upto(m, n).table == m.table,
        frees_upto(m, n).refs == m.refs,
        frees_upto(m, n).addrs == m.addrs,
        frees_upto(m, n).names == m.names,
        frees_upto(m, n).counts == m.counts,
        frees_upto(m, n).bytes.len() >= m.bytes.len(),
    decreases n,
{
    if n > 0 {
        lemma_frees_frame(m, n - 1);
    }
}

/// The first fault among the symbol arguments stays the first below any
/// larger bound.
pub proof fn lemma_symbol_args_error_stable(
    m: Model,
    args: Seq<Pattern>,
    n: int,
    k: int,
    scope: Scope,
)
    requires
        n <= k,
        symbol_args_upto(m, args, n, scope) is Err,
    ensures
        symbol_args_upto(m, args, k, scope) == symbol_args_upto(m, args, n, scope),
    decreases k - n,
{
    if n < k {
        lemma_symbol_args_error_stable(m, args, n, k - 1, scope);
    }
}

/// The first fault among the state arguments stays the first below any
/// larger bound.
pub proof fn lemma_state_args_error_stable(m: Model, t: ToState, n: int, k: int, scope: Scope)
    requires
        t is State,
        0 <= n <= k <= t->state_args.len(),
        state_args_upto(m, t, n, scope) is Err,
    ensures
        state_args_upto(m, t, k, scope) == state_args_upto(m, t, n, scope),
    decreases k - n,
{
    if n < k {
        lemma_state_args_error_stable(m, t, n, k - 1, scope);
    }
}

impl Compiler {
    /// The address declared for `sig`, if any.
    pub fn lookup(&self, sig: &Signature) -> (r: Option<u32>)
        ensures
            r == lookup(self.addresses@, sig@),
    {
        let mut i: usize = self.addresses.len();
        assert(self.addresses@.take(i as int) =~= self.addresses@);
        while i > 0
            invariant
                i <= self.addresses.len(),
                lookup(self.addresses@, sig@) == lookup(self.addresses@.take(i as int), sig@),
            decreases i,
        {
            i -= 1;
            assert(self.addresses@.take(i + 1).drop_last() =~= self.addresses@.take(i as int));
            if same_signature(&self.addresses[i].0, sig) {
                return Some(self.addresses[i].1);
            }
        }
        None
    }

    /// Releases every state parameter without a use.
    pub fn compile_frees(&mut self)
        requires
            old(self).wf(),
            old(self).counts.len() <= 256,
        ensures
            final(self).wf(),
            final(self).counts@ == old(self).counts@,
            final(self).out@.len() >= old(self).out@.len(),
            final(self).model() == frees(old(self).model()),
    {
        let mut i: usize = 0;
        while i < self.counts.len()
            invariant
                i <= self.counts.len() <= 256,
                self.wf(),
                self.out@.len() >= old(self).out@.len(),
                self.counts@ == old(self).counts@,
                self.model() == frees_upto(old(self).model(), i as int),
            decreases self.counts.len() - i,
        {
            if self.counts[i] == 0 {
                self.emit(Instr::FreeArg(i as u8));
            }
            i += 1;
        }
    }

    /// Writes the symbol arguments of a call.
    pub fn compile_symbol_args(&mut self, args: &Vec<Pattern>, names: &Names) -> (r: Result<
        (),
        Error,
    >)
        requires
            old(self).wf(),
            names.wf(),
        ensures
            final(self).wf(),
            final(self).counts@ == old(self).counts@,
            final(self).out@.len() >= old(self).out@.len(),
            match symbol_args_upto(old(self).model(), args@, args.len() as int, names@) {
                Ok(m) => r is Ok && final(self).model() == m,
                Err(f) => r is Err && r->Err_0@ == f && final(self).model() == symbol_args_stop(
                    old(self).model(),
                    args@,
                    args.len() as int,
                    names@,
                ),
            },
    {
        let mut i: usize = 0;
        while i < args.len()
            invariant
                i <= args.len(),
                self.wf(),
                names.wf(),
                self.out@.len() >= old(self).out@.len(),
                self.counts@ == old(self).counts@,
                symbol_args_upto(old(self).model(), args@, i as int, names@) == Ok::<
                    Model,
                    crate::error::Failure,
                >(self.model()),
            decreases args.len() - i,
        {
            match &args[i] {
                Pattern::Symbol(symbol) => {
                    match self.symbols.insert(symbol) {
                        Ok(id) => {
                            self.emit(Instr::SymbolVal(id));
                        },
                        Err(e) => {
                            proof {
                                lemma_symbol_args_error_stable(
                                    old(self).model(),
                                    args@,
                                    i + 1,
                                    args.len() as int,
                                    names@,
                                );
                                lemma_symbol_args_stop(
                                    old(self).model(),
                                    args@,
                                    i as int,
                                    args.len() as int,
                                    names@,
                                );
                            }
                            return Err(e);
                        },
                    }
                },
                Pattern::Name(name) => {
                    match names.resolve(&name.name) {
                        Ok(Some(index)) => {
                            self.emit(Instr::SymbolArg(index));
                        },
                        Ok(None) => {
                            self.emit(Instr::SymbolBound);
                        },
                        Err(_) => {
                            let mut msg = String::from_str("no value with name `");
                            msg.append(name.name.as_str());
                            msg.append("`");
                            proof {
                                lemma_symbol_args_error_stable(
                                    old(self).model(),
                                    args@,
                                    i + 1,
                                    args.len() as int,
                                    names@,
                                );
                                lemma_symbol_args_stop(
                                    old(self).model(),
                                    args@,
                                    i as int,
                                    args.len() as int,
                                    names@,
                                );
                            }
                            return Err(
                                Error::new(ErrorKind::UnresolvedName, msg, Some(name.span)),
                            );
                        },
                    }
                },
            }
            i += 1;
        }
        Ok(())
    }

    /// Writes the instruction that ends a call of the state `sig`.
    pub fn compile_call(&mut self, sig: Signature, span: Span, outer: bool)
        requires
            old(self).wf(),
            old(self).counts.len() <= 256,
        ensures
            final(self).wf(),
            final(self).counts@ == old(self).counts@,
            final(self).out@.len() >= old(self).out@.len(),
            final(self).model() == finish_call(old(self).model(), sig, span, outer),
    {
        proof {
            lemma_frees_frame(self.model(), self.counts.len() as int);
        }
        if outer {
            self.compile_frees();
        }
        let arity: u8 = (sig.states % 256) as u8;
        match self.lookup(&sig) {
            Some(address) => {
                if outer {
                    self.emit(Instr::FinalState(address));
                } else {
                    self.emit(Instr::MakeState(arity, address));
                }
                self.slots = Ghost(self.slots@.push((self.out@.len() - 4, sig@)));
            },
            None => {
                let ghost before = self.out@;
                if outer {
                    self.out.emit_u8(FINAL_STATE);
                } else {
                    self.out.emit_u8(MAKE_STATE);
                    self.out.emit_u8(arity);
                }
                let location: usize = self.out.reserve_u32();
                proof {
                    let instr = call_instr(outer, sig.states as int, UNRESOLVED);
                    assert(self.out@ =~= before + instr.encoding());
                    self.trace@ = self.trace@.push(instr);
                }
                self.slots = Ghost(self.slots@.push((location as int, sig@)));
                self.forward_refs.push(ForwardRef { signature: sig, location, span });
            },
        }
    }

    /// Writes the call `t`, in outer or in nested position.
    pub fn compile_to_state(&mut self, t: &ToState, names: &Names, outer: bool) -> (r: Result<
        (),
        Error,
    >)
        requires
            old(self).wf(),
            names.wf(),
            old(self).counts.len() == names.states.len(),
            forall|i: int|
                0 <= i < old(self).counts.len() && uses(*t, names@.states, i) > 0 ==> old(self).counts[i] >= 1,
        ensures
            final(self).wf(),
            final(self).out@.len() >= old(self).out@.len(),
            final(self).counts.len() == old(self).counts.len(),
            forall|i: int|
                0 <= i < old(self).counts.len() && old(self).counts[i] >= 1 ==> final(self).counts[i] >= 1,
            match call_spec(old(self).model(), *t, names@, outer) {
                Ok(m) => r is Ok && final(self).model() == m,
                Err(f) => r is Err && r->Err_0@ == f && final(self).model() == call_stop(
                    old(self).model(),
                    *t,
                    names@,
                ),
            },
        decreases t,
    {
        match t {
            ToState::Halt { .. } => {
                if outer {
                    self.compile_frees();
                    self.emit(Instr::FinalState(HALT_ADDRESS));
                } else {
                    self.emit(Instr::MakeState(0, HALT_ADDRESS));
                }
                Ok(())
            },
            ToState::State { name, state_args, symbol_args } => {
                match find(names.states, &name.name) {
                    Some(index) => {
                        let count: usize = self.counts[index];
                        if count == 1 {
                            if outer {
                                self.compile_frees();
                                self.emit(Instr::FinalArg(index as u8));
                            } else {
                                self.emit(Instr::TakeArg(index as u8));
                            }
                        } else {
                            self.counts.set(index, count - 1);
                            self.emit(Instr::CloneArg(index as u8));
                        }
                        Ok(())
                    },
                    None => {
                        let mut k: usize = 0;
                        while k < state_args.len()
                            invariant
                                k <= state_args.len(),
                                *t == (ToState::State {
                                    name: *name,
                                    state_args: *state_args,
                                    symbol_args: *symbol_args,
                                }),
                                index_of(names@.states, name.name@) is None,
                                self.wf(),
                                names.wf(),
                                self.out@.len() >= old(self).out@.len(),
                                self.counts.len() == old(self).counts.len() == names.states.len(),
                                forall|i: int|
                                    0 <= i < old(self).counts.len() && uses(
                                        *t,
                                        names@.states,
                                        i,
                                    ) > 0 ==> old(self).counts[i] >= 1,
                                forall|i: int|
                                    0 <= i < old(self).counts.len() && old(self).counts[i] >= 1
                                        ==> self.counts[i] >= 1,
                                state_args_upto(old(self).model(), *t, k as int, names@) == Ok::<
                                    Model,
                                    crate::error::Failure,
                                >(self.model()),
                            decreases state_args.len() - k,
                        {
                            proof {
                                assert forall|i: int|
                                    0 <= i < self.counts.len() && uses(
                                        state_args[k as int],
                                        names@.states,
                                        i,
                                    ) > 0 implies self.counts[i] >= 1 by {
                                    lemma_uses_upto_nonneg(
                                        *t,
                                        state_args.len() as int,
                                        names@.states,
                                        i,
                                    );
                                }
                            }
                            match self.compile_to_state(&state_args[k], names, false) {
                                Ok(()) => {},
                                Err(e) => {
                                    proof {
                                        lemma_state_args_error_stable(
                                            old(self).model(),
                                            *t,
                                            k + 1,
                                            state_args.len() as int,
                                            names@,
                                        );
                                        lemma_state_args_stop(
                                            old(self).model(),
                                            *t,
                                            k as int,
                                            state_args.len() as int,
                                            names@,
                                        );
                                    }
                                    return Err(e);
                                },
                            }
                            k += 1;
                        }
                        match self.compile_symbol_args(symbol_args, names) {
                            Ok(()) => {},
                            Err(e) => {
                                return Err(e);
                            },
                        }
                        let sig = Signature {
                            name: name.name.clone(),
                            states: state_args.len(),
                            symbols: symbol_args.len(),
                        };
                        self.compile_call(sig, name.span, outer);
                        Ok(())
                    },
                }
            },
        }
    }
}

/// The first fault among the arms stays the first below any larger bound.
pub proof fn lemma_arms_error_stable(
    m: Model,
    arms: Seq<Arm>,
    n: int,
    k: int,
    states: Seq<Seq<char>>,
    symbols: Seq<Seq<char>>,
)
    requires
        n <= k,
        arms_upto(m, arms, n, states, symbols) is Err,
    ensures
        arms_upto(m, arms, k, states, symbols) == arms_upto(m, arms, n, states, symbols),
    decreases k - n,
{
    if n < k {
        lemma_arms_error_stable(m, arms, n, k - 1, states, symbols);
    }
}

/// The first fault among the declarations stays the first below any larger
/// bound.
pub proof fn lemma_states_error_stable(unit: Seq<State>, n: int, k: int)
    requires
        n <= k,
        states_upto(unit, n) is Err,
    ensures
        states_upto(unit, k) == states_upto(unit, n),
    decreases k - n,
{
    if n < k {
        lemma_states_error_stable(unit, n, k - 1);
    }
}

/// The first fault among the symbols of a tape stays the first below any
/// larger bound.
pub proof fn lemma_tape_error_stable(
    table: Map<Seq<char>, u16>,
    symbols: Seq<Symbol>,
    n: int,
    k: int,
)
    requires
        n <= k,
        tape_upto(table, symbols, n) is Err,
    ensures
        tape_upto(table, symbols, k) == tape_upto(table, symbols, n),
    decreases k - n,
{
    if n < k {
        lemma_tape_error_stable(table, symbols, n, k - 1);
    }
}

/// Resolving slots keeps the length of the program.
pub proof fn lemma_resolved_len(
    bytes: Seq<u8>,
    refs: Seq<ForwardRef>,
    n: int,
    sig: SigModel,
    address: u32,
)
    ensures
        resolved_upto(bytes, refs, n, sig, address).len() == bytes.len(),
    decreases n,
{
    if n > 0 {
        lemma_resolved_len(bytes, refs, n - 1, sig, address);
    }
}

/// A copy of a reserved slot.
pub fn copy_forward_ref(r: &ForwardRef) -> (c: ForwardRef)
    ensures
        c == *r,
{
    ForwardRef { signature: copy_signature(&r.signature), location: r.location, span: r.span }
}

impl Compiler {
    /// Writes the pattern of an arm, opcode and operand, and returns the
    /// catch-all binding that it makes. The skip of a comparison is not
    /// written here.
    pub fn compile_pattern<'a>(
        &mut self,
        pattern: &'a Pattern,
        symbols: &Vec<Name>,
        is_last: bool,
    ) -> (r: Result<Option<&'a String>, Error>)
        requires
            old(self).wf(),
            symbols.len() <= 256,
        ensures
            final(self).wf(),
            match pattern_spec(old(self).model(), *pattern, names_of(symbols@), is_last) {
                Ok((m, bound)) => {
                    &&& r is Ok
                    &&& final(self).model() == m
                    &&& match r->Ok_0 {
                        Some(name) => bound == Some(name@),
                        None => bound is None,
                    }
                },
                Err(f) => r is Err && r->Err_0@ == f && final(self).model() == old(self).model(),
            },
    {
        match pattern {
            Pattern::Symbol(symbol) => {
                if is_last {
                    Err(
                        Error::new(
                            ErrorKind::LastArmNotCatchall,
                            String::from_str("last arm must be a catchall"),
                            Some(symbol.span),
                        ),
                    )
                } else {
                    match self.symbols.insert(symbol) {
                        Ok(id) => {
                            self.out.emit_u8(COMPARE_VAL);
                            self.out.emit_u16_le(id);
                            assert(self.out@ =~= old(self).out@ + seq![COMPARE_VAL] + le16(id));
                            Ok(None)
                        },
                        Err(e) => Err(e),
                    }
                }
            },
            Pattern::Name(name) => {
                match find(symbols, &name.name) {
                    Some(index) => {
                        if is_last {
                            Err(
                                Error::new(
                                    ErrorKind::LastArmNotCatchall,
                                    String::from_str("last arm must be a catchall"),
                                    Some(name.span),
                                ),
                            )
                        } else {
                            self.out.emit_u8(COMPARE_ARG);
                            self.out.emit_u8(index as u8);
                            assert(self.out@ =~= old(self).out@ + seq![COMPARE_ARG, index as u8]);
                            Ok(None)
                        }
                    },
                    None => {
                        if is_last {
                            self.out.emit_u8(OTHER);
                            assert(self.out@ =~= old(self).out@ + seq![OTHER]);
                            Ok(Some(&name.name))
                        } else {
                            Err(
                                Error::new(
                                    ErrorKind::CatchallNotLast,
                                    String::from_str("only the last arm can be a catchall"),
                                    Some(name.span),
                                ),
                            )
                        }
                    },
                }
            },
        }
    }

    /// Sets the counts to the number of uses of each state parameter in
    /// the call `t`.
    pub fn count_uses(&mut self, t: &ToState, states: &Vec<Name>) -> (r: Result<(), Error>)
        requires
            old(self).wf(),
        ensures
            final(self).wf(),
            final(self).out@ == old(self).out@,
            final(self).counts.len() == states.len() || r is Err,
            match call_error(*t, names_of(states@)) {
                None => r is Ok && final(self).model() == (Model {
                    counts: use_counts(*t, names_of(states@)),
                    ..old(self).model()
                }),
                Some(f) => r is Err && r->Err_0@ == f && final(self).model() == old(self).model(),
            },
    {
        let mut counts: Vec<usize> = Vec::new();
        let mut i: usize = 0;
        while i < states.len()
            invariant
                i <= states.len(),
                counts.len() == i,
                forall|j: int| 0 <= j < i ==> counts[j] == 0,
            decreases states.len() - i,
        {
            counts.push(0);
            i += 1;
        }
        match count_state_args(t, states, &mut counts) {
            Ok(()) => {
                assert(counts@ =~= use_counts(*t, names_of(states@)));
                self.counts = counts;
                Ok(())
            },
            Err(e) => Err(e),
        }
    }

    /// Writes one arm: its pattern, the skip that an arm which is not the
    /// last reserves after its pattern, its operations and its outer call.
    /// The skip is resolved when the arm is written.
    pub fn compile_arm(
        &mut self,
        arm: &Arm,
        states: &Vec<Name>,
        symbols: &Vec<Name>,
        is_last: bool,
    ) -> (r: Result<(), Error>)
        requires
            old(self).wf(),
            states.len() <= 256,
            symbols.len() <= 256,
        ensures
            final(self).wf(),
            match arm_spec(
                old(self).model(),
                *arm,
                names_of(states@),
                names_of(symbols@),
                is_last,
            ) {
                Ok(m) => r is Ok && final(self).model() == m,
                Err(f) => r is Err && r->Err_0@ == f && final(self).model() == arm_stop(
                    old(self).model(),
                    *arm,
                    names_of(states@),
                    names_of(symbols@),
                    is_last,
                ),
            },
    {
        let bound = match self.compile_pattern(&arm.pattern, symbols, is_last) {
            Ok(bound) => bound,
            Err(e) => {
                return Err(e);
            },
        };
        let location: usize = if is_last {
            0
        } else {
            self.out.reserve_u16()
        };
        self.trace = Ghost(
            self.trace@.push(
                pattern_instr(old(self).model(), arm.pattern, names_of(symbols@)),
            ),
        );
        let names = Names { states, symbols, bound };
        match self.compile_ops(&arm.ops, &names) {
            Ok(()) => {},
            Err(e) => {
                return Err(e);
            },
        }
        match self.count_uses(&arm.to_state, states) {
            Ok(()) => {},
            Err(e) => {
                return Err(e);
            },
        }
        proof {
            assert forall|i: int|
                0 <= i < self.counts.len() && uses(arm.to_state, names@.states, i)
                    > 0 implies self.counts[i] >= 1 by {}
        }
        match self.compile_to_state(&arm.to_state, &names, true) {
            Ok(()) => {},
            Err(e) => {
                return Err(e);
            },
        }
        if !is_last {
            let jump: usize = self.out.position() - location - 2;
            if jump > 65535 {
                return Err(
                    Error::new(
                        ErrorKind::ArmTooLarge,
                        String::from_str("this arm is too complicated"),
                        Some(arm.pattern.get_span()),
                    ),
                );
            }
            self.out.patch_u16(location, jump as u16);
            self.skips = Ghost(
                self.skips@.push((old(self).out@.len() as int, self.out@.len() as int)),
            );
        }
        Ok(())
    }

    /// Counts one more state in the header.
    pub fn increment_count(&mut self, span: Span) -> (r: Result<(), Error>)
        requires
            old(self).wf(),
        ensures
            final(self).wf(),
            if crate::bytecode::u16_at(old(self).out@, 0) == u16::MAX {
                r is Err && r->Err_0@ == (crate::error::Failure {
                    kind: ErrorKind::TooManyStates,
                    span: Some(span),
                }) && final(self).model() == old(self).model()
            } else {
                r is Ok && final(self).model() == (Model {
                    bytes: crate::encoder::patched16(
                        old(self).out@,
                        0,
                        (crate::bytecode::u16_at(old(self).out@, 0) + 1) as u16,
                    ),
                    ..old(self).model()
                })
            },
    {
        let count: u16 = crate::bytecode::read_u16(self.out.bytes.as_slice(), 0);
        if count == u16::MAX {
            Err(
                Error::new(
                    ErrorKind::TooManyStates,
                    String::from_str("too many states in program (max is 65536)"),
                    Some(span),
                ),
            )
        } else {
            self.out.patch_u16(0, count + 1);
            Ok(())
        }
    }

    /// Gives `address` to every slot that waits for `sig`, and forgets
    /// those slots.
    pub fn resolve(&mut self, sig: &Signature, address: u32)
        requires
            old(self).wf(),
        ensures
            final(self).wf(),
            final(self).model() == (Model {
                bytes: resolved_upto(
                    old(self).out@,
                    old(self).forward_refs@,
                    old(self).forward_refs.len() as int,
                    sig@,
                    address,
                ),
                refs: waiting_upto(
                    old(self).forward_refs@,
                    old(self).forward_refs.len() as int,
                    sig@,
                ),
                ..old(self).model()
            }),
    {
        let mut waiting: Vec<ForwardRef> = Vec::new();
        let mut i: usize = 0;
        while i < self.forward_refs.len()
            invariant
                i <= self.forward_refs.len(),
                self.forward_refs@ == old(self).forward_refs@,
                self.out@.len() == old(self).out@.len(),
                old(self).wf(),
                self.out@ == resolved_upto(
                    old(self).out@,
                    old(self).forward_refs@,
                    i as int,
                    sig@,
                    address,
                ),
                waiting@ == waiting_upto(old(self).forward_refs@, i as int, sig@),
                self.model() == (Model { bytes: self.out@, ..old(self).model() }),
            decreases self.forward_refs.len() - i,
        {
            if same_signature(&self.forward_refs[i].signature, sig) {
                let location: usize = self.forward_refs[i].location;
                self.out.patch_u32(location, address);
            } else {
                let copy = copy_forward_ref(&self.forward_refs[i]);
                waiting.push(copy);
            }
            i += 1;
        }
        proof {
            crate::layout::lemma_waiting(
                old(self).forward_refs@,
                old(self).forward_refs.len() as int,
                sig@,
                self.out@.len() as int,
            );
        }
        self.forward_refs = waiting;
    }

    /// Writes the head of a declaration: counts the state, checks its
    /// parameters, gives it the next address, resolves the slots that wait
    /// for it and records its signature.
    pub fn declare(&mut self, state: &State) -> (r: Result<(), Error>)
        requires
            old(self).wf(),
        ensures
            final(self).wf(),
            match declared(old(self).model(), *state) {
                Ok(m) => r is Ok && final(self).model() == m && state.state_params.len() <= 256
                    && state.symbol_params.len() <= 256,
                Err(f) => r is Err && r->Err_0@ == f && final(self).model() == declared_stop(
                    old(self).model(),
                    *state,
                ),
            },
    {
        match self.increment_count(state.name.span) {
            Ok(()) => {},
            Err(e) => {
                return Err(e);
            },
        }
        match make_map(&state.state_params, "state") {
            Ok(()) => {},
            Err(e) => {
                return Err(e);
            },
        }
        match make_map(&state.symbol_params, "symbol") {
            Ok(()) => {},
            Err(e) => {
                return Err(e);
            },
        }
        let address: u32 = #[verifier::truncate]
        (self.out.position() as u32);
        let sig = Signature {
            name: state.name.name.clone(),
            states: state.state_params.len(),
            symbols: state.symbol_params.len(),
        };
        if self.lookup(&sig).is_some() {
            let mut msg = String::from_str("a function with signature `");
            let text = describe(&sig);
            msg.append(text.as_str());
            msg.append("` already exists");
            return Err(Error::new(ErrorKind::DuplicateState, msg, Some(state.name.span)));
        }
        self.state_names.insert(address, state.name.name.clone());
        self.resolve(&sig, address);
        self.addresses.push((sig, address));
        Ok(())
    }

    /// Writes one declaration. The state gets the end of the program as
    /// its address. Every slot that waited for its signature holds that
    /// address afterwards and waits no more; every other slot that waited
    /// holds what it held.
    pub fn compile_state(&mut self, state: &State) -> (r: Result<(), Error>)
        requires
            old(self).wf(),
        ensures
            final(self).wf(),
            match state_spec(old(self).model(), *state) {
                Ok(m) => r is Ok && final(self).model() == m,
                Err(f) => r is Err && r->Err_0@ == f && final(self).model() == state_stop(
                    old(self).model(),
                    *state,
                ),
            },
            r is Ok ==> {
                let address = old(self).out@.len() as u32;
                &&& lookup(final(self).addresses@, sig_of(*state)@) == Some(address)
                &&& final(self).state_names@.dom().contains(address)
                &&& final(self).state_names@[address] == state.name.name
                &&& forall|k: int|
                    0 <= k < old(self).forward_refs.len() ==> u32_at(
                        final(self).out@,
                        (#[trigger] old(self).forward_refs[k]).location as int,
                    ) == if old(self).forward_refs[k].signature@ == sig_of(*state)@ {
                        address
                    } else {
                        u32_at(old(self).out@, old(self).forward_refs[k].location as int)
                    }
                &&& forall|w: int|
                    0 <= w < final(self).forward_refs.len() ==> (
                    #[trigger] final(self).forward_refs[w]).signature@ != sig_of(*state)@
            },
    {
        match self.declare(state) {
            Ok(()) => {},
            Err(e) => {
                return Err(e);
            },
        }
        let ghost head = self.model();
        let mut i: usize = 0;
        while i < state.arms.len()
            invariant
                i <= state.arms.len(),
                self.wf(),
                declared(old(self).model(), *state) == Ok::<Model, crate::error::Failure>(head),
                state.state_params.len() <= 256,
                state.symbol_params.len() <= 256,
                arms_upto(
                    head,
                    state.arms@,
                    i as int,
                    names_of(state.state_params@),
                    names_of(state.symbol_params@),
                ) == Ok::<Model, crate::error::Failure>(self.model()),
            decreases state.arms.len() - i,
        {
            let is_last: bool = i + 1 == state.arms.len();
            match self.compile_arm(
                &state.arms[i],
                &state.state_params,
                &state.symbol_params,
                is_last,
            ) {
                Ok(()) => {},
                Err(e) => {
                    proof {
                        lemma_arms_error_stable(
                            head,
                            state.arms@,
                            i + 1,
                            state.arms.len() as int,
                            names_of(state.state_params@),
                            names_of(state.symbol_params@),
                        );
                        lemma_arms_stop(
                            head,
                            state.arms@,
                            i as int,
                            state.arms.len() as int,
                            names_of(state.state_params@),
                            names_of(state.symbol_params@),
                        );
                    }
                    return Err(e);
                },
            }
            i += 1;
        }
        proof {
            assert(self.out.bytes.len() <= usize::MAX);
            crate::layout::lemma_state_resolves(old(self).model(), *state, 0);
            assert forall|k: int| 0 <= k < old(self).forward_refs.len() implies u32_at(
                self.out@,
                (#[trigger] old(self).forward_refs[k]).location as int,
            ) == if old(self).forward_refs[k].signature@ == sig_of(*state)@ {
                old(self).out@.len() as u32
            } else {
                u32_at(old(self).out@, old(self).forward_refs[k].location as int)
            } by {
                crate::layout::lemma_state_resolves(old(self).model(), *state, k);
            }
        }
        Ok(())
    }

    /// Writes a whole program. A slot that is left unresolved is reported
    /// at the oldest such slot; a missing `start` is reported without a
    /// place, as no token is at fault.
    pub fn compile(&mut self, unit: &Vec<State>) -> (r: Result<(), Error>)
        requires
            old(self).wf(),
            old(self).model() == start_model(),
        ensures
            final(self).wf(),
            match program_spec(unit@) {
                Ok(m) => r is Ok && final(self).model() == m,
                Err(f) => r is Err && r->Err_0@ == f && final(self).model() == program_stop(unit@),
            },
    {
        let mut i: usize = 0;
        while i < unit.len()
            invariant
                i <= unit.len(),
                self.wf(),
                states_upto(unit@, i as int) == Ok::<Model, crate::error::Failure>(self.model()),
            decreases unit.len() - i,
        {
            match self.compile_state(&unit[i]) {
                Ok(()) => {},
                Err(e) => {
                    proof {
                        lemma_states_error_stable(unit@, i + 1, unit.len() as int);
                        lemma_states_stop(unit@, i as int, unit.len() as int);
                    }
                    return Err(e);
                },
            }
            i += 1;
        }
        if self.forward_refs.len() > 0 {
            let mut msg = String::from_str("no function with signature `");
            let text = describe(&self.forward_refs[0].signature);
            msg.append(text.as_str());
            msg.append("`");
            return Err(
                Error::new(ErrorKind::NoSuchFunction, msg, Some(self.forward_refs[0].span)),
            );
        }
        let start = Signature { name: String::from_str("start"), states: 0, symbols: 0 };
        match self.lookup(&start) {
            Some(address) => {
                self.out.patch_u32(2, address);
                Ok(())
            },
            None => Err(
                Error::new(ErrorKind::NoStart, String::from_str("no `start` function"), None),
            ),
        }
    }
}

/// What compilation gives: the program, the symbol table, the name of the
/// state at each address, and the initial tape.
pub struct Compiled {
    pub bytes: Vec<u8>,
    pub symbols: BiHashMap<String, u16, RandomState, RandomState>,
    pub states: HashMap<u32, String>,
    pub tape: Vec<u16>,
}

impl View for Compiled {
    type V = crate::lower::CompiledModel;

    open spec fn view(&self) -> crate::lower::CompiledModel {
        crate::lower::CompiledModel {
            bytes: self.bytes@,
            table: symbol_ids(self.symbols),
            names: self.states@,
            tape: self.tape@,
        }
    }
}

/// Compiles the program `unit` and interns the initial tape `symbols`
/// into the symbol table of the program. Every error has the place of the
/// token at fault, but for a missing `start`, where no token is at fault.
pub fn compile(unit: Vec<State>, symbols: Vec<Symbol>) -> (r: Result<Compiled, Error>)
    ensures
        match compile_spec(unit@, symbols@) {
            Ok(c) => r is Ok && r->Ok_0@ == c,
            Err(f) => r is Err && r->Err_0@ == f,
        },
        r is Ok ==> crate::symbols::table_wf(symbol_ids(r->Ok_0.symbols)),
{
    let mut compiler = Compiler::new();
    match compiler.compile(&unit) {
        Ok(()) => {},
        Err(e) => {
            return Err(e);
        },
    }
    let ghost table = compiler.symbols.ids();
    let ghost program = compiler.model();
    let mut tape: Vec<u16> = Vec::new();
    let mut i: usize = 0;
    while i < symbols.len()
        invariant
            i <= symbols.len(),
            compiler.symbols.wf(),
            compiler.out@ == program.bytes,
            compiler.state_names@ == program.names,
            table == program.table,
            program_spec(unit@) == Ok::<Model, crate::error::Failure>(program),
            tape_upto(table, symbols@, i as int) == Ok::<
                (Map<Seq<char>, u16>, Seq<u16>),
                crate::error::Failure,
            >((compiler.symbols.ids(), tape@)),
        decreases symbols.len() - i,
    {
        match compiler.symbols.insert(&symbols[i]) {
            Ok(id) => {
                tape.push(id);
            },
            Err(e) => {
                proof {
                    lemma_tape_error_stable(table, symbols@, i + 1, symbols.len() as int);
                }
                return Err(e);
            },
        }
        i += 1;
    }
    let Compiler { out, symbols: table, state_names, .. } = compiler;
    let Encoder { bytes } = out;
    let Symbols(map) = table;
    Ok(Compiled { bytes, symbols: map, states: state_names, tape })
}

/// A move writes instructions and touches nothing else.
pub proof fn lemma_moved_frame(m: Model, offset: int)
    ensures
        moved(m, offset).table == m.table,
        moved(m, offset).refs == m.refs,
        moved(m, offset).addrs == m.addrs,
        moved(m, offset).names == m.names,
        moved(m, offset).counts == m.counts,
{
    if offset < 0 {
        lemma_lefts_frame(m, -offset);
    } else {
        lemma_rights_frame(m, offset);
    }
}

proof fn lemma_lefts_frame(m: Model, n: int)
    ensures
        lefts(m, n).table == m.table,
        lefts(m, n).refs == m.refs,
        lefts(m, n).addrs == m.addrs,
        lefts(m, n).names == m.names,
        lefts(m, n).counts == m.counts,
    decreases n,
{
    if n >= 255 {
        lemma_lefts_frame(m.put(Instr::LeftN(255)), n - 255);
    }
}

proof fn lemma_rights_frame(m: Model, n: int)
    ensures
        rights(m, n).table == m.table,
        rights(m, n).refs == m.refs,
        rights(m, n).addrs == m.addrs,
        rights(m, n).names == m.names,
        rights(m, n).counts == m.counts,
    decreases n,
{
    if n >= 255 {
        lemma_rights_frame(m.put(Instr::RightN(255)), n - 255);
    }
}

/// A move does not look at the symbol table: it writes the same bytes
/// whatever the table holds.
pub proof fn lemma_moved_table(m: Model, with_table: Model, offset: int)
    requires
        with_table == (Model { table: with_table.table, ..m }),
    ensures
        moved(with_table, offset) == (Model { table: with_table.table, ..moved(m, offset) }),
{
    if offset < 0 {
        lemma_lefts_table(m, with_table, -offset);
    } else {
        lemma_rights_table(m, with_table, offset);
    }
}

proof fn lemma_lefts_table(m: Model, with_table: Model, n: int)
    requires
        with_table == (Model { table: with_table.table, ..m }),
    ensures
        lefts(with_table, n) == (Model { table: with_table.table, ..lefts(m, n) }),
    decreases n,
{
    if n >= 255 {
        lemma_lefts_table(m.put(Instr::LeftN(255)), with_table.put(Instr::LeftN(255)), n - 255);
    }
}

proof fn lemma_rights_table(m: Model, with_table: Model, n: int)
    requires
        with_table == (Model { table: with_table.table, ..m }),
    ensures
        rights(with_table, n) == (Model { table: with_table.table, ..rights(m, n) }),
    decreases n,
{
    if n >= 255 {
        lemma_rights_table(
            m.put(Instr::RightN(255)),
            with_table.put(Instr::RightN(255)),
            n - 255,
        );
    }
}

/// Where the operations stop at a fault: after those before the first
/// that fails.
pub proof fn lemma_ops_stop(m: Model, ops: Seq<Op>, i: int, k: int, scope: Scope)
    requires
        0 <= i < k,
        ops_upto(m, ops, i, scope) is Ok,
        ops_upto(m, ops, i + 1, scope) is Err,
    ensures
        ops_stop(m, ops, k, scope) == ops_upto(m, ops, i, scope)->Ok_0.0,
    decreases k - i,
{
    if k > i + 1 {
        lemma_ops_error_stable(m, ops, i + 1, k, scope);
        lemma_ops_stop(m, ops, i, k - 1, scope);
    } else {
        assert(ops_stop(m, ops, i, scope) == ops_upto(m, ops, i, scope)->Ok_0.0);
    }
}

/// Where the symbol arguments stop at a fault: after those before the
/// first that fails.
pub proof fn lemma_symbol_args_stop(m: Model, args: Seq<Pattern>, i: int, k: int, scope: Scope)
    requires
        0 <= i < k,
        symbol_args_upto(m, args, i, scope) is Ok,
        symbol_args_upto(m, args, i + 1, scope) is Err,
    ensures
        symbol_args_stop(m, args, k, scope) == symbol_args_upto(m, args, i, scope)->Ok_0,
    decreases k - i,
{
    if k > i + 1 {
        lemma_symbol_args_error_stable(m, args, i + 1, k, scope);
        lemma_symbol_args_stop(m, args, i, k - 1, scope);
    } else {
        assert(symbol_args_stop(m, args, i, scope) == symbol_args_upto(m, args, i, scope)->Ok_0);
    }
}

/// Where the state arguments stop at a fault: inside the first that fails.
pub proof fn lemma_state_args_stop(m: Model, t: ToState, i: int, k: int, scope: Scope)
    requires
        t is State,
        0 <= i < k <= t->state_args.len(),
        state_args_upto(m, t, i, scope) is Ok,
        state_args_upto(m, t, i + 1, scope) is Err,
    ensures
        state_args_stop(m, t, k, scope) == call_stop(
            state_args_upto(m, t, i, scope)->Ok_0,
            t->state_args[i],
            scope,
        ),
    decreases k - i,
{
    if k > i + 1 {
        lemma_state_args_error_stable(m, t, i + 1, k - 1, scope);
        lemma_state_args_stop(m, t, i, k - 1, scope);
    }
}

/// Where the arms stop at a fault: inside the first that fails.
pub proof fn lemma_arms_stop(
    m: Model,
    arms: Seq<Arm>,
    i: int,
    k: int,
    states: Seq<Seq<char>>,
    symbols: Seq<Seq<char>>,
)
    requires
        0 <= i < k <= arms.len(),
        arms_upto(m, arms, i, states, symbols) is Ok,
        arms_upto(m, arms, i + 1, states, symbols) is Err,
    ensures
        arms_stop(m, arms, k, states, symbols) == arm_stop(
            arms_upto(m, arms, i, states, symbols)->Ok_0,
            arms[i],
            states,
            symbols,
            i + 1 == arms.len(),
        ),
    decreases k - i,
{
    if k > i + 1 {
        lemma_arms_error_stable(m, arms, i + 1, k - 1, states, symbols);
        lemma_arms_stop(m, arms, i, k - 1, states, symbols);
    }
}

/// Where the declarations stop at a fault: inside the first that fails.
pub proof fn lemma_states_stop(unit: Seq<State>, i: int, k: int)
    requires
        0 <= i < k,
        states_upto(unit, i) is Ok,
        states_upto(unit, i + 1) is Err,
    ensures
        states_stop(unit, k) == state_stop(states_upto(unit, i)->Ok_0, unit[i]),
    decreases k - i,
{
    if k > i + 1 {
        lemma_states_error_stable(unit, i + 1, k - 1);
        lemma_states_stop(unit, i, k - 1);
    }
}

/// The first fault among the operations stays the first below any larger
/// bound.
pub proof fn lemma_ops_error_stable(m: Model, ops: Seq<Op>, n: int, k: int, scope: Scope)
    requires
        n <= k,
        ops_upto(m, ops, n, scope) is Err,
    ensures
        ops_upto(m, ops, k, scope) == ops_upto(m, ops, n, scope),
    decreases k - n,
{
    if n < k {
        lemma_ops_error_stable(m, ops, n, k - 1, scope);
    }
}

} // verus!
