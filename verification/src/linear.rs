//! State parameters are used linearly: the code that an arm's outer call
//! writes gives up each state parameter of the state exactly once. A use
//! that is not the last clones the parameter; what has no use is released
//! before the one terminal instruction, which ends the code.

use vstd::prelude::*;
use crate::bytecode::Instr;
use crate::compile::{lemma_index_found, lemma_uses_nonneg, lemma_uses_upto_nonneg};
use crate::lower::{
    call_spec, frees, frees_upto, index_of, state_args_upto, symbol_args_upto, use_counts, uses,
    uses_upto, Model, Scope,
};
use crate::parse::{Pattern, ToState};
use crate::shape::{inner, is_inner};

verus! {

/// 1 if `instr` gives up state parameter `i`: by taking it, by releasing
/// it, or by making it the current state; 0 otherwise.
pub open spec fn consumes(instr: Instr, i: int) -> int {
    match instr {
        Instr::TakeArg(a) => if a == i {
            1
        } else {
            0
        },
        Instr::FreeArg(a) => if a == i {
            1
        } else {
            0
        },
        Instr::FinalArg(a) => if a == i {
            1
        } else {
            0
        },
        _ => 0,
    }
}

/// How many instructions of `trace` give up state parameter `i`.
pub open spec fn consumed(trace: Seq<Instr>, i: int) -> int
    decreases trace.len(),
{
    if trace.len() == 0 {
        0
    } else {
        consumed(trace.drop_last(), i) + consumes(trace.last(), i)
    }
}

/// 1 if `instr` clones state parameter `i`; 0 otherwise.
pub open spec fn clones(instr: Instr, i: int) -> int {
    match instr {
        Instr::CloneArg(a) => if a == i {
            1
        } else {
            0
        },
        _ => 0,
    }
}

/// How many instructions of `trace` clone state parameter `i`.
pub open spec fn cloned(trace: Seq<Instr>, i: int) -> int
    decreases trace.len(),
{
    if trace.len() == 0 {
        0
    } else {
        cloned(trace.drop_last(), i) + clones(trace.last(), i)
    }
}

/// The bytes of a list of instructions.
pub open spec fn encoded(code: Seq<Instr>) -> Seq<u8>
    decreases code.len(),
{
    if code.len() == 0 {
        Seq::empty()
    } else {
        encoded(code.drop_last()) + code.last().encoding()
    }
}

/// The instructions that were written between two states of the compiler.
pub open spec fn code_between(a: Model, b: Model) -> Seq<Instr> {
    b.trace.subrange(a.trace.len() as int, b.trace.len() as int)
}

/// `b` comes from `a` by writing instructions at the end: the program of
/// `b` is that of `a` and the bytes of those instructions.
pub open spec fn wrote(a: Model, b: Model) -> bool {
    &&& a.trace.len() <= b.trace.len()
    &&& b.trace.subrange(0, a.trace.len() as int) == a.trace
    &&& b.bytes == a.bytes + encoded(code_between(a, b))
}

/// What the count of a state parameter is while a call is written, given
/// that `rest` of its `total` uses are still to come: the number of uses to
/// come, and 1 once the last use has taken it.
pub open spec fn tracking(count: usize, rest: int, total: int) -> bool {
    &&& 0 <= rest <= total <= usize::MAX
    &&& if total == 0 {
        count == 0
    } else if rest >= 1 {
        count == rest
    } else {
        count == 1
    }
}

proof fn lemma_put(m: Model, instr: Instr, i: int)
    ensures
        consumed(m.put(instr).trace, i) == consumed(m.trace, i) + consumes(instr, i),
        cloned(m.put(instr).trace, i) == cloned(m.trace, i) + clones(instr, i),
        m.put(instr).counts == m.counts,
{
    assert(m.trace.push(instr).drop_last() =~= m.trace);
}

proof fn lemma_frees(m: Model, n: int, i: int)
    requires
        0 <= i,
        0 <= n <= m.counts.len() <= 256,
    ensures
        frees_upto(m, n).counts == m.counts,
        cloned(frees_upto(m, n).trace, i) == cloned(m.trace, i),
        consumed(frees_upto(m, n).trace, i) == consumed(m.trace, i) + (if i < n && m.counts[i]
            == 0 {
            1int
        } else {
            0int
        }),
    decreases n,
{
    if n > 0 {
        lemma_frees(m, n - 1, i);
        lemma_put(frees_upto(m, n - 1), Instr::FreeArg((n - 1) as u8), i);
    }
}

proof fn lemma_symbol_args(m: Model, args: Seq<Pattern>, n: int, scope: Scope, i: int)
    requires
        symbol_args_upto(m, args, n, scope) is Ok,
    ensures
        symbol_args_upto(m, args, n, scope)->Ok_0.counts == m.counts,
        symbol_args_upto(m, args, n, scope)->Ok_0.addrs == m.addrs,
        consumed(symbol_args_upto(m, args, n, scope)->Ok_0.trace, i) == consumed(m.trace, i),
        cloned(symbol_args_upto(m, args, n, scope)->Ok_0.trace, i) == cloned(m.trace, i),
    decreases n,
{
    if n > 0 {
        lemma_symbol_args(m, args, n - 1, scope, i);
        let m1 = symbol_args_upto(m, args, n - 1, scope)->Ok_0;
        match args[n - 1] {
            Pattern::Symbol(symbol) => {
                let next = crate::symbols::interned(m1.table, symbol.symbol@)->0;
                lemma_put(Model { table: next.0, ..m1 }, Instr::SymbolVal(next.1), i);
            },
            Pattern::Name(name) => {
                let instr = crate::lower::named_symbol(scope, name.name@)->0;
                lemma_put(m1, instr, i);
            },
        }
    }
}

/// A call in nested position: the count of parameter `i` keeps track of
/// the uses to come, and the parameter is taken exactly where its last use
/// stands.
proof fn lemma_nested(m: Model, t: ToState, scope: Scope, i: int, rest: int, total: int)
    requires
        0 <= i < scope.states.len() == m.counts.len() <= 256,
        uses(t, scope.states, i) <= rest,
        tracking(m.counts[i], rest, total),
        call_spec(m, t, scope, false) is Ok,
    ensures
        call_spec(m, t, scope, false)->Ok_0.counts.len() == m.counts.len(),
        tracking(
            call_spec(m, t, scope, false)->Ok_0.counts[i],
            rest - uses(t, scope.states, i),
            total,
        ),
        consumed(call_spec(m, t, scope, false)->Ok_0.trace, i) == consumed(m.trace, i) + (if uses(
            t,
            scope.states,
            i,
        ) >= 1 && rest == uses(t, scope.states, i) {
            1int
        } else {
            0int
        }),
        cloned(call_spec(m, t, scope, false)->Ok_0.trace, i) == cloned(m.trace, i) + uses(
            t,
            scope.states,
            i,
        ) - (if uses(t, scope.states, i) >= 1 && rest == uses(t, scope.states, i) {
            1int
        } else {
            0int
        }),
    decreases t, 1int, 0int,
{
    lemma_uses_nonneg(t, scope.states, i);
    match t {
        ToState::Halt { .. } => {
            lemma_put(m, Instr::MakeState(0, crate::bytecode::HALT_ADDRESS), i);
        },
        ToState::State { name, state_args, symbol_args } => {
            match index_of(scope.states, name.name@) {
                Some(j) => {
                    lemma_index_found(scope.states, name.name@, scope.states.len() as int);
                    if m.counts[j] == 1 {
                        lemma_put(m, Instr::TakeArg(j as u8), i);
                    } else {
                        lemma_put(
                            Model { counts: m.counts.update(j, (m.counts[j] - 1) as usize), ..m },
                            Instr::CloneArg(j as u8),
                            i,
                        );
                    }
                },
                None => {
                    let n = state_args.len() as int;
                    lemma_args(m, t, n, scope, i, rest, total);
                    let m1 = state_args_upto(m, t, n, scope)->Ok_0;
                    lemma_symbol_args(m1, symbol_args@, symbol_args.len() as int, scope, i);
                    let m2 = symbol_args_upto(m1, symbol_args@, symbol_args.len() as int, scope)->Ok_0;
                    let sig = crate::lower::Signature {
                        name: name.name,
                        states: state_args.len(),
                        symbols: symbol_args.len(),
                    };
                    match crate::lower::lookup(m2.addrs, sig@) {
                        Some(address) => {
                            lemma_put(m2, crate::lower::call_instr(false, sig.states as int, address), i);
                        },
                        None => {
                            lemma_put(
                                m2,
                                crate::lower::call_instr(
                                    false,
                                    sig.states as int,
                                    crate::bytecode::UNRESOLVED,
                                ),
                                i,
                            );
                        },
                    }
                },
            }
        },
    }
}

/// The first `n` state arguments of a call: as [`lemma_nested`].
proof fn lemma_args(m: Model, t: ToState, n: int, scope: Scope, i: int, rest: int, total: int)
    requires
        t is State,
        0 <= n <= t->state_args.len(),
        0 <= i < scope.states.len() == m.counts.len() <= 256,
        uses_upto(t, n, scope.states, i) <= rest,
        tracking(m.counts[i], rest, total),
        state_args_upto(m, t, n, scope) is Ok,
    ensures
        state_args_upto(m, t, n, scope)->Ok_0.counts.len() == m.counts.len(),
        tracking(
            state_args_upto(m, t, n, scope)->Ok_0.counts[i],
            rest - uses_upto(t, n, scope.states, i),
            total,
        ),
        consumed(state_args_upto(m, t, n, scope)->Ok_0.trace, i) == consumed(m.trace, i) + (
        if uses_upto(t, n, scope.states, i) >= 1 && rest == uses_upto(t, n, scope.states, i) {
            1int
        } else {
            0int
        }),
        cloned(state_args_upto(m, t, n, scope)->Ok_0.trace, i) == cloned(m.trace, i) + uses_upto(
            t,
            n,
            scope.states,
            i,
        ) - (if uses_upto(t, n, scope.states, i) >= 1 && rest == uses_upto(
            t,
            n,
            scope.states,
            i,
        ) {
            1int
        } else {
            0int
        }),
    decreases t, 0int, n,
{
    lemma_uses_upto_nonneg(t, n, scope.states, i);
    if n > 0 {
        lemma_uses_upto_nonneg(t, n - 1, scope.states, i);
        lemma_uses_nonneg(t->state_args[n - 1], scope.states, i);
        lemma_args(m, t, n - 1, scope, i, rest, total);
        let m1 = state_args_upto(m, t, n - 1, scope)->Ok_0;
        lemma_nested(
            m1,
            t->state_args[n - 1],
            scope,
            i,
            rest - uses_upto(t, n - 1, scope.states, i),
            total,
        );
    }
}

/// Linear use: the instructions that the outer call of an arm writes give
/// up each state parameter exactly once. A parameter with uses is taken by
/// its last use, or becomes the current state; one without is released.
///
/// The counts are those with which an arm starts its outer call. A
/// parameter with more uses than a machine integer can count is left out.
pub proof fn lemma_linear_use(m: Model, t: ToState, scope: Scope, i: int)
    requires
        0 <= i < scope.states.len() <= 256,
        m.counts == use_counts(t, scope.states),
        uses(t, scope.states, i) <= usize::MAX,
        call_spec(m, t, scope, true) is Ok,
    ensures
        consumed(call_spec(m, t, scope, true)->Ok_0.trace, i) == consumed(m.trace, i) + 1,
        cloned(call_spec(m, t, scope, true)->Ok_0.trace, i) == cloned(m.trace, i) + (if uses(
            t,
            scope.states,
            i,
        ) >= 1 {
            uses(t, scope.states, i) - 1
        } else {
            0int
        }),
{
    lemma_uses_nonneg(t, scope.states, i);
    lemma_frees(m, m.counts.len() as int, i);
    match t {
        ToState::Halt { .. } => {
            lemma_put(frees(m), Instr::FinalState(crate::bytecode::HALT_ADDRESS), i);
        },
        ToState::State { name, state_args, symbol_args } => {
            match index_of(scope.states, name.name@) {
                Some(j) => {
                    lemma_index_found(scope.states, name.name@, scope.states.len() as int);
                    assert(m.counts[j] == 1);
                    lemma_put(frees(m), Instr::FinalArg(j as u8), i);
                },
                None => {
                    let n = state_args.len() as int;
                    let total = uses(t, scope.states, i);
                    lemma_args(m, t, n, scope, i, total, total);
                    let m1 = state_args_upto(m, t, n, scope)->Ok_0;
                    lemma_symbol_args(m1, symbol_args@, symbol_args.len() as int, scope, i);
                    let m2 = symbol_args_upto(m1, symbol_args@, symbol_args.len() as int, scope)->Ok_0;
                    lemma_frees(m2, m2.counts.len() as int, i);
                    let sig = crate::lower::Signature {
                        name: name.name,
                        states: state_args.len(),
                        symbols: symbol_args.len(),
                    };
                    match crate::lower::lookup(m2.addrs, sig@) {
                        Some(address) => {
                            lemma_put(
                                frees(m2),
                                crate::lower::call_instr(true, sig.states as int, address),
                                i,
                            );
                        },
                        None => {
                            lemma_put(
                                frees(m2),
                                crate::lower::call_instr(
                                    true,
                                    sig.states as int,
                                    crate::bytecode::UNRESOLVED,
                                ),
                                i,
                            );
                        },
                    }
                },
            }
        },
    }
}

/// The bytes of two lists of instructions, one after the other.
pub proof fn lemma_encoded_concat(a: Seq<Instr>, b: Seq<Instr>)
    ensures
        encoded(a + b) == encoded(a) + encoded(b),
    decreases b.len(),
{
    if b.len() == 0 {
        assert(a + b =~= a);
        assert(encoded(a) + encoded(b) =~= encoded(a));
    } else {
        assert((a + b).drop_last() =~= a + b.drop_last());
        assert((a + b).last() == b.last());
        lemma_encoded_concat(a, b.drop_last());
        assert(encoded(a) + encoded(b.drop_last()) + b.last().encoding() =~= encoded(a) + (encoded(
            b.drop_last(),
        ) + b.last().encoding()));
    }
}

/// The instructions of two lists, one after the other, that give up or
/// clone a state parameter.
pub proof fn lemma_counts_concat(a: Seq<Instr>, b: Seq<Instr>, i: int)
    ensures
        consumed(a + b, i) == consumed(a, i) + consumed(b, i),
        cloned(a + b, i) == cloned(a, i) + cloned(b, i),
    decreases b.len(),
{
    if b.len() == 0 {
        assert(a + b =~= a);
    } else {
        assert((a + b).drop_last() =~= a + b.drop_last());
        assert((a + b).last() == b.last());
        lemma_counts_concat(a, b.drop_last(), i);
    }
}

proof fn lemma_wrote_refl(a: Model)
    ensures
        wrote(a, a),
        inner(a.trace, a.trace.len() as int, a.trace.len() as int),
{
    assert(a.trace.subrange(0, a.trace.len() as int) =~= a.trace);
    assert(code_between(a, a) =~= Seq::<Instr>::empty());
    assert(a.bytes + encoded(code_between(a, a)) =~= a.bytes);
}

proof fn lemma_wrote_trans(a: Model, b: Model, c: Model)
    requires
        wrote(a, b),
        wrote(b, c),
    ensures
        wrote(a, c),
        code_between(a, c) == code_between(a, b) + code_between(b, c),
        forall|k: int| 0 <= k < b.trace.len() ==> c.trace[k] == b.trace[k],
{
    assert forall|k: int| 0 <= k < b.trace.len() implies c.trace[k] == b.trace[k] by {
        assert(c.trace.subrange(0, b.trace.len() as int)[k] == c.trace[k]);
    }
    assert forall|k: int| 0 <= k < a.trace.len() implies b.trace[k] == a.trace[k] by {
        assert(b.trace.subrange(0, a.trace.len() as int)[k] == b.trace[k]);
    }
    assert(c.trace.subrange(0, a.trace.len() as int) =~= a.trace);
    assert(code_between(a, c) =~= code_between(a, b) + code_between(b, c));
    lemma_encoded_concat(code_between(a, b), code_between(b, c));
    assert(a.bytes + encoded(code_between(a, b)) + encoded(code_between(b, c)) =~= a.bytes + (
    encoded(code_between(a, b)) + encoded(code_between(b, c))));
}

/// Steps that write instructions which may stand inside a right-hand
/// side, one after the other.
proof fn lemma_inner_trans(a: Model, b: Model, c: Model)
    requires
        wrote(a, b),
        wrote(b, c),
        inner(b.trace, a.trace.len() as int, b.trace.len() as int),
        inner(c.trace, b.trace.len() as int, c.trace.len() as int),
    ensures
        wrote(a, c),
        inner(c.trace, a.trace.len() as int, c.trace.len() as int),
{
    lemma_wrote_trans(a, b, c);
    assert forall|k: int| a.trace.len() <= k < c.trace.len() implies is_inner(
        #[trigger] c.trace[k],
    ) by {
        if k < b.trace.len() {
            assert(c.trace[k] == b.trace[k]);
            assert(is_inner(b.trace[k]));
        }
    }
}

proof fn lemma_wrote_put(m: Model, instr: Instr)
    ensures
        wrote(m, m.put(instr)),
        code_between(m, m.put(instr)) == seq![instr],
        m.put(instr).trace.last() == instr,
        is_inner(instr) ==> inner(
            m.put(instr).trace,
            m.trace.len() as int,
            m.put(instr).trace.len() as int,
        ),
{
    let b = m.put(instr);
    assert(b.trace.subrange(0, m.trace.len() as int) =~= m.trace);
    assert(code_between(m, b) =~= seq![instr]);
    assert(seq![instr].drop_last() =~= Seq::<Instr>::empty());
    assert(encoded(seq![instr]) =~= instr.encoding()) by {
        reveal_with_fuel(encoded, 2);
    }
}

proof fn lemma_wrote_same(a: Model, b: Model)
    requires
        a.bytes == b.bytes,
        a.trace == b.trace,
    ensures
        wrote(a, b),
        inner(b.trace, a.trace.len() as int, b.trace.len() as int),
{
    lemma_wrote_refl(a);
    assert(code_between(a, b) == code_between(a, a));
}

proof fn lemma_frees_wrote(m: Model, n: int)
    ensures
        wrote(m, frees_upto(m, n)),
        inner(frees_upto(m, n).trace, m.trace.len() as int, frees_upto(m, n).trace.len() as int),
    decreases n,
{
    if n <= 0 {
        lemma_wrote_refl(m);
    } else {
        lemma_frees_wrote(m, n - 1);
        let m1 = frees_upto(m, n - 1);
        if m.counts[n - 1] == 0 {
            lemma_wrote_put(m1, Instr::FreeArg((n - 1) as u8));
            lemma_inner_trans(m, m1, frees_upto(m, n));
        }
    }
}

proof fn lemma_symbol_args_wrote(m: Model, args: Seq<Pattern>, n: int, scope: Scope)
    requires
        symbol_args_upto(m, args, n, scope) is Ok,
    ensures
        wrote(m, symbol_args_upto(m, args, n, scope)->Ok_0),
        inner(
            symbol_args_upto(m, args, n, scope)->Ok_0.trace,
            m.trace.len() as int,
            symbol_args_upto(m, args, n, scope)->Ok_0.trace.len() as int,
        ),
    decreases n,
{
    if n <= 0 {
        lemma_wrote_refl(m);
    } else {
        lemma_symbol_args_wrote(m, args, n - 1, scope);
        let m1 = symbol_args_upto(m, args, n - 1, scope)->Ok_0;
        let m2 = symbol_args_upto(m, args, n, scope)->Ok_0;
        match args[n - 1] {
            Pattern::Symbol(symbol) => {
                let next = crate::symbols::interned(m1.table, symbol.symbol@)->0;
                let m1t = Model { table: next.0, ..m1 };
                lemma_wrote_same(m1, m1t);
                lemma_wrote_put(m1t, Instr::SymbolVal(next.1));
                lemma_inner_trans(m1, m1t, m2);
            },
            Pattern::Name(name) => {
                let instr = crate::lower::named_symbol(scope, name.name@)->0;
                lemma_wrote_put(m1, instr);
            },
        }
        lemma_inner_trans(m, m1, m2);
    }
}

/// One instruction after instructions that may stand inside a right-hand
/// side.
proof fn lemma_wrote_last(m: Model, before: Model, after: Model, instr: Instr)
    requires
        wrote(m, before),
        inner(before.trace, m.trace.len() as int, before.trace.len() as int),
        after.bytes == before.put(instr).bytes,
        after.trace == before.put(instr).trace,
    ensures
        wrote(m, after),
        after.trace.len() > m.trace.len(),
        inner(after.trace, m.trace.len() as int, after.trace.len() - 1),
        after.trace.last() == instr,
{
    lemma_wrote_put(before, instr);
    lemma_wrote_same(before.put(instr), after);
    lemma_wrote_trans(before, before.put(instr), after);
    lemma_wrote_trans(m, before, after);
    assert forall|k: int| m.trace.len() <= k < after.trace.len() - 1 implies is_inner(
        #[trigger] after.trace[k],
    ) by {
        assert(after.trace[k] == before.trace[k]);
        assert(is_inner(before.trace[k]));
    }
}

/// What a call writes: instructions that may stand inside a right-hand
/// side and, in outer position, one terminal instruction after them.
proof fn lemma_call_wrote(m: Model, t: ToState, scope: Scope, outer: bool)
    requires
        outer ==> m.counts == use_counts(t, scope.states),
        call_spec(m, t, scope, outer) is Ok,
    ensures
        wrote(m, call_spec(m, t, scope, outer)->Ok_0),
        call_spec(m, t, scope, outer)->Ok_0.trace.len() > m.trace.len(),
        inner(
            call_spec(m, t, scope, outer)->Ok_0.trace,
            m.trace.len() as int,
            call_spec(m, t, scope, outer)->Ok_0.trace.len() - 1,
        ),
        call_spec(m, t, scope, outer)->Ok_0.trace.last().opcode() >= crate::bytecode::LEFT,
        call_spec(m, t, scope, outer)->Ok_0.trace.last().is_terminal() == outer,
    decreases t, 1int, 0int,
{
    let m9 = call_spec(m, t, scope, outer)->Ok_0;
    lemma_frees_wrote(m, m.counts.len() as int);
    lemma_wrote_refl(m);
    match t {
        ToState::Halt { .. } => {
            if outer {
                lemma_wrote_last(m, frees(m), m9, Instr::FinalState(crate::bytecode::HALT_ADDRESS));
            } else {
                lemma_wrote_last(m, m, m9, Instr::MakeState(0, crate::bytecode::HALT_ADDRESS));
            }
        },
        ToState::State { name, state_args, symbol_args } => {
            match index_of(scope.states, name.name@) {
                Some(j) => {
                    lemma_index_found(scope.states, name.name@, scope.states.len() as int);
                    if m.counts[j] == 1 {
                        if outer {
                            lemma_wrote_last(m, frees(m), m9, Instr::FinalArg(j as u8));
                        } else {
                            lemma_wrote_last(m, m, m9, Instr::TakeArg(j as u8));
                        }
                    } else {
                        assert(!outer);
                        lemma_wrote_last(m, m, m9, Instr::CloneArg(j as u8));
                    }
                },
                None => {
                    let n = state_args.len() as int;
                    let m1 = state_args_upto(m, t, n, scope)->Ok_0;
                    let m2 = symbol_args_upto(m1, symbol_args@, symbol_args.len() as int, scope)->Ok_0;
                    lemma_args_wrote(m, t, n, scope);
                    lemma_symbol_args_wrote(m1, symbol_args@, symbol_args.len() as int, scope);
                    lemma_inner_trans(m, m1, m2);
                    let m3 = if outer {
                        frees(m2)
                    } else {
                        m2
                    };
                    if outer {
                        lemma_frees_wrote(m2, m2.counts.len() as int);
                        lemma_inner_trans(m, m2, m3);
                    }
                    let sig = crate::lower::Signature {
                        name: name.name,
                        states: state_args.len(),
                        symbols: symbol_args.len(),
                    };
                    let instr = match crate::lower::lookup(m2.addrs, sig@) {
                        Some(address) => crate::lower::call_instr(outer, sig.states as int, address),
                        None => crate::lower::call_instr(
                            outer,
                            sig.states as int,
                            crate::bytecode::UNRESOLVED,
                        ),
                    };
                    lemma_wrote_last(m, m3, m9, instr);
                },
            }
        },
    }
}

/// What the first `n` state arguments of a call write: instructions that
/// may stand inside a right-hand side.
proof fn lemma_args_wrote(m: Model, t: ToState, n: int, scope: Scope)
    requires
        state_args_upto(m, t, n, scope) is Ok,
    ensures
        wrote(m, state_args_upto(m, t, n, scope)->Ok_0),
        inner(
            state_args_upto(m, t, n, scope)->Ok_0.trace,
            m.trace.len() as int,
            state_args_upto(m, t, n, scope)->Ok_0.trace.len() as int,
        ),
    decreases t, 0int, n,
{
    match t {
        ToState::Halt { .. } => {
            lemma_wrote_refl(m);
        },
        ToState::State { name, state_args, symbol_args } => {
            if n <= 0 || n > state_args.len() {
                lemma_wrote_refl(m);
            } else {
                let m1 = state_args_upto(m, t, n - 1, scope)->Ok_0;
                let m2 = state_args_upto(m, t, n, scope)->Ok_0;
                lemma_args_wrote(m, t, n - 1, scope);
                lemma_call_wrote(m1, state_args[n - 1], scope, false);
                assert(m2.trace[m2.trace.len() - 1] == m2.trace.last());
                lemma_inner_trans(m, m1, m2);
            }
        },
    }
}

/// The code of an outer call: what the outer call of an arm adds to the
/// program is the bytes of the instructions that it writes, and among
/// those instructions
///
/// - exactly one gives up state parameter `i`: it takes it, releases it,
///   or makes it the current state;
/// - as many clone it as it has uses but the last;
/// - the last is the one terminal instruction, so that every release
///   comes before it.
///
/// The counts are those with which an arm starts its outer call. A
/// parameter with more uses than a machine integer can count is left out.
pub proof fn lemma_outer_call(m: Model, t: ToState, scope: Scope, i: int)
    requires
        0 <= i < scope.states.len() <= 256,
        m.counts == use_counts(t, scope.states),
        uses(t, scope.states, i) <= usize::MAX,
        call_spec(m, t, scope, true) is Ok,
    ensures
        ({
            let after = call_spec(m, t, scope, true)->Ok_0;
            let code = code_between(m, after);
            &&& after.bytes == m.bytes + encoded(code)
            &&& consumed(code, i) == 1
            &&& cloned(code, i) == if uses(t, scope.states, i) >= 1 {
                uses(t, scope.states, i) - 1
            } else {
                0int
            }
            &&& code.len() > 0
            &&& code.last().is_terminal()
            &&& forall|k: int| 0 <= k < code.len() - 1 ==> !(#[trigger] code[k]).is_terminal()
        }),
{
    let after = call_spec(m, t, scope, true)->Ok_0;
    let code = code_between(m, after);
    lemma_linear_use(m, t, scope, i);
    lemma_call_wrote(m, t, scope, true);
    assert(after.trace =~= m.trace + code);
    lemma_counts_concat(m.trace, code, i);
    assert(code.last() == after.trace.last());
    assert forall|k: int| 0 <= k < code.len() - 1 implies !(#[trigger] code[k]).is_terminal() by {
        assert(code[k] == after.trace[m.trace.len() + k]);
        assert(is_inner(after.trace[m.trace.len() + k]));
    }
}

} // verus!
