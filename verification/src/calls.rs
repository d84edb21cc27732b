//! The calls of a compiled program: every instruction that calls a state
//! holds the address of the halt state or the address of a declared state.

use vstd::prelude::*;
use crate::bytecode::{decode_at, lemma_le32, u32_at, HALT_ADDRESS, Instr};
use crate::encoder::patched16;
use crate::layout::{
    grown, layout_ok, lemma_call_len, lemma_end_call_grown, lemma_grown_refl, lemma_grown_trans,
    lemma_put_grown, lemma_same_layout, lemma_u32_same, refs_ok,
};
use crate::lower::{
    arm_spec, arms_upto, call_spec, declared, finish_call, frees, frees_upto, index_of, lefts,
    lemma_opened, lookup, moved, named_symbol, named_write, names_of, opened, ops_spec, ops_upto,
    pattern_instr, program_spec, rights, sig_of, start_sig, state_args_upto, states_upto,
    symbol_args_upto, use_counts, ForwardRef, Model, Scope, SigModel, Signature,
};
use crate::parse::{Arm, Op, OpKind, Pattern, State, ToState};
use crate::shape::{
    extends, lemma_offset_below, lemma_offset_prefix, lemma_offset_step, lemma_size_nonneg, offset,
    shape_ok, size_all,
};
use crate::symbols::interned;

verus! {

/// The offset of the address that a call holds, where the call stands at
/// offset `at`; `None` for an instruction that calls no state.
pub open spec fn call_slot(instr: Instr, at: int) -> Option<int> {
    match instr {
        Instr::FinalState(_) => Some(at + 1),
        Instr::MakeState(_, _) => Some(at + 2),
        _ => None,
    }
}

/// Whether the four bytes at offset `pos` are the slot of a call of a
/// named state.
pub open spec fn marked(slots: Seq<(int, SigModel)>, pos: int) -> bool {
    exists|j: int| 0 <= j < slots.len() && (#[trigger] slots[j]).0 == pos
}

/// Whether none of the slots that wait from index `from` on touches the
/// four bytes at offset `pos`.
pub open spec fn apart(refs: Seq<ForwardRef>, from: int, pos: int) -> bool {
    forall|r: int|
        from <= r < refs.len() ==> (#[trigger] refs[r]).location + 4 <= pos || pos + 4
            <= refs[r].location
}

/// Whether the address at offset `pos` is the slot of a call of a named
/// state, or is the address of the halt state and none of the slots that
/// wait from index `from` on touches it.
pub open spec fn addressed(m: Model, from: int, pos: int) -> bool {
    pos + 4 <= m.bytes.len() && (marked(m.slots, pos) || (u32_at(m.bytes, pos) == HALT_ADDRESS
        && apart(m.refs, from, pos)))
}

/// The offset of the instruction with index `k` of `b`, counted from the
/// end of `a`.
pub open spec fn place(a: Model, b: Model, k: int) -> int {
    a.bytes.len() + size_all(b.trace.take(k)) - size_all(a.trace)
}

/// Whether the instruction with index `k` of `b`, written after `a`, calls
/// no state or holds an address as it should.
pub open spec fn called_at(a: Model, b: Model, k: int) -> bool {
    match call_slot(b.trace[k], place(a, b, k)) {
        None => true,
        Some(pos) => addressed(b, a.refs.len() as int, pos),
    }
}

/// `b` comes from `a` by writing whole instructions at the end, and every
/// call among them holds an address as it should.
pub open spec fn called(a: Model, b: Model) -> bool {
    &&& grown(a, b)
    &&& extends(a.trace, b.trace)
    &&& b.bytes.len() - a.bytes.len() == size_all(b.trace) - size_all(a.trace)
    &&& forall|k: int| a.trace.len() <= k < b.trace.len() ==> called_at(a, b, k)
}

/// Whether the instruction with index `k` calls no state or holds an
/// address as it should.
pub open spec fn call_settled(m: Model, k: int) -> bool {
    match call_slot(m.trace[k], offset(m.trace, k)) {
        None => true,
        Some(pos) => addressed(m, 0, pos),
    }
}

/// Every call among the instructions holds an address as it should.
pub open spec fn calls_ok(m: Model) -> bool {
    forall|k: int| 0 <= k < m.trace.len() ==> call_settled(m, k)
}

pub proof fn lemma_called_refl(a: Model)
    ensures
        called(a, a),
{
    lemma_grown_refl(a);
    assert(a.trace.take(a.trace.len() as int) =~= a.trace);
}

/// A change of the symbol table or of the counts writes nothing.
pub proof fn lemma_same_called(a: Model, b: Model)
    requires
        a.bytes == b.bytes,
        a.trace == b.trace,
        a.refs == b.refs,
        a.addrs == b.addrs,
        a.names == b.names,
        a.slots == b.slots,
        a.skips == b.skips,
    ensures
        called(a, b),
{
    lemma_same_layout(a, b);
    assert(a.trace.take(a.trace.len() as int) =~= a.trace);
}

/// The size of the instructions after one more.
pub proof fn lemma_size_push(trace: Seq<Instr>, instr: Instr)
    ensures
        size_all(trace.push(instr)) == size_all(trace) + instr.size(),
{
    assert(trace.push(instr).drop_last() =~= trace);
}

/// Writing an instruction that calls no state, or that calls the halt
/// state, is writing as it should be.
pub proof fn lemma_put_called(m: Model, instr: Instr)
    requires
        match instr {
            Instr::FinalState(address) => address == HALT_ADDRESS,
            Instr::MakeState(_, address) => address == HALT_ADDRESS,
            _ => true,
        },
    ensures
        called(m, m.put(instr)),
{
    let b = m.put(instr);
    let n = m.trace.len() as int;
    lemma_put_grown(m, instr);
    lemma_size_push(m.trace, instr);
    assert(b.trace.take(n) =~= m.trace);
    assert forall|k: int| m.trace.len() <= k < b.trace.len() implies called_at(m, b, k) by {
        match call_slot(instr, place(m, b, k)) {
            None => {},
            Some(pos) => {
                assert(b.bytes[pos] == instr.encoding()[pos - m.bytes.len()]);
                assert(b.bytes[pos + 1] == instr.encoding()[pos + 1 - m.bytes.len()]);
                assert(b.bytes[pos + 2] == instr.encoding()[pos + 2 - m.bytes.len()]);
                assert(b.bytes[pos + 3] == instr.encoding()[pos + 3 - m.bytes.len()]);
                lemma_le32(b.bytes, pos, HALT_ADDRESS);
            },
        }
    }
}

pub proof fn lemma_called_trans(a: Model, b: Model, c: Model)
    requires
        called(a, b),
        called(b, c),
    ensures
        called(a, c),
{
    let na = a.trace.len() as int;
    let nb = b.trace.len() as int;
    lemma_grown_trans(a, b, c);
    assert(c.trace.take(na) =~= a.trace) by {
        assert forall|x: int| 0 <= x < na implies c.trace.take(na)[x] == a.trace[x] by {
            assert(c.trace.take(nb)[x] == c.trace[x]);
            assert(b.trace.take(na)[x] == b.trace[x]);
        }
    }
    assert forall|x: int| 0 <= x < b.bytes.len() implies c.bytes[x] == b.bytes[x] by {
        assert(c.bytes.subrange(0, b.bytes.len() as int)[x] == c.bytes[x]);
    }
    assert forall|k: int| na <= k < c.trace.len() implies called_at(a, c, k) by {
        if k < nb {
            assert(c.trace.take(nb)[k] == c.trace[k]);
            assert(c.trace.take(k) =~= b.trace.take(k)) by {
                assert forall|x: int| 0 <= x < k implies c.trace.take(k)[x] == b.trace.take(k)[x] by {
                    assert(c.trace.take(nb)[x] == c.trace[x]);
                }
            }
            assert(called_at(a, b, k));
            match call_slot(b.trace[k], place(a, b, k)) {
                None => {},
                Some(pos) => {
                    if marked(b.slots, pos) {
                        let j = choose|j: int| 0 <= j < b.slots.len() && (#[trigger] b.slots[j]).0 == pos;
                        assert(c.slots[j] == b.slots[j]);
                    } else {
                        lemma_size_nonneg(b.trace.take(k));
                        lemma_offset_below(b.trace, na, k);
                        lemma_u32_same(b.bytes, c.bytes, pos);
                        assert forall|r: int| a.refs.len() <= r < c.refs.len() implies (
                        #[trigger] c.refs[r]).location + 4 <= pos || pos + 4
                            <= c.refs[r].location by {
                            if r < b.refs.len() {
                                assert(c.refs[r] == b.refs[r]);
                            }
                        }
                    }
                },
            }
        } else {
            assert(called_at(b, c, k));
            lemma_offset_below(c.trace, nb, k);
            match call_slot(c.trace[k], place(b, c, k)) {
                None => {},
                Some(pos) => {
                    if !marked(c.slots, pos) {
                        assert forall|r: int| a.refs.len() <= r < c.refs.len() implies (
                        #[trigger] c.refs[r]).location + 4 <= pos || pos + 4
                            <= c.refs[r].location by {
                            if r < b.refs.len() {
                                assert(c.refs[r] == b.refs[r]);
                                assert(b.refs[r].location + 4 <= b.bytes.len());
                            }
                        }
                    }
                },
            }
        }
    }
}

/// What is written as it should be keeps every call as it should be.
pub proof fn lemma_called_ok(a: Model, b: Model)
    requires
        calls_ok(a),
        shape_ok(a),
        refs_ok(a.refs, a.bytes.len() as int),
        called(a, b),
    ensures
        calls_ok(b),
{
    let na = a.trace.len() as int;
    assert(a.trace.take(na) =~= a.trace);
    assert forall|x: int| 0 <= x < a.bytes.len() implies b.bytes[x] == a.bytes[x] by {
        assert(b.bytes.subrange(0, a.bytes.len() as int)[x] == b.bytes[x]);
    }
    assert forall|k: int| 0 <= k < b.trace.len() implies call_settled(b, k) by {
        if k < na {
            assert(b.trace.take(na)[k] == b.trace[k]);
            lemma_offset_prefix(a.trace, b.trace, k);
            lemma_offset_step(a.trace, k);
            lemma_offset_below(a.trace, k + 1, na);
            assert(call_settled(a, k));
            match call_slot(a.trace[k], offset(a.trace, k)) {
                None => {},
                Some(pos) => {
                    if marked(a.slots, pos) {
                        let j = choose|j: int| 0 <= j < a.slots.len() && (#[trigger] a.slots[j]).0 == pos;
                        assert(b.slots[j] == a.slots[j]);
                    } else {
                        lemma_u32_same(a.bytes, b.bytes, pos);
                        assert forall|r: int| 0 <= r < b.refs.len() implies (
                        #[trigger] b.refs[r]).location + 4 <= pos || pos + 4
                            <= b.refs[r].location by {
                            if r < a.refs.len() {
                                assert(b.refs[r] == a.refs[r]);
                            }
                        }
                    }
                },
            }
        } else {
            assert(called_at(a, b, k));
            lemma_offset_below(b.trace, na, k);
            match call_slot(b.trace[k], place(a, b, k)) {
                None => {},
                Some(pos) => {
                    if !marked(b.slots, pos) {
                        assert forall|r: int| 0 <= r < b.refs.len() implies (
                        #[trigger] b.refs[r]).location + 4 <= pos || pos + 4
                            <= b.refs[r].location by {
                            if r < a.refs.len() {
                                assert(b.refs[r] == a.refs[r]);
                            }
                        }
                    }
                },
            }
        }
    }
}

/// A move to the left is written as it should be.
pub proof fn lemma_lefts_called(m: Model, n: int)
    ensures
        called(m, lefts(m, n)),
    decreases n,
{
    if n >= 255 {
        lemma_put_called(m, Instr::LeftN(255));
        lemma_lefts_called(m.put(Instr::LeftN(255)), n - 255);
        lemma_called_trans(m, m.put(Instr::LeftN(255)), lefts(m, n));
    } else if n == 1 {
        lemma_put_called(m, Instr::Left);
    } else if n > 0 {
        lemma_put_called(m, Instr::LeftN(n as u8));
    } else {
        lemma_called_refl(m);
    }
}

/// A move to the right is written as it should be.
pub proof fn lemma_rights_called(m: Model, n: int)
    ensures
        called(m, rights(m, n)),
    decreases n,
{
    if n >= 255 {
        lemma_put_called(m, Instr::RightN(255));
        lemma_rights_called(m.put(Instr::RightN(255)), n - 255);
        lemma_called_trans(m, m.put(Instr::RightN(255)), rights(m, n));
    } else if n == 1 {
        lemma_put_called(m, Instr::Right);
    } else if n > 0 {
        lemma_put_called(m, Instr::RightN(n as u8));
    } else {
        lemma_called_refl(m);
    }
}

/// A move is written as it should be.
pub proof fn lemma_moved_called(m: Model, offset: int)
    ensures
        called(m, moved(m, offset)),
{
    if offset < 0 {
        lemma_lefts_called(m, -offset);
    } else {
        lemma_rights_called(m, offset);
    }
}

/// The operations of an arm are written as they should be.
pub proof fn lemma_ops_called(m: Model, ops: Seq<Op>, n: int, scope: Scope)
    requires
        ops_upto(m, ops, n, scope) is Ok,
    ensures
        called(m, ops_upto(m, ops, n, scope)->Ok_0.0),
    decreases n,
{
    if n <= 0 {
        lemma_called_refl(m);
    } else {
        lemma_ops_called(m, ops, n - 1, scope);
        let (m1, offset) = ops_upto(m, ops, n - 1, scope)->Ok_0;
        let m2 = ops_upto(m, ops, n, scope)->Ok_0.0;
        match ops[n - 1].kind {
            OpKind::Left => {},
            OpKind::Right => {},
            OpKind::Name(name) => {
                lemma_moved_called(m1, offset);
                lemma_put_called(moved(m1, offset), named_write(scope, name@)->0);
                lemma_called_trans(m1, moved(m1, offset), m2);
                lemma_called_trans(m, m1, m2);
            },
            OpKind::Symbol(text) => {
                let next = interned(m1.table, text@)->0;
                lemma_moved_called(m1, offset);
                let m1t = Model { table: next.0, ..moved(m1, offset) };
                lemma_same_called(moved(m1, offset), m1t);
                lemma_put_called(m1t, Instr::WriteVal(next.1));
                lemma_called_trans(m1, moved(m1, offset), m1t);
                lemma_called_trans(m1, m1t, m2);
                lemma_called_trans(m, m1, m2);
            },
        }
    }
}

/// Releasing the unused state parameters is written as it should be.
pub proof fn lemma_frees_called(m: Model, n: int)
    ensures
        called(m, frees_upto(m, n)),
    decreases n,
{
    if n <= 0 {
        lemma_called_refl(m);
    } else {
        lemma_frees_called(m, n - 1);
        if m.counts[n - 1] == 0 {
            lemma_put_called(frees_upto(m, n - 1), Instr::FreeArg((n - 1) as u8));
            lemma_called_trans(m, frees_upto(m, n - 1), frees_upto(m, n));
        }
    }
}

/// The symbol arguments of a call are written as they should be.
pub proof fn lemma_symbol_args_called(m: Model, args: Seq<Pattern>, n: int, scope: Scope)
    requires
        symbol_args_upto(m, args, n, scope) is Ok,
    ensures
        called(m, symbol_args_upto(m, args, n, scope)->Ok_0),
    decreases n,
{
    if n <= 0 {
        lemma_called_refl(m);
    } else {
        lemma_symbol_args_called(m, args, n - 1, scope);
        let m1 = symbol_args_upto(m, args, n - 1, scope)->Ok_0;
        let m2 = symbol_args_upto(m, args, n, scope)->Ok_0;
        match args[n - 1] {
            Pattern::Symbol(symbol) => {
                let next = interned(m1.table, symbol.symbol@)->0;
                let m1t = Model { table: next.0, ..m1 };
                lemma_same_called(m1, m1t);
                lemma_put_called(m1t, Instr::SymbolVal(next.1));
                lemma_called_trans(m1, m1t, m2);
            },
            Pattern::Name(name) => {
                lemma_put_called(m1, named_symbol(scope, name.name@)->0);
            },
        }
        lemma_called_trans(m, m1, m2);
    }
}

/// The instruction that ends a call of a named state is written as it
/// should be: the slot of its address is recorded.
pub proof fn lemma_finish_call_called(m: Model, sig: Signature, span: crate::lex::Span, outer: bool)
    requires
        finish_call(m, sig, span, outer).bytes.len() <= usize::MAX,
    ensures
        called(m, finish_call(m, sig, span, outer)),
        finish_call(m, sig, span, outer).bytes.len() > m.bytes.len(),
{
    let m1 = if outer {
        frees(m)
    } else {
        m
    };
    let m2 = finish_call(m, sig, span, outer);
    let n = m1.trace.len() as int;
    let location = m1.bytes.len() + if outer {
        1int
    } else {
        2int
    };
    lemma_end_call_grown(m, sig, span, outer);
    assert(m2.trace.take(n) =~= m1.trace);
    assert(m2.trace.drop_last() =~= m1.trace);
    assert(m2.slots[m2.slots.len() - 1].0 == location);
    assert forall|k: int| n <= k < m2.trace.len() implies called_at(m1, m2, k) by {
        assert(marked(m2.slots, location));
    }
    assert(called(m1, m2));
    if outer {
        lemma_frees_called(m, m.counts.len() as int);
        lemma_called_trans(m, m1, m2);
    }
}

/// A call is written as it should be.
pub proof fn lemma_call_called(m: Model, t: ToState, scope: Scope, outer: bool)
    requires
        call_spec(m, t, scope, outer) is Ok,
        call_spec(m, t, scope, outer)->Ok_0.bytes.len() <= usize::MAX,
    ensures
        called(m, call_spec(m, t, scope, outer)->Ok_0),
        call_spec(m, t, scope, outer)->Ok_0.bytes.len() > m.bytes.len(),
    decreases t, 1int, 0int,
{
    let m9 = call_spec(m, t, scope, outer)->Ok_0;
    match t {
        ToState::Halt { .. } => {
            if outer {
                lemma_frees_called(m, m.counts.len() as int);
                lemma_put_called(frees(m), Instr::FinalState(crate::bytecode::HALT_ADDRESS));
                lemma_called_trans(m, frees(m), m9);
            } else {
                lemma_put_called(m, Instr::MakeState(0, crate::bytecode::HALT_ADDRESS));
            }
        },
        ToState::State { name, state_args, symbol_args } => {
            match crate::lower::index_of(scope.states, name.name@) {
                Some(i) => {
                    if m.counts[i] == 1 {
                        if outer {
                            lemma_frees_called(m, m.counts.len() as int);
                            lemma_put_called(frees(m), Instr::FinalArg(i as u8));
                            lemma_called_trans(m, frees(m), m9);
                        } else {
                            lemma_put_called(m, Instr::TakeArg(i as u8));
                        }
                    } else {
                        let mc = Model {
                            counts: m.counts.update(i, (m.counts[i] - 1) as usize),
                            ..m
                        };
                        lemma_same_called(m, mc);
                        lemma_put_called(mc, Instr::CloneArg(i as u8));
                        lemma_called_trans(m, mc, m9);
                    }
                },
                None => {
                    let n = state_args.len() as int;
                    let m1 = state_args_upto(m, t, n, scope)->Ok_0;
                    let m2 = symbol_args_upto(m1, symbol_args@, symbol_args.len() as int, scope)->Ok_0;
                    let sig = Signature {
                        name: name.name,
                        states: state_args.len(),
                        symbols: symbol_args.len(),
                    };
                    lemma_finish_call_called(m2, sig, name.span, outer);
                    lemma_symbol_args_called(m1, symbol_args@, symbol_args.len() as int, scope);
                    lemma_args_called(m, t, n, scope);
                    lemma_called_trans(m1, m2, m9);
                    lemma_called_trans(m, m1, m9);
                },
            }
        },
    }
}

/// The state arguments of a call are written as they should be.
pub proof fn lemma_args_called(m: Model, t: ToState, n: int, scope: Scope)
    requires
        state_args_upto(m, t, n, scope) is Ok,
        state_args_upto(m, t, n, scope)->Ok_0.bytes.len() <= usize::MAX,
    ensures
        called(m, state_args_upto(m, t, n, scope)->Ok_0),
    decreases t, 0int, n,
{
    match t {
        ToState::Halt { .. } => {
            lemma_called_refl(m);
        },
        ToState::State { name, state_args, symbol_args } => {
            if n <= 0 || n > state_args.len() {
                lemma_called_refl(m);
            } else {
                let m1 = state_args_upto(m, t, n - 1, scope)->Ok_0;
                let m2 = state_args_upto(m, t, n, scope)->Ok_0;
                lemma_call_len(m1, state_args[n - 1], scope, false);
                lemma_args_called(m, t, n - 1, scope);
                lemma_call_called(m1, state_args[n - 1], scope, false);
                lemma_called_trans(m, m1, m2);
            }
        },
    }
}

/// Whether the address of the call with index `k` of `a`, where it is the
/// address of the halt state, stands in `bytes` as it stands in `a`.
pub open spec fn halt_kept(a: Model, bytes: Seq<u8>, k: int) -> bool {
    match call_slot(a.trace[k], offset(a.trace, k)) {
        None => true,
        Some(pos) => marked(a.slots, pos) || u32_at(bytes, pos) == u32_at(a.bytes, pos),
    }
}

/// Whether `slot` is one of `refs`.
pub open spec fn among(refs: Seq<ForwardRef>, slot: ForwardRef) -> bool {
    exists|r: int| 0 <= r < refs.len() && #[trigger] refs[r] == slot
}

/// Every call stays as it should be where no instruction is written, no
/// slot begins to wait, and the addresses of the calls of the halt state
/// stay what they are.
pub proof fn lemma_calls_kept(a: Model, b: Model)
    requires
        calls_ok(a),
        b.trace == a.trace,
        b.slots == a.slots,
        b.bytes.len() == a.bytes.len(),
        forall|w: int| 0 <= w < b.refs.len() ==> among(a.refs, #[trigger] b.refs[w]),
        forall|k: int| 0 <= k < a.trace.len() ==> halt_kept(a, b.bytes, k),
    ensures
        calls_ok(b),
{
    assert forall|k: int| 0 <= k < b.trace.len() implies call_settled(b, k) by {
        assert(call_settled(a, k));
        assert(halt_kept(a, b.bytes, k));
        match call_slot(a.trace[k], offset(a.trace, k)) {
            None => {},
            Some(pos) => {
                if !marked(a.slots, pos) {
                    assert forall|w: int| 0 <= w < b.refs.len() implies (
                    #[trigger] b.refs[w]).location + 4 <= pos || pos + 4
                        <= b.refs[w].location by {
                        assert(among(a.refs, b.refs[w]));
                        let r = choose|r: int|
                            0 <= r < a.refs.len() && #[trigger] a.refs[r] == b.refs[w];
                        assert(a.refs[r].location + 4 <= pos || pos + 4 <= a.refs[r].location);
                    }
                }
            },
        }
    }
}

/// The bytes of a call end where the next instruction starts.
pub proof fn lemma_call_span(trace: Seq<Instr>, k: int)
    requires
        0 <= k < trace.len(),
        call_slot(trace[k], offset(trace, k)) is Some,
    ensures
        7 <= offset(trace, k) < call_slot(trace[k], offset(trace, k))->0,
        call_slot(trace[k], offset(trace, k))->0 + 4 == offset(trace, k + 1),
{
    lemma_offset_step(trace, k);
}

/// An arm keeps every call as it should be.
pub proof fn lemma_arm_calls(
    m: Model,
    arm: Arm,
    states: Seq<Seq<char>>,
    symbols: Seq<Seq<char>>,
    is_last: bool,
)
    requires
        shape_ok(m),
        refs_ok(m.refs, m.bytes.len() as int),
        calls_ok(m),
        arm_spec(m, arm, states, symbols, is_last) is Ok,
        arm_spec(m, arm, states, symbols, is_last)->Ok_0.bytes.len() <= usize::MAX,
    ensures
        calls_ok(arm_spec(m, arm, states, symbols, is_last)->Ok_0),
{
    let after = arm_spec(m, arm, states, symbols, is_last)->Ok_0;
    let (m1, bound) = opened(m, arm.pattern, symbols, is_last)->Ok_0;
    let scope = Scope { states, symbols, bound };
    let m2 = ops_spec(m1, arm.ops@, scope)->Ok_0;
    let m2c = Model { counts: use_counts(arm.to_state, states), ..m2 };
    let m3 = call_spec(m2c, arm.to_state, scope, true)->Ok_0;
    let (mo, off) = ops_upto(m1, arm.ops@, arm.ops.len() as int, scope)->Ok_0;
    let instr = pattern_instr(m, arm.pattern, symbols);
    let mt = Model { table: m1.table, ..m };
    let n0 = m.trace.len() as int;
    lemma_opened(m, arm.pattern, symbols, is_last);
    lemma_same_called(m, mt);
    lemma_put_called(mt, instr);
    lemma_called_trans(m, mt, m1);
    lemma_ops_called(m1, arm.ops@, arm.ops.len() as int, scope);
    lemma_moved_called(mo, off);
    lemma_called_trans(m1, mo, m2);
    lemma_same_called(m2, m2c);
    lemma_called_trans(m1, m2, m2c);
    lemma_call_called(m2c, arm.to_state, scope, true);
    lemma_called_trans(m1, m2c, m3);
    lemma_called_trans(m, m1, m3);
    lemma_called_ok(m, m3);
    if !is_last {
        let location = m1.bytes.len() - 2;
        crate::layout::lemma_patched16(
            m3.bytes,
            location,
            (m3.bytes.len() - location - 2) as u16,
        );
        assert(m.trace.take(n0) =~= m.trace);
        lemma_offset_prefix(m.trace, m3.trace, n0);
        lemma_offset_step(m3.trace, n0);
        assert(m3.trace.take(n0 + 1)[n0] == m3.trace[n0]);
        assert(m1.trace.take(n0 + 1) =~= m1.trace);
        assert(m3.trace[n0] == instr);
        lemma_put_grown(mt, instr);
        assert(instr.size() >= 4);
        assert(offset(m3.trace, n0) == m.bytes.len());
        assert(offset(m3.trace, n0 + 1) == location + 2);
        assert(call_slot(instr, offset(m3.trace, n0)) is None);
        assert forall|w: int| 0 <= w < after.refs.len() implies among(
            m3.refs,
            #[trigger] after.refs[w],
        ) by {
            assert(m3.refs[w] == after.refs[w]);
        }
        assert forall|k: int| 0 <= k < m3.trace.len() implies halt_kept(m3, after.bytes, k) by {
            match call_slot(m3.trace[k], offset(m3.trace, k)) {
                None => {},
                Some(pos) => {
                    lemma_call_span(m3.trace, k);
                    assert(call_settled(m3, k));
                    if k < n0 {
                        lemma_offset_below(m3.trace, k + 1, n0);
                        assert(pos + 4 <= location);
                    } else {
                        lemma_offset_below(m3.trace, n0 + 1, k);
                        assert(pos >= location + 2);
                    }
                    assert(0 <= pos && pos + 4 <= m3.bytes.len());
                    lemma_u32_same(m3.bytes, after.bytes, pos);
                },
            }
        }
        lemma_calls_kept(m3, after);
    }
}

/// The arms of a state keep every call as it should be.
pub proof fn lemma_arms_calls(
    m: Model,
    arms: Seq<Arm>,
    n: int,
    states: Seq<Seq<char>>,
    symbols: Seq<Seq<char>>,
)
    requires
        shape_ok(m),
        layout_ok(m, false),
        calls_ok(m),
        0 <= n <= arms.len(),
        arms_upto(m, arms, n, states, symbols) is Ok,
        arms_upto(m, arms, n, states, symbols)->Ok_0.bytes.len() <= usize::MAX,
    ensures
        calls_ok(arms_upto(m, arms, n, states, symbols)->Ok_0),
    decreases n,
{
    if n > 0 {
        let before = arms_upto(m, arms, n - 1, states, symbols)->Ok_0;
        crate::layout::lemma_arm_len(before, arms[n - 1], states, symbols, n == arms.len());
        crate::shape::lemma_arms_shape(m, arms, n - 1, n, states, symbols);
        crate::layout::lemma_arms_ok(m, arms, n - 1, states, symbols);
        lemma_arms_calls(m, arms, n - 1, states, symbols);
        lemma_arm_calls(before, arms[n - 1], states, symbols, n == arms.len());
    }
}

/// The head of a declaration keeps every call as it should be.
pub proof fn lemma_declared_calls(m: Model, state: State)
    requires
        shape_ok(m),
        layout_ok(m, false),
        calls_ok(m),
        declared(m, state) is Ok,
    ensures
        calls_ok(declared(m, state)->Ok_0),
{
    let head = declared(m, state)->Ok_0;
    let count = crate::bytecode::u16_at(m.bytes, 0);
    let sig = sig_of(state)@;
    let address = m.bytes.len() as u32;
    let n = m.refs.len() as int;
    let counted = patched16(m.bytes, 0, (count + 1) as u16);
    crate::layout::lemma_patched16(m.bytes, 0, (count + 1) as u16);
    crate::layout::lemma_resolved(counted, m.refs, n, sig, address);
    crate::layout::lemma_waiting(m.refs, n, sig, m.bytes.len() as int);
    assert forall|w: int| 0 <= w < head.refs.len() implies among(
        m.refs,
        #[trigger] head.refs[w],
    ) by {
        assert(crate::layout::still_waits(m.refs, n, sig, head.refs[w]));
        let r = choose|r: int|
            0 <= r < n && (#[trigger] m.refs[r]) == head.refs[w] && m.refs[r].signature@ != sig;
        assert(m.refs[r] == head.refs[w]);
    }
    assert forall|k: int| 0 <= k < m.trace.len() implies halt_kept(m, head.bytes, k) by {
        match call_slot(m.trace[k], offset(m.trace, k)) {
            None => {},
            Some(pos) => {
                lemma_call_span(m.trace, k);
                lemma_offset_step(m.trace, k);
                assert(call_settled(m, k));
                if !marked(m.slots, pos) {
                    assert forall|x: int| pos <= x < pos + 4 implies head.bytes[x]
                        == m.bytes[x] by {
                        assert(crate::layout::untouched(m.refs, n, sig, x));
                    }
                    lemma_u32_same(m.bytes, head.bytes, pos);
                }
            },
        }
    }
    lemma_calls_kept(m, head);
}

/// The declarations of a program keep every call as it should be.
pub proof fn lemma_states_calls(unit: Seq<State>, n: int)
    requires
        0 <= n <= unit.len(),
        states_upto(unit, n) is Ok,
        states_upto(unit, n)->Ok_0.bytes.len() <= usize::MAX,
    ensures
        calls_ok(states_upto(unit, n)->Ok_0),
    decreases n,
{
    if n > 0 {
        let before = states_upto(unit, n - 1)->Ok_0;
        let state = unit[n - 1];
        let head = declared(before, state)->Ok_0;
        crate::shape::lemma_states_shape(unit, n - 1, n);
        lemma_states_calls(unit, n - 1);
        crate::shape::lemma_declared_shape(before, state);
        crate::layout::lemma_declared_ok(before, state);
        lemma_declared_calls(before, state);
        lemma_arms_calls(
            head,
            state.arms@,
            state.arms.len() as int,
            names_of(state.state_params@),
            names_of(state.symbol_params@),
        );
    }
}

/// Calls hold addresses: in a compiled program, where a call was written
/// a call stands, and the address that it holds is the address of the
/// halt state or the address under which a state is declared. Where the
/// call names a state, this is the state with the signature that the call
/// names, whether the call stands before its declaration or after it.
///
/// `k` numbers the instructions in the order in which they were written.
pub proof fn lemma_calls_addressed(unit: Seq<State>, k: int)
    requires
        program_spec(unit) is Ok,
        program_spec(unit)->Ok_0.bytes.len() <= usize::MAX,
        0 <= k < program_spec(unit)->Ok_0.trace.len(),
        call_slot(program_spec(unit)->Ok_0.trace[k], 0) is Some,
    ensures
        ({
            let m = program_spec(unit)->Ok_0;
            let at = offset(m.trace, k);
            let pos = call_slot(m.trace[k], at)->0;
            &&& decode_at(m.bytes, at) is Some
            &&& decode_at(m.bytes, at)->0.opcode() == m.trace[k].opcode()
            &&& at < pos
            &&& pos + 4 <= m.bytes.len()
            &&& u32_at(m.bytes, pos) == HALT_ADDRESS || exists|j: int|
                0 <= j < m.slots.len() && (#[trigger] m.slots[j]).0 == pos && lookup(
                    m.addrs,
                    m.slots[j].1,
                ) == Some(u32_at(m.bytes, pos))
        }),
{
    let n = unit.len() as int;
    let before = states_upto(unit, n)->Ok_0;
    let m = program_spec(unit)->Ok_0;
    let address = lookup(before.addrs, start_sig())->0;
    crate::shape::lemma_states_shape(unit, 0, n);
    lemma_states_calls(unit, n);
    crate::layout::lemma_patched32(before.bytes, 2, address);
    assert forall|i: int| 0 <= i < before.trace.len() implies halt_kept(before, m.bytes, i) by {
        match call_slot(before.trace[i], offset(before.trace, i)) {
            None => {},
            Some(pos) => {
                lemma_call_span(before.trace, i);
                lemma_offset_step(before.trace, i);
                assert(call_settled(before, i));
                lemma_u32_same(before.bytes, m.bytes, pos);
            },
        }
    }
    lemma_calls_kept(before, m);
    assert(shape_ok(m)) by {
        assert forall|i: int| 0 <= i < m.trace.len() implies m.bytes[#[trigger] offset(m.trace, i)]
            == m.trace[i].opcode() by {
            crate::shape::lemma_decodes(before, i);
            lemma_offset_step(before.trace, i);
        }
    }
    crate::shape::lemma_decodes(m, k);
    lemma_call_span(m.trace, k);
    assert(call_settled(m, k));
    let pos = call_slot(m.trace[k], offset(m.trace, k))->0;
    if marked(m.slots, pos) {
        let j = choose|j: int| 0 <= j < m.slots.len() && (#[trigger] m.slots[j]).0 == pos;
        crate::layout::lemma_slots_resolved(unit, j);
    }
}

} // verus!
