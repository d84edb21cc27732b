//! Where the run of a compiled program ends: the machine only ever stands
//! at the halt state or at the first arm of a declared state, so a run
//! that ends below its ceiling ended in the halt state or at the left end
//! of the tape.

use vstd::prelude::*;
use crate::bytecode::{decode_at, u32_at, HALT, HALT_ADDRESS, Instr, OTHER};
use crate::calls::{call_slot, lemma_calls_addressed};
use crate::layout::{lemma_lookup_found, skip_lands};
use crate::lower::{declared, lookup, names_of, program_spec, start_sig, states_upto, Model};
use crate::parse::State;
use crate::shape::{
    arm_end, arms_end, body_end, lemma_arms_end, lemma_arms_end_stable, lemma_comparisons_skip,
    lemma_declared_shape, lemma_decodes, lemma_offset_prefix, lemma_offset_step,
    lemma_states_shape, offset, shape_ok,
};
use crate::vm::{
    body_step, cell, initial, lemma_moves_bounded, pattern_step, run_from, simulation, Machine,
    RecordModel, Step,
};

verus! {

/// Whether the arms of a state start at offset `x`.
pub open spec fn arms_start(m: Model, x: int) -> bool {
    exists|k: int|
        0 <= k < m.trace.len() && (#[trigger] arms_end(m.trace, k)) is Some && offset(m.trace, k)
            == x
}

/// Whether `x` is the address of a state: of the halt state, or of the
/// first arm of a state of the program.
pub open spec fn state_at(m: Model, x: int) -> bool {
    x == HALT_ADDRESS || arms_start(m, x)
}

/// Every declared state has its arms at its address.
pub open spec fn starts(m: Model) -> bool {
    forall|i: int| 0 <= i < m.addrs.len() ==> arms_start(m, (#[trigger] m.addrs[i]).1 as int)
}

/// Whether the call with index `k` holds the address of a state.
pub open spec fn call_sound(m: Model, k: int) -> bool {
    match call_slot(m.trace[k], offset(m.trace, k)) {
        None => true,
        Some(pos) => pos + 4 <= m.bytes.len() && state_at(m, u32_at(m.bytes, pos) as int),
    }
}

/// Whether the comparison with index `k` opens an arm and skips to the
/// end of that arm.
pub open spec fn skip_sound(m: Model, k: int) -> bool {
    arm_end(m.trace, k) is Some && skip_lands(
        m.bytes,
        offset(m.trace, k),
        offset(m.trace, arm_end(m.trace, k)->0),
    )
}

/// What the machine relies on: the program is its header and its
/// instructions, the halt state stands in the header, every comparison
/// skips to the next arm, and every call holds the address of a state.
pub open spec fn sound(m: Model) -> bool {
    &&& shape_ok(m)
    &&& m.bytes.len() >= 7
    &&& m.bytes[6] == HALT
    &&& forall|k: int|
        0 <= k < m.trace.len() && (#[trigger] m.trace[k]).opcode() < OTHER ==> skip_sound(m, k)
    &&& forall|k: int| 0 <= k < m.trace.len() ==> #[trigger] call_sound(m, k)
}

/// Whether a state in flight, and every state bound into it, is a state
/// of the program.
pub open spec fn record_ok(m: Model, r: RecordModel) -> bool
    decreases r,
{
    &&& state_at(m, r.address as int)
    &&& forall|i: int| 0 <= i < r.states.len() ==> record_ok(m, #[trigger] r.states[i])
}

/// Whether every state on a stack is a state of the program.
pub open spec fn stack_ok(m: Model, stack: Seq<RecordModel>) -> bool {
    forall|i: int| 0 <= i < stack.len() ==> record_ok(m, #[trigger] stack[i])
}

/// Whether the machine holds states of the program only.
pub open spec fn machine_ok(m: Model, v: Machine) -> bool {
    record_ok(m, v.current) && stack_ok(m, v.states)
}

/// Whether a step ends as it can in a compiled program: a move leaves the
/// machine at the address of its current state, holding states of the
/// program only; the left end is hit with the head on cell 0; and no
/// halt is met.
pub open spec fn on_track(m: Model, step: Step) -> bool {
    match step {
        Step::Moved(next) => next.ip == next.current.address && machine_ok(m, next),
        Step::Boundary(last) => last.head == 0,
        Step::Halted(_) => false,
        Step::Fault(_) => true,
    }
}

/// A stack of states of the program stays one when such a state is pushed.
pub proof fn lemma_stack_push(m: Model, stack: Seq<RecordModel>, r: RecordModel)
    requires
        stack_ok(m, stack),
        record_ok(m, r),
    ensures
        stack_ok(m, stack.push(r)),
{
    assert forall|i: int| 0 <= i < stack.push(r).len() implies record_ok(
        m,
        #[trigger] stack.push(r)[i],
    ) by {
        if i < stack.len() {
            assert(stack.push(r)[i] == stack[i]);
        }
    }
}

/// A part of a stack of states of the program is one.
pub proof fn lemma_stack_part(m: Model, stack: Seq<RecordModel>, from: int, to: int)
    requires
        stack_ok(m, stack),
        0 <= from <= to <= stack.len(),
    ensures
        stack_ok(m, stack.subrange(from, to)),
{
    assert forall|i: int| 0 <= i < stack.subrange(from, to).len() implies record_ok(
        m,
        #[trigger] stack.subrange(from, to)[i],
    ) by {
        assert(stack.subrange(from, to)[i] == stack[from + i]);
    }
}

/// The right-hand side of an arm of a compiled program runs on track.
pub proof fn lemma_body_track(m: Model, v: Machine, k: int)
    requires
        sound(m),
        0 <= k,
        body_end(m.trace, k) is Some,
        v.ip == offset(m.trace, k),
        machine_ok(m, v),
    ensures
        on_track(m, body_step(m.bytes, v)),
    decreases m.trace.len() - k,
{
    lemma_decodes(m, k);
    let instr = decode_at(m.bytes, v.ip)->0;
    let next = v.ip + instr.size();
    assert(call_sound(m, k));
    match instr {
        Instr::Left => {
            if v.head >= 1 {
                lemma_body_track(m, Machine { ip: next, head: v.head - 1, ..v }, k + 1);
            }
        },
        Instr::LeftN(n) => {
            if v.head >= n {
                lemma_body_track(m, Machine { ip: next, head: v.head - n, ..v }, k + 1);
            }
        },
        Instr::Right => {
            if v.head + 1 <= crate::vm::head_limit() {
                lemma_body_track(m, Machine { ip: next, head: v.head + 1, ..v }, k + 1);
            }
        },
        Instr::RightN(n) => {
            if v.head + n <= crate::vm::head_limit() {
                lemma_body_track(m, Machine { ip: next, head: v.head + n, ..v }, k + 1);
            }
        },
        Instr::WriteArg(a) => {
            if a < v.current.symbols.len() {
                lemma_body_track(
                    m,
                    Machine {
                        ip: next,
                        tape: crate::vm::written(v.tape, v.head, v.current.symbols[a as int]),
                        ..v
                    },
                    k + 1,
                );
            }
        },
        Instr::WriteVal(x) => {
            lemma_body_track(
                m,
                Machine { ip: next, tape: crate::vm::written(v.tape, v.head, x), ..v },
                k + 1,
            );
        },
        Instr::WriteBound => {
            lemma_body_track(
                m,
                Machine { ip: next, tape: crate::vm::written(v.tape, v.head, v.bound), ..v },
                k + 1,
            );
        },
        Instr::SymbolArg(a) => {
            if a < v.current.symbols.len() {
                lemma_body_track(
                    m,
                    Machine {
                        ip: next,
                        symbols: v.symbols.push(v.current.symbols[a as int]),
                        ..v
                    },
                    k + 1,
                );
            }
        },
        Instr::SymbolVal(x) => {
            lemma_body_track(m, Machine { ip: next, symbols: v.symbols.push(x), ..v }, k + 1);
        },
        Instr::SymbolBound => {
            lemma_body_track(
                m,
                Machine { ip: next, symbols: v.symbols.push(v.bound), ..v },
                k + 1,
            );
        },
        Instr::TakeArg(a) => {
            if a < v.current.states.len() {
                lemma_stack_push(m, v.states, v.current.states[a as int]);
                lemma_body_track(
                    m,
                    Machine { ip: next, states: v.states.push(v.current.states[a as int]), ..v },
                    k + 1,
                );
            }
        },
        Instr::CloneArg(a) => {
            if a < v.current.states.len() {
                lemma_stack_push(m, v.states, v.current.states[a as int]);
                lemma_body_track(
                    m,
                    Machine { ip: next, states: v.states.push(v.current.states[a as int]), ..v },
                    k + 1,
                );
            }
        },
        Instr::FreeArg(_) => {
            lemma_body_track(m, Machine { ip: next, ..v }, k + 1);
        },
        Instr::MakeState(n, address) => {
            if n <= v.states.len() {
                let kept = v.states.len() - n;
                let made = RecordModel {
                    address,
                    states: v.states.subrange(kept, v.states.len() as int),
                    symbols: v.symbols,
                };
                lemma_stack_part(m, v.states, kept, v.states.len() as int);
                lemma_stack_part(m, v.states, 0, kept);
                assert(record_ok(m, made));
                lemma_stack_push(m, v.states.subrange(0, kept), made);
                lemma_body_track(
                    m,
                    Machine {
                        ip: next,
                        states: v.states.subrange(0, kept).push(made),
                        symbols: Seq::empty(),
                        ..v
                    },
                    k + 1,
                );
            }
        },
        Instr::FinalState(address) => {
            let current = RecordModel { address, states: v.states, symbols: v.symbols };
            assert(record_ok(m, current));
            assert(stack_ok(m, Seq::<RecordModel>::empty()));
        },
        Instr::FinalArg(a) => {},
        _ => {},
    }
}

/// A move of a compiled program from the start of an arm runs on track.
pub proof fn lemma_pattern_track(m: Model, v: Machine, k: int)
    requires
        sound(m),
        0 <= k,
        arms_end(m.trace, k) is Some,
        v.ip == offset(m.trace, k),
        machine_ok(m, v),
    ensures
        on_track(m, pattern_step(m.bytes, v)),
    decreases m.trace.len() - k,
{
    lemma_decodes(m, k);
    let instr = decode_at(m.bytes, v.ip)->0;
    let next = v.ip + instr.size();
    let e = arm_end(m.trace, k)->0;
    match instr {
        Instr::CompareArg(a, skip) => {
            assert(skip_sound(m, k));
            if a < v.current.symbols.len() {
                if cell(v.tape, v.head) == v.current.symbols[a as int] {
                    lemma_body_track(m, Machine { ip: next, ..v }, k + 1);
                } else if next + skip < m.bytes.len() {
                    lemma_pattern_track(m, Machine { ip: next + skip, ..v }, e);
                }
            }
        },
        Instr::CompareVal(x, skip) => {
            assert(skip_sound(m, k));
            if cell(v.tape, v.head) == x {
                lemma_body_track(m, Machine { ip: next, ..v }, k + 1);
            } else if next + skip < m.bytes.len() {
                lemma_pattern_track(m, Machine { ip: next + skip, ..v }, e);
            }
        },
        Instr::Other => {
            lemma_body_track(m, Machine { ip: next, bound: cell(v.tape, v.head), ..v }, k + 1);
        },
        _ => {},
    }
}

/// A run of a compiled program that ends below its ceiling ends in the
/// halt state or with the head on cell 0.
pub proof fn lemma_run_track(m: Model, v: Machine, moves: int, max_moves: int)
    requires
        sound(m),
        v.ip == v.current.address,
        machine_ok(m, v),
    ensures
        match run_from(m.bytes, v, moves, max_moves) {
            Ok(end) => end.moves < max_moves ==> end.machine.current.address == HALT_ADDRESS
                || end.machine.head == 0,
            Err(_) => true,
        },
    decreases max_moves - moves,
{
    if moves < max_moves {
        if v.current.address == HALT_ADDRESS {
            assert(decode_at(m.bytes, 6) == Some(Instr::Halt));
        } else {
            let k = choose|k: int|
                0 <= k < m.trace.len() && (#[trigger] arms_end(m.trace, k)) is Some && offset(
                    m.trace,
                    k,
                ) == v.current.address;
            lemma_pattern_track(m, v, k);
            match pattern_step(m.bytes, v) {
                Step::Moved(next) => {
                    lemma_run_track(m, next, moves + 1, max_moves);
                },
                _ => {},
            }
        }
    }
}

/// Where every state has an arm and addresses fit in four bytes, the
/// declarations of a program keep the arms of every declared state at its
/// address.
pub proof fn lemma_states_start(unit: Seq<State>, n: int)
    requires
        0 <= n <= unit.len(),
        states_upto(unit, n) is Ok,
        states_upto(unit, n)->Ok_0.bytes.len() <= u32::MAX,
        forall|i: int| 0 <= i < unit.len() ==> (#[trigger] unit[i]).arms.len() > 0,
    ensures
        starts(states_upto(unit, n)->Ok_0),
    decreases n,
{
    if n > 0 {
        let before = states_upto(unit, n - 1)->Ok_0;
        let state = unit[n - 1];
        let head = declared(before, state)->Ok_0;
        let after = states_upto(unit, n)->Ok_0;
        let n0 = before.trace.len() as int;
        lemma_states_shape(unit, n - 1, n);
        lemma_states_start(unit, n - 1);
        lemma_declared_shape(before, state);
        crate::layout::lemma_declared_ok(before, state);
        crate::layout::lemma_arms_keep(
            head,
            state.arms@,
            state.arms.len() as int,
            names_of(state.state_params@),
            names_of(state.symbol_params@),
        );
        lemma_arms_end(
            head,
            state.arms@,
            0,
            names_of(state.state_params@),
            names_of(state.symbol_params@),
        );
        assert(before.trace.take(n0) =~= before.trace);
        lemma_offset_prefix(before.trace, after.trace, n0);
        assert forall|i: int| 0 <= i < after.addrs.len() implies arms_start(
            after,
            (#[trigger] after.addrs[i]).1 as int,
        ) by {
            if i < before.addrs.len() {
                assert(after.addrs[i] == before.addrs[i]);
                assert(arms_start(before, before.addrs[i].1 as int));
                let k = choose|k: int|
                    0 <= k < before.trace.len() && (#[trigger] arms_end(before.trace, k)) is Some
                        && offset(before.trace, k) == before.addrs[i].1 as int;
                lemma_arms_end_stable(before.trace, after.trace, k);
                lemma_offset_prefix(before.trace, after.trace, k);
                assert(arms_end(after.trace, k) is Some);
            } else {
                assert(arms_end(after.trace, n0) is Some);
                assert(offset(after.trace, n0) == before.bytes.len());
            }
        }
    }
}

/// A compiled program in which every state has an arm and addresses fit
/// in four bytes is what the machine relies on, and its entry is the
/// address of a state.
pub proof fn lemma_compiled_sound(unit: Seq<State>)
    requires
        program_spec(unit) is Ok,
        program_spec(unit)->Ok_0.bytes.len() <= u32::MAX,
        forall|i: int| 0 <= i < unit.len() ==> (#[trigger] unit[i]).arms.len() > 0,
    ensures
        sound(program_spec(unit)->Ok_0),
        arms_start(program_spec(unit)->Ok_0, u32_at(program_spec(unit)->Ok_0.bytes, 2) as int),
{
    let n = unit.len() as int;
    let before = states_upto(unit, n)->Ok_0;
    let m = program_spec(unit)->Ok_0;
    let address = lookup(before.addrs, start_sig())->0;
    lemma_states_shape(unit, 0, n);
    lemma_states_start(unit, n);
    crate::layout::lemma_header(unit);
    crate::layout::lemma_patched32(before.bytes, 2, address);
    assert(shape_ok(m)) by {
        assert forall|i: int| 0 <= i < m.trace.len() implies m.bytes[#[trigger] offset(m.trace, i)]
            == m.trace[i].opcode() by {
            lemma_decodes(before, i);
            lemma_offset_step(before.trace, i);
        }
    }
    assert(starts(m)) by {
        assert forall|i: int| 0 <= i < m.addrs.len() implies arms_start(
            m,
            (#[trigger] m.addrs[i]).1 as int,
        ) by {
            assert(arms_start(before, before.addrs[i].1 as int));
        }
    }
    assert forall|k: int|
        0 <= k < m.trace.len() && (#[trigger] m.trace[k]).opcode() < OTHER implies skip_sound(
        m,
        k,
    ) by {
        let j = lemma_comparisons_skip(unit, k);
    }
    assert forall|k: int| 0 <= k < m.trace.len() implies #[trigger] call_sound(m, k) by {
        match call_slot(m.trace[k], offset(m.trace, k)) {
            None => {},
            Some(pos) => {
                lemma_calls_addressed(unit, k);
                let x = u32_at(m.bytes, pos);
                if x != HALT_ADDRESS {
                    let j = choose|j: int|
                        0 <= j < m.slots.len() && (#[trigger] m.slots[j]).0 == pos && lookup(
                            m.addrs,
                            m.slots[j].1,
                        ) == Some(x);
                    lemma_lookup_found(m.addrs, m.slots[j].1);
                    let i = choose|i: int|
                        0 <= i < m.addrs.len() && (#[trigger] m.addrs[i]).0@ == m.slots[j].1
                            && m.addrs[i].1 == x;
                    assert(arms_start(m, m.addrs[i].1 as int));
                }
            },
        }
    }
    lemma_lookup_found(m.addrs, start_sig());
    let i = choose|i: int|
        0 <= i < m.addrs.len() && (#[trigger] m.addrs[i]).0@ == start_sig() && m.addrs[i].1
            == u32_at(m.bytes, 2);
    assert(arms_start(m, m.addrs[i].1 as int));
}

/// Where a run ends: running a compiled program in which every state has
/// an arm and addresses fit in four bytes, on any tape and under any
/// ceiling, makes no more moves than the ceiling allows; and a run that
/// ends below the ceiling ended in the halt state, whose address is 6, or
/// with the head on cell 0, at the left end of the tape.
pub proof fn lemma_run_ends(unit: Seq<State>, tape: Seq<u16>, max_moves: int)
    requires
        program_spec(unit) is Ok,
        program_spec(unit)->Ok_0.bytes.len() <= u32::MAX,
        forall|i: int| 0 <= i < unit.len() ==> (#[trigger] unit[i]).arms.len() > 0,
        0 <= max_moves,
        simulation(program_spec(unit)->Ok_0.bytes, tape, max_moves) is Some,
    ensures
        ({
            let end = simulation(program_spec(unit)->Ok_0.bytes, tape, max_moves)->0;
            &&& 0 <= end.moves <= max_moves
            &&& end.moves < max_moves ==> end.final_address == HALT_ADDRESS || end.head_position
                == 0
        }),
{
    let m = program_spec(unit)->Ok_0;
    let first = initial(m.bytes, tape);
    lemma_compiled_sound(unit);
    assert(stack_ok(m, first.states));
    assert(record_ok(m, first.current));
    lemma_run_track(m, first, 0, max_moves);
    lemma_moves_bounded(m.bytes, first, 0, max_moves);
}

} // verus!
