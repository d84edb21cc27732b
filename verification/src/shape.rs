//! The shape of a compiled program: after the header stand the
//! instructions that the compiler wrote, one after the other, and they
//! fall into states, arms and right-hand sides as the disassembler reads
//! them. So a compiled program can be disassembled, and the disassembly
//! has the states and the entry address of the program.

use vstd::prelude::*;
use crate::bytecode::{
    decode_at, lemma_decode_encoding, HALT_ADDRESS, Instr, LEFT, OTHER, UNRESOLVED,
};
use crate::dump::{arm_at, arms_at, body_at, states_at};
use crate::dump::dump_spec;
use crate::encoder::patched16;
use crate::layout::{layout_ok, still_waits, untouched};
use crate::lower::{
    arm_spec, arms_upto, call_instr, call_spec, declared, finish_call, frees, frees_upto, index_of,
    lefts, lemma_opened, lookup, moved, named_symbol, named_write, names_of, opened, ops_spec,
    ops_upto, program_spec, rights, sig_of, start_model, start_sig, state_args_upto, states_upto,
    symbol_args_upto, use_counts, Model, Scope, Signature,
};
use crate::parse::{Arm, Op, OpKind, Pattern, State, ToState};
use crate::symbols::interned;

verus! {

/// The number of bytes of a list of instructions.
pub open spec fn size_all(trace: Seq<Instr>) -> int
    decreases trace.len(),
{
    if trace.len() == 0 {
        0
    } else {
        size_all(trace.drop_last()) + trace.last().size()
    }
}

/// The offset in the program of the instruction with index `k`.
pub open spec fn offset(trace: Seq<Instr>, k: int) -> int {
    7 + size_all(trace.take(k))
}

/// The program is its header and the instructions that were written, in
/// order: each instruction starts with its opcode where the ones before it
/// end, and no slot that waits covers the start of an instruction.
pub open spec fn shape_ok(m: Model) -> bool {
    &&& m.bytes.len() == 7 + size_all(m.trace)
    &&& forall|k: int|
        0 <= k < m.trace.len() ==> m.bytes[#[trigger] offset(m.trace, k)] == m.trace[k].opcode()
    &&& forall|r: int|
        0 <= r < m.refs.len() ==> 7 <= (#[trigger] m.refs[r]).location && m.refs[r].location + 4
            <= m.bytes.len()
    &&& forall|k: int, r: int|
        0 <= k < m.trace.len() && 0 <= r < m.refs.len() ==> (#[trigger] offset(m.trace, k)) < (
        #[trigger] m.refs[r]).location || offset(m.trace, k) >= m.refs[r].location + 4
}

pub proof fn lemma_size_nonneg(trace: Seq<Instr>)
    ensures
        size_all(trace) >= 0,
    decreases trace.len(),
{
    if trace.len() > 0 {
        lemma_size_nonneg(trace.drop_last());
    }
}

/// The offsets of the instructions go up, each by the size of the
/// instruction before.
pub proof fn lemma_offset_step(trace: Seq<Instr>, k: int)
    requires
        0 <= k < trace.len(),
    ensures
        offset(trace, k + 1) == offset(trace, k) + trace[k].size(),
        offset(trace, k) >= 7,
{
    assert(trace.take(k + 1).drop_last() =~= trace.take(k));
    lemma_size_nonneg(trace.take(k));
}

/// An instruction with a smaller index stands before the end of the
/// instructions.
pub proof fn lemma_offset_below(trace: Seq<Instr>, k: int, j: int)
    requires
        0 <= k <= j <= trace.len(),
    ensures
        offset(trace, k) <= offset(trace, j),
        k < j ==> offset(trace, k) + trace[k].size() <= offset(trace, j),
    decreases j - k,
{
    if k < j {
        lemma_offset_step(trace, j - 1);
        lemma_offset_below(trace, k, j - 1);
    }
}

/// The offset of an instruction does not change when more instructions
/// follow.
pub proof fn lemma_offset_prefix(a: Seq<Instr>, b: Seq<Instr>, k: int)
    requires
        0 <= k <= a.len() <= b.len(),
        b.take(a.len() as int) == a,
    ensures
        offset(b, k) == offset(a, k),
{
    assert(b.take(k) =~= a.take(k)) by {
        assert forall|x: int| 0 <= x < k implies b.take(k)[x] == a.take(k)[x] by {
            assert(b.take(a.len() as int)[x] == b[x]);
        }
    }
}

/// Writing an instruction keeps the shape.
pub proof fn lemma_put_shape(m: Model, instr: Instr)
    requires
        shape_ok(m),
    ensures
        shape_ok(m.put(instr)),
        m.put(instr).trace == m.trace.push(instr),
{
    let m2 = m.put(instr);
    let n = m.trace.len() as int;
    assert(m2.trace.drop_last() =~= m.trace);
    assert(m2.trace.take(n) =~= m.trace);
    assert(m2.trace.take(n + 1) =~= m2.trace);
    assert(instr.encoding().len() == instr.size()) by {
        lemma_decode_encoding(Seq::empty(), instr, Seq::empty());
    }
    assert forall|k: int| 0 <= k < m2.trace.len() implies m2.bytes[#[trigger] offset(m2.trace, k)]
        == m2.trace[k].opcode() by {
        lemma_offset_prefix(m.trace, m2.trace, k);
        assert(offset(m.trace, n) == m.bytes.len()) by {
            assert(m.trace.take(n) =~= m.trace);
        }
        if k < n {
            lemma_offset_below(m.trace, k, n);
            lemma_offset_step(m.trace, k);
            assert(m.trace[k].size() >= 1);
            let at = offset(m.trace, k);
            assert(7 <= at < m.bytes.len());
            assert(m2.bytes[at] == m.bytes[at]);
            assert(m.bytes[at] == m.trace[k].opcode());
        } else {
            assert(m2.bytes[m.bytes.len() as int] == instr.encoding()[0]);
        }
    }
    assert forall|k: int, r: int|
        0 <= k < m2.trace.len() && 0 <= r < m2.refs.len() implies (#[trigger] offset(m2.trace, k))
        < (#[trigger] m2.refs[r]).location || offset(m2.trace, k) >= m2.refs[r].location + 4 by {
        lemma_offset_prefix(m.trace, m2.trace, k);
        if k == n {
            assert(m.trace.take(n) =~= m.trace);
        } else {
            assert(offset(m.trace, k) < m.refs[r].location || offset(m.trace, k)
                >= m.refs[r].location + 4);
        }
    }
}

/// A change of what is neither program nor slot keeps the shape.
pub proof fn lemma_same_shape(a: Model, b: Model)
    requires
        shape_ok(a),
        a.bytes == b.bytes,
        a.trace == b.trace,
        a.refs == b.refs,
    ensures
        shape_ok(b),
{
}

/// Where the opcodes of the instructions stand in the program, each
/// instruction can be decoded, to an instruction with that opcode.
pub proof fn lemma_decodes(m: Model, k: int)
    requires
        shape_ok(m),
        0 <= k < m.trace.len(),
    ensures
        decode_at(m.bytes, offset(m.trace, k)) is Some,
        decode_at(m.bytes, offset(m.trace, k))->0.opcode() == m.trace[k].opcode(),
        decode_at(m.bytes, offset(m.trace, k))->0.size() == m.trace[k].size(),
        offset(m.trace, k) + m.trace[k].size() == offset(m.trace, k + 1),
        offset(m.trace, k + 1) <= m.bytes.len(),
{
    lemma_offset_step(m.trace, k);
    lemma_offset_below(m.trace, k + 1, m.trace.len() as int);
    assert(m.trace.take(m.trace.len() as int) =~= m.trace);
    assert(m.bytes[offset(m.trace, k)] == m.trace[k].opcode());
}

/// The index after the right-hand side that starts at index `k`: after
/// the first terminal instruction, before which only instructions of a
/// right-hand side may stand.
pub open spec fn body_end(trace: Seq<Instr>, k: int) -> Option<int>
    decreases trace.len() - k,
{
    if k < 0 || k >= trace.len() {
        None
    } else if trace[k].opcode() < LEFT {
        None
    } else if trace[k].is_terminal() {
        Some(k + 1)
    } else {
        body_end(trace, k + 1)
    }
}

/// The index after the arm that starts at index `k`.
pub open spec fn arm_end(trace: Seq<Instr>, k: int) -> Option<int> {
    if k < 0 || k >= trace.len() || trace[k].opcode() > OTHER {
        None
    } else {
        body_end(trace, k + 1)
    }
}

/// The index after the arms of the state that starts at index `k`.
pub open spec fn arms_end(trace: Seq<Instr>, k: int) -> Option<int>
    decreases trace.len() - k,
{
    match arm_end(trace, k) {
        None => None,
        Some(j) => if trace[k].opcode() == OTHER {
            Some(j)
        } else if j <= k || j > trace.len() {
            None
        } else {
            arms_end(trace, j)
        },
    }
}

/// The index after `count` states from index `k` on.
pub open spec fn states_end(trace: Seq<Instr>, k: int, count: int) -> Option<int>
    decreases count,
{
    if count <= 0 {
        Some(k)
    } else {
        match arms_end(trace, k) {
            None => None,
            Some(j) => states_end(trace, j, count - 1),
        }
    }
}

/// A right-hand side in the instructions is one in the program.
pub proof fn lemma_body_at(m: Model, k: int)
    requires
        shape_ok(m),
        body_end(m.trace, k) is Some,
    ensures
        body_at(m.bytes, offset(m.trace, k)) is Some,
        body_at(m.bytes, offset(m.trace, k)).unwrap().1 == offset(m.trace, body_end(m.trace, k)->0),
        k < body_end(m.trace, k)->0 <= m.trace.len(),
    decreases m.trace.len() - k,
{
    lemma_decodes(m, k);
    if !m.trace[k].is_terminal() {
        lemma_body_at(m, k + 1);
    }
}

/// An arm in the instructions is one in the program.
pub proof fn lemma_arm_at(m: Model, k: int)
    requires
        shape_ok(m),
        arm_end(m.trace, k) is Some,
    ensures
        arm_at(m.bytes, offset(m.trace, k)) is Some,
        arm_at(m.bytes, offset(m.trace, k)).unwrap().1 == offset(m.trace, arm_end(m.trace, k)->0),
        (arm_at(m.bytes, offset(m.trace, k)).unwrap().0[0] == Instr::Other) == (m.trace[k].opcode()
            == OTHER),
        k < arm_end(m.trace, k)->0 <= m.trace.len(),
{
    lemma_decodes(m, k);
    lemma_body_at(m, k + 1);
}

/// The arms of a state in the instructions are such in the program.
pub proof fn lemma_arms_at(m: Model, k: int)
    requires
        shape_ok(m),
        arms_end(m.trace, k) is Some,
    ensures
        arms_at(m.bytes, offset(m.trace, k)) is Some,
        arms_at(m.bytes, offset(m.trace, k)).unwrap().1 == offset(m.trace, arms_end(m.trace, k)->0),
        k < arms_end(m.trace, k)->0 <= m.trace.len(),
    decreases m.trace.len() - k,
{
    lemma_arm_at(m, k);
    let j = arm_end(m.trace, k)->0;
    lemma_offset_below(m.trace, k, j);
    lemma_offset_below(m.trace, j, m.trace.len() as int);
    assert(m.trace.take(m.trace.len() as int) =~= m.trace);
    if m.trace[k].opcode() != OTHER {
        lemma_arms_at(m, j);
    }
}

/// States in the instructions are states in the program.
pub proof fn lemma_states_at(m: Model, k: int, count: int)
    requires
        shape_ok(m),
        0 <= k <= m.trace.len(),
        states_end(m.trace, k, count) is Some,
    ensures
        states_at(m.bytes, offset(m.trace, k), count) is Some,
        states_at(m.bytes, offset(m.trace, k), count).unwrap().1 == offset(
            m.trace,
            states_end(m.trace, k, count)->0,
        ),
        states_at(m.bytes, offset(m.trace, k), count).unwrap().0.len() == if count < 0 {
            0
        } else {
            count
        },
        k <= states_end(m.trace, k, count)->0 <= m.trace.len(),
    decreases count,
{
    if count > 0 {
        lemma_arms_at(m, k);
        lemma_states_at(m, arms_end(m.trace, k)->0, count - 1);
    }
}

/// `b` goes on where `a` ends.
pub open spec fn extends(a: Seq<Instr>, b: Seq<Instr>) -> bool {
    a.len() <= b.len() && b.take(a.len() as int) == a
}

/// Whether an instruction may stand inside a right-hand side, before its
/// terminal instruction.
pub open spec fn is_inner(instr: Instr) -> bool {
    instr.opcode() >= LEFT && !instr.is_terminal()
}

/// The instructions from index `from` up to index `to` may all stand
/// inside a right-hand side.
pub open spec fn inner(trace: Seq<Instr>, from: int, to: int) -> bool {
    forall|k: int| from <= k < to ==> is_inner(#[trigger] trace[k])
}

/// `b` comes from `a` by writing instructions that may stand inside a
/// right-hand side, and keeps the shape.
pub open spec fn inner_grown(a: Model, b: Model) -> bool {
    &&& shape_ok(b)
    &&& extends(a.trace, b.trace)
    &&& inner(b.trace, a.trace.len() as int, b.trace.len() as int)
}

pub proof fn lemma_inner_refl(a: Model)
    requires
        shape_ok(a),
    ensures
        inner_grown(a, a),
{
    assert(a.trace.take(a.trace.len() as int) =~= a.trace);
}

pub proof fn lemma_extends_trans(a: Seq<Instr>, b: Seq<Instr>, c: Seq<Instr>)
    requires
        extends(a, b),
        extends(b, c),
    ensures
        extends(a, c),
        forall|k: int| 0 <= k < b.len() ==> c[k] == b[k],
{
    assert forall|k: int| 0 <= k < b.len() implies c[k] == b[k] by {
        assert(c.take(b.len() as int)[k] == c[k]);
    }
    assert(c.take(a.len() as int) =~= a) by {
        assert forall|k: int| 0 <= k < a.len() implies c.take(a.len() as int)[k] == a[k] by {
            assert(b.take(a.len() as int)[k] == b[k]);
        }
    }
}

pub proof fn lemma_inner_trans(a: Model, b: Model, c: Model)
    requires
        inner_grown(a, b),
        inner_grown(b, c),
    ensures
        inner_grown(a, c),
{
    lemma_extends_trans(a.trace, b.trace, c.trace);
}

/// Writing an instruction that may stand inside a right-hand side.
pub proof fn lemma_put_inner(m: Model, instr: Instr)
    requires
        shape_ok(m),
        is_inner(instr),
    ensures
        inner_grown(m, m.put(instr)),
{
    lemma_put_shape(m, instr);
    assert(m.put(instr).trace.take(m.trace.len() as int) =~= m.trace);
}

/// A change of what is neither program nor slot.
pub proof fn lemma_same_inner(a: Model, b: Model)
    requires
        shape_ok(a),
        a.bytes == b.bytes,
        a.trace == b.trace,
        a.refs == b.refs,
    ensures
        inner_grown(a, b),
{
    lemma_inner_refl(a);
}

proof fn lemma_lefts_inner(m: Model, n: int)
    requires
        shape_ok(m),
    ensures
        inner_grown(m, lefts(m, n)),
    decreases n,
{
    if n >= 255 {
        lemma_put_inner(m, Instr::LeftN(255));
        lemma_lefts_inner(m.put(Instr::LeftN(255)), n - 255);
        lemma_inner_trans(m, m.put(Instr::LeftN(255)), lefts(m, n));
    } else if n == 1 {
        lemma_put_inner(m, Instr::Left);
    } else if n > 0 {
        lemma_put_inner(m, Instr::LeftN(n as u8));
    } else {
        lemma_inner_refl(m);
    }
}

proof fn lemma_rights_inner(m: Model, n: int)
    requires
        shape_ok(m),
    ensures
        inner_grown(m, rights(m, n)),
    decreases n,
{
    if n >= 255 {
        lemma_put_inner(m, Instr::RightN(255));
        lemma_rights_inner(m.put(Instr::RightN(255)), n - 255);
        lemma_inner_trans(m, m.put(Instr::RightN(255)), rights(m, n));
    } else if n == 1 {
        lemma_put_inner(m, Instr::Right);
    } else if n > 0 {
        lemma_put_inner(m, Instr::RightN(n as u8));
    } else {
        lemma_inner_refl(m);
    }
}

pub proof fn lemma_moved_inner(m: Model, offset: int)
    requires
        shape_ok(m),
    ensures
        inner_grown(m, moved(m, offset)),
{
    if offset < 0 {
        lemma_lefts_inner(m, -offset);
    } else {
        lemma_rights_inner(m, offset);
    }
}

pub proof fn lemma_ops_inner(m: Model, ops: Seq<Op>, n: int, scope: Scope)
    requires
        shape_ok(m),
        ops_upto(m, ops, n, scope) is Ok,
    ensures
        inner_grown(m, ops_upto(m, ops, n, scope)->Ok_0.0),
    decreases n,
{
    if n <= 0 {
        lemma_inner_refl(m);
    } else {
        lemma_ops_inner(m, ops, n - 1, scope);
        let (m1, offset) = ops_upto(m, ops, n - 1, scope)->Ok_0;
        let m2 = ops_upto(m, ops, n, scope)->Ok_0.0;
        match ops[n - 1].kind {
            OpKind::Left => {},
            OpKind::Right => {},
            OpKind::Name(name) => {
                lemma_moved_inner(m1, offset);
                lemma_put_inner(moved(m1, offset), named_write(scope, name@)->0);
                lemma_inner_trans(m1, moved(m1, offset), m2);
                lemma_inner_trans(m, m1, m2);
            },
            OpKind::Symbol(text) => {
                let next = interned(m1.table, text@)->0;
                lemma_moved_inner(m1, offset);
                let m1t = Model { table: next.0, ..moved(m1, offset) };
                lemma_same_inner(moved(m1, offset), m1t);
                lemma_put_inner(m1t, Instr::WriteVal(next.1));
                lemma_inner_trans(m1, moved(m1, offset), m1t);
                lemma_inner_trans(m1, m1t, m2);
                lemma_inner_trans(m, m1, m2);
            },
        }
    }
}

pub proof fn lemma_frees_inner(m: Model, n: int)
    requires
        shape_ok(m),
    ensures
        inner_grown(m, frees_upto(m, n)),
    decreases n,
{
    if n <= 0 {
        lemma_inner_refl(m);
    } else {
        lemma_frees_inner(m, n - 1);
        if m.counts[n - 1] == 0 {
            lemma_put_inner(frees_upto(m, n - 1), Instr::FreeArg((n - 1) as u8));
            lemma_inner_trans(m, frees_upto(m, n - 1), frees_upto(m, n));
        }
    }
}

pub proof fn lemma_symbol_args_inner(m: Model, args: Seq<Pattern>, n: int, scope: Scope)
    requires
        shape_ok(m),
        symbol_args_upto(m, args, n, scope) is Ok,
    ensures
        inner_grown(m, symbol_args_upto(m, args, n, scope)->Ok_0),
    decreases n,
{
    if n <= 0 {
        lemma_inner_refl(m);
    } else {
        lemma_symbol_args_inner(m, args, n - 1, scope);
        let m1 = symbol_args_upto(m, args, n - 1, scope)->Ok_0;
        let m2 = symbol_args_upto(m, args, n, scope)->Ok_0;
        match args[n - 1] {
            Pattern::Symbol(symbol) => {
                let next = interned(m1.table, symbol.symbol@)->0;
                let m1t = Model { table: next.0, ..m1 };
                lemma_same_inner(m1, m1t);
                lemma_put_inner(m1t, Instr::SymbolVal(next.1));
                lemma_inner_trans(m1, m1t, m2);
            },
            Pattern::Name(name) => {
                lemma_put_inner(m1, named_symbol(scope, name.name@)->0);
            },
        }
        lemma_inner_trans(m, m1, m2);
    }
}

/// A new slot that waits inside the last instruction keeps the shape.
proof fn lemma_slot_shape(m: Model, with_slot: Model, location: int)
    requires
        shape_ok(m),
        m.trace.len() > 0,
        with_slot.bytes == m.bytes,
        with_slot.trace == m.trace,
        with_slot.refs.len() == m.refs.len() + 1,
        forall|r: int| 0 <= r < m.refs.len() ==> with_slot.refs[r] == m.refs[r],
        with_slot.refs.last().location == location,
        offset(m.trace, m.trace.len() - 1) < location,
        location + 4 == m.bytes.len(),
        location >= 7,
    ensures
        shape_ok(with_slot),
{
    assert forall|k: int, r: int|
        0 <= k < with_slot.trace.len() && 0 <= r < with_slot.refs.len() implies (
    #[trigger] offset(with_slot.trace, k)) < (#[trigger] with_slot.refs[r]).location || offset(
        with_slot.trace,
        k,
    ) >= with_slot.refs[r].location + 4 by {
        if r < m.refs.len() {
            assert(with_slot.refs[r] == m.refs[r]);
        } else {
            lemma_offset_below(m.trace, k, m.trace.len() - 1);
        }
    }
    assert forall|r: int| 0 <= r < with_slot.refs.len() implies 7 <= (
    #[trigger] with_slot.refs[r]).location && with_slot.refs[r].location + 4
        <= with_slot.bytes.len() by {
        if r < m.refs.len() {
            assert(with_slot.refs[r] == m.refs[r]);
        }
    }
}

/// The end of a call in nested position writes one instruction that may
/// stand inside a right-hand side; in outer position it writes such
/// instructions and a terminal one after them.
pub proof fn lemma_finish_call_shape(m: Model, sig: Signature, span: crate::lex::Span, outer: bool)
    requires
        shape_ok(m),
        finish_call(m, sig, span, outer).bytes.len() <= usize::MAX,
    ensures
        shape_ok(finish_call(m, sig, span, outer)),
        extends(m.trace, finish_call(m, sig, span, outer).trace),
        finish_call(m, sig, span, outer).trace.len() > m.trace.len(),
        inner(
            finish_call(m, sig, span, outer).trace,
            m.trace.len() as int,
            finish_call(m, sig, span, outer).trace.len() - 1,
        ),
        finish_call(m, sig, span, outer).trace.last().opcode() >= LEFT,
        finish_call(m, sig, span, outer).trace.last().is_terminal() == outer,
{
    let m1 = if outer {
        frees(m)
    } else {
        m
    };
    if outer {
        lemma_frees_inner(m, m.counts.len() as int);
    } else {
        lemma_inner_refl(m);
    }
    let m2 = finish_call(m, sig, span, outer);
    let instr = match lookup(m.addrs, sig@) {
        Some(address) => call_instr(outer, sig.states as int, address),
        None => call_instr(outer, sig.states as int, UNRESOLVED),
    };
    lemma_put_shape(m1, instr);
    let m1p = m1.put(instr);
    assert(m1p.trace.take(m1.trace.len() as int) =~= m1.trace);
    assert(extends(m1.trace, m1p.trace));
    lemma_extends_trans(m.trace, m1.trace, m1p.trace);
    assert(m2.trace == m1p.trace);
    assert(m2.bytes == m1p.bytes);
    assert(instr.encoding().len() == instr.size()) by {
        lemma_decode_encoding(Seq::empty(), instr, Seq::empty());
    }
    if lookup(m.addrs, sig@) is None {
        let location = m1.bytes.len() + if outer {
            1int
        } else {
            2int
        };
        assert(m1p.trace.take(m1.trace.len() as int) =~= m1.trace);
        assert(offset(m1p.trace, m1p.trace.len() - 1) == m1.bytes.len()) by {
            lemma_offset_prefix(m1.trace, m1p.trace, m1.trace.len() as int);
            assert(m1.trace.take(m1.trace.len() as int) =~= m1.trace);
        }
        lemma_size_nonneg(m1.trace);
        lemma_slot_shape(m1p, m2, location);
    }
}

/// A call in nested position writes instructions that may stand inside a
/// right-hand side; in outer position it writes such instructions and a
/// terminal one after them.
pub proof fn lemma_call_shape(m: Model, t: ToState, scope: Scope, outer: bool)
    requires
        shape_ok(m),
        outer ==> m.counts == crate::lower::use_counts(t, scope.states),
        call_spec(m, t, scope, outer) is Ok,
        call_spec(m, t, scope, outer)->Ok_0.bytes.len() <= usize::MAX,
    ensures
        shape_ok(call_spec(m, t, scope, outer)->Ok_0),
        extends(m.trace, call_spec(m, t, scope, outer)->Ok_0.trace),
        call_spec(m, t, scope, outer)->Ok_0.trace.len() > m.trace.len(),
        inner(
            call_spec(m, t, scope, outer)->Ok_0.trace,
            m.trace.len() as int,
            call_spec(m, t, scope, outer)->Ok_0.trace.len() - 1,
        ),
        call_spec(m, t, scope, outer)->Ok_0.trace.last().opcode() >= LEFT,
        call_spec(m, t, scope, outer)->Ok_0.trace.last().is_terminal() == outer,
    decreases t, 1int, 0int,
{
    let m9 = call_spec(m, t, scope, outer)->Ok_0;
    match t {
        ToState::Halt { .. } => {
            if outer {
                lemma_frees_inner(m, m.counts.len() as int);
                lemma_last_put(m, frees(m), Instr::FinalState(HALT_ADDRESS));
            } else {
                lemma_inner_refl(m);
                lemma_last_put(m, m, Instr::MakeState(0, HALT_ADDRESS));
            }
        },
        ToState::State { name, state_args, symbol_args } => {
            match index_of(scope.states, name.name@) {
                Some(i) => {
                    if m.counts[i] == 1 {
                        if outer {
                            lemma_frees_inner(m, m.counts.len() as int);
                            lemma_last_put(m, frees(m), Instr::FinalArg(i as u8));
                        } else {
                            lemma_inner_refl(m);
                            lemma_last_put(m, m, Instr::TakeArg(i as u8));
                        }
                    } else {
                        let mc = Model {
                            counts: m.counts.update(i, (m.counts[i] - 1) as usize),
                            ..m
                        };
                        lemma_same_inner(m, mc);
                        lemma_last_put(m, mc, Instr::CloneArg(i as u8));
                        // a parameter that an outer call names is used once
                        crate::compile::lemma_index_found(
                            scope.states,
                            name.name@,
                            scope.states.len() as int,
                        );
                        assert(!outer);
                    }
                },
                None => {
                    let n = state_args.len() as int;
                    let m1 = state_args_upto(m, t, n, scope)->Ok_0;
                    let m2 = symbol_args_upto(m1, symbol_args@, symbol_args.len() as int, scope)->Ok_0;
                    let sig = Signature {
                        name: name.name,
                        states: state_args.len(),
                        symbols: symbol_args.len(),
                    };
                    crate::layout::lemma_finish_call_grown(m2, sig, name.span, outer);
                    crate::layout::lemma_symbol_args_grown(
                        m1,
                        symbol_args@,
                        symbol_args.len() as int,
                        scope,
                    );
                    lemma_args_shape(m, t, n, scope);
                    lemma_symbol_args_inner(m1, symbol_args@, symbol_args.len() as int, scope);
                    lemma_inner_trans(m, m1, m2);
                    lemma_finish_call_shape(m2, sig, name.span, outer);
                    lemma_extends_trans(m.trace, m2.trace, m9.trace);
                },
            }
        },
    }
}

/// The state arguments of a call write instructions that may stand inside
/// a right-hand side.
pub proof fn lemma_args_shape(m: Model, t: ToState, n: int, scope: Scope)
    requires
        shape_ok(m),
        state_args_upto(m, t, n, scope) is Ok,
        state_args_upto(m, t, n, scope)->Ok_0.bytes.len() <= usize::MAX,
    ensures
        inner_grown(m, state_args_upto(m, t, n, scope)->Ok_0),
    decreases t, 0int, n,
{
    match t {
        ToState::Halt { .. } => {
            lemma_inner_refl(m);
        },
        ToState::State { name, state_args, symbol_args } => {
            if n <= 0 || n > state_args.len() {
                lemma_inner_refl(m);
            } else {
                let m1 = state_args_upto(m, t, n - 1, scope)->Ok_0;
                let m2 = state_args_upto(m, t, n, scope)->Ok_0;
                crate::layout::lemma_call_len(m1, state_args[n - 1], scope, false);
                lemma_args_shape(m, t, n - 1, scope);
                lemma_call_shape(m1, state_args[n - 1], scope, false);
                lemma_extends_trans(m.trace, m1.trace, m2.trace);
            }
        },
    }
}

/// One instruction after instructions that may stand inside a right-hand
/// side.
proof fn lemma_last_put(m: Model, before: Model, instr: Instr)
    requires
        inner_grown(m, before),
        instr.opcode() >= LEFT,
    ensures
        shape_ok(before.put(instr)),
        extends(m.trace, before.put(instr).trace),
        before.put(instr).trace.len() > m.trace.len(),
        inner(before.put(instr).trace, m.trace.len() as int, before.put(instr).trace.len() - 1),
        before.put(instr).trace.last() == instr,
{
    lemma_put_shape(before, instr);
    let after = before.put(instr);
    assert(after.trace.take(before.trace.len() as int) =~= before.trace);
    lemma_extends_trans(m.trace, before.trace, after.trace);
}

/// A right-hand side: instructions that may stand inside one from index
/// `k` up to index `j`, and a terminal instruction at index `j`.
pub proof fn lemma_body_end(trace: Seq<Instr>, k: int, j: int)
    requires
        0 <= k <= j < trace.len(),
        inner(trace, k, j),
        trace[j].is_terminal(),
        trace[j].opcode() >= LEFT,
    ensures
        body_end(trace, k) == Some(j + 1),
    decreases j - k,
{
    if k < j {
        assert(is_inner(trace[k]));
        lemma_body_end(trace, k + 1, j);
    }
}

/// A right-hand side stays one when more instructions follow.
pub proof fn lemma_body_end_stable(a: Seq<Instr>, b: Seq<Instr>, k: int)
    requires
        extends(a, b),
        body_end(a, k) is Some,
    ensures
        body_end(b, k) == body_end(a, k),
        k < body_end(a, k)->0 <= a.len(),
    decreases a.len() - k,
{
    assert(b.take(a.len() as int)[k] == b[k]);
    if !a[k].is_terminal() {
        lemma_body_end_stable(a, b, k + 1);
    }
}

/// An arm stays one when more instructions follow.
pub proof fn lemma_arm_end_stable(a: Seq<Instr>, b: Seq<Instr>, k: int)
    requires
        extends(a, b),
        arm_end(a, k) is Some,
    ensures
        arm_end(b, k) == arm_end(a, k),
        b[k] == a[k],
        k < arm_end(a, k)->0 <= a.len(),
{
    assert(b.take(a.len() as int)[k] == b[k]);
    lemma_body_end_stable(a, b, k + 1);
}

/// The arms of a state stay its arms when more instructions follow.
pub proof fn lemma_arms_end_stable(a: Seq<Instr>, b: Seq<Instr>, k: int)
    requires
        extends(a, b),
        arms_end(a, k) is Some,
    ensures
        arms_end(b, k) == arms_end(a, k),
        k < arms_end(a, k)->0 <= a.len(),
    decreases a.len() - k,
{
    lemma_arm_end_stable(a, b, k);
    if a[k].opcode() != OTHER {
        lemma_arms_end_stable(a, b, arm_end(a, k)->0);
    }
}

/// One arm keeps the shape, and is an arm in the instructions: a pattern,
/// a right-hand side, and a terminal instruction. Its pattern is the
/// catch-all exactly if it is the last arm of its state.
pub proof fn lemma_arm_shape(
    m: Model,
    arm: Arm,
    states: Seq<Seq<char>>,
    symbols: Seq<Seq<char>>,
    is_last: bool,
)
    requires
        shape_ok(m),
        arm_spec(m, arm, states, symbols, is_last) is Ok,
        arm_spec(m, arm, states, symbols, is_last)->Ok_0.bytes.len() <= usize::MAX,
    ensures
        shape_ok(arm_spec(m, arm, states, symbols, is_last)->Ok_0),
        extends(m.trace, arm_spec(m, arm, states, symbols, is_last)->Ok_0.trace),
        arm_end(arm_spec(m, arm, states, symbols, is_last)->Ok_0.trace, m.trace.len() as int)
            == Some(arm_spec(m, arm, states, symbols, is_last)->Ok_0.trace.len() as int),
        (arm_spec(m, arm, states, symbols, is_last)->Ok_0.trace[m.trace.len() as int].opcode()
            == OTHER) == is_last,
{
    let m4 = arm_spec(m, arm, states, symbols, is_last)->Ok_0;
    let (m1, bound) = opened(m, arm.pattern, symbols, is_last)->Ok_0;
    let scope = Scope { states, symbols, bound };
    let m2 = ops_spec(m1, arm.ops@, scope)->Ok_0;
    let m2c = Model { counts: use_counts(arm.to_state, states), ..m2 };
    let m3 = call_spec(m2c, arm.to_state, scope, true)->Ok_0;
    let (mo, offset_) = ops_upto(m1, arm.ops@, arm.ops.len() as int, scope)->Ok_0;
    let instr: Instr = match arm.pattern {
        Pattern::Symbol(symbol) => Instr::CompareVal(
            interned(m.table, symbol.symbol@).unwrap().1,
            u16::MAX,
        ),
        Pattern::Name(name) => match index_of(symbols, name.name@) {
            Some(i) => Instr::CompareArg(i as u8, u16::MAX),
            None => Instr::Other,
        },
    };
    let n0 = m.trace.len() as int;
    let mt = Model { table: m1.table, ..m };
    lemma_opened(m, arm.pattern, symbols, is_last);
    assert(m1 == mt.put(instr));
    lemma_same_shape(m, mt);
    lemma_put_shape(mt, instr);
    assert(m1.trace.take(n0) =~= m.trace);
    lemma_ops_inner(m1, arm.ops@, arm.ops.len() as int, scope);
    lemma_moved_inner(mo, offset_);
    lemma_inner_trans(m1, mo, m2);
    lemma_same_inner(m2, m2c);
    lemma_inner_trans(m1, m2, m2c);
    crate::layout::lemma_arm_len(m, arm, states, symbols, is_last);
    assert(m3.bytes.len() == m4.bytes.len()) by {
        if !is_last {
            let location = m1.bytes.len() - 2;
            if 0 <= location && location + 2 <= m3.bytes.len() {
                crate::layout::lemma_patched16(
                    m3.bytes,
                    location,
                    (m3.bytes.len() - location - 2) as u16,
                );
            }
        }
    }
    lemma_call_shape(m2c, arm.to_state, scope, true);
    lemma_extends_trans(m1.trace, m2c.trace, m3.trace);
    lemma_extends_trans(m.trace, m1.trace, m3.trace);
    let last = m3.trace.len() - 1;
    assert(inner(m3.trace, n0 + 1, last)) by {
        assert forall|k: int| n0 + 1 <= k < last implies is_inner(#[trigger] m3.trace[k]) by {
            if k < m2c.trace.len() {
                assert(m3.trace[k] == m2c.trace[k]);
            }
        }
    }
    assert(m3.trace[last] == m3.trace.last());
    lemma_body_end(m3.trace, n0 + 1, last);
    assert(m3.trace[n0] == instr) by {
        assert(m1.trace[n0] == instr);
    }
    assert(m4.trace == m3.trace);
    if !is_last {
        let location = m1.bytes.len() - 2;
        let jump = (m3.bytes.len() - location - 2) as u16;
        assert(instr.encoding().len() == instr.size()) by {
            lemma_decode_encoding(Seq::empty(), instr, Seq::empty());
        }
        lemma_size_nonneg(m.trace);
        assert(offset(m3.trace, n0) == m.bytes.len()) by {
            lemma_offset_prefix(m.trace, m3.trace, n0);
            assert(m.trace.take(n0) =~= m.trace);
        }
        assert(offset(m3.trace, n0 + 1) == m1.bytes.len()) by {
            lemma_offset_prefix(m1.trace, m3.trace, n0 + 1);
            assert(m1.trace.take(n0 + 1) =~= m1.trace);
        }
        assert(m1.bytes.len() <= m3.bytes.len()) by {
            lemma_offset_below(m3.trace, n0 + 1, m3.trace.len() as int);
            assert(m3.trace.take(m3.trace.len() as int) =~= m3.trace);
        }
        crate::layout::lemma_patched16(m3.bytes, location, jump);
        assert forall|k: int| 0 <= k < m4.trace.len() implies m4.bytes[#[trigger] offset(m4.trace, k)]
            == m4.trace[k].opcode() by {
            lemma_decodes(m3, k);
            if k <= n0 {
                lemma_offset_below(m3.trace, k, n0);
            } else {
                lemma_offset_below(m3.trace, n0 + 1, k);
            }
        }
    }
}

/// The arms of a state keep the shape, and what the first arms wrote
/// stays when more arms are written.
pub proof fn lemma_arms_shape(
    m: Model,
    arms: Seq<Arm>,
    a: int,
    b: int,
    states: Seq<Seq<char>>,
    symbols: Seq<Seq<char>>,
)
    requires
        shape_ok(m),
        0 <= a <= b <= arms.len(),
        arms_upto(m, arms, b, states, symbols) is Ok,
        arms_upto(m, arms, b, states, symbols)->Ok_0.bytes.len() <= usize::MAX,
    ensures
        arms_upto(m, arms, a, states, symbols) is Ok,
        shape_ok(arms_upto(m, arms, a, states, symbols)->Ok_0),
        shape_ok(arms_upto(m, arms, b, states, symbols)->Ok_0),
        arms_upto(m, arms, a, states, symbols)->Ok_0.bytes.len() <= arms_upto(
            m,
            arms,
            b,
            states,
            symbols,
        )->Ok_0.bytes.len(),
        extends(
            arms_upto(m, arms, a, states, symbols)->Ok_0.trace,
            arms_upto(m, arms, b, states, symbols)->Ok_0.trace,
        ),
    decreases b,
{
    if b == 0 {
        assert(m.trace.take(m.trace.len() as int) =~= m.trace);
    } else {
        let before = arms_upto(m, arms, b - 1, states, symbols)->Ok_0;
        let after = arms_upto(m, arms, b, states, symbols)->Ok_0;
        crate::layout::lemma_arm_len(before, arms[b - 1], states, symbols, b == arms.len());
        if a < b {
            lemma_arms_shape(m, arms, a, b - 1, states, symbols);
            lemma_arm_shape(before, arms[b - 1], states, symbols, b == arms.len());
            lemma_extends_trans(
                arms_upto(m, arms, a, states, symbols)->Ok_0.trace,
                before.trace,
                after.trace,
            );
        } else {
            lemma_arms_shape(m, arms, b - 1, b - 1, states, symbols);
            lemma_arm_shape(before, arms[b - 1], states, symbols, b == arms.len());
            assert(after.trace.take(after.trace.len() as int) =~= after.trace);
        }
    }
}

/// In the instructions of a state, its arms from the arm with index `q`
/// on are arms up to the catch-all, and the state ends with them.
pub proof fn lemma_arms_end(
    m: Model,
    arms: Seq<Arm>,
    q: int,
    states: Seq<Seq<char>>,
    symbols: Seq<Seq<char>>,
)
    requires
        shape_ok(m),
        0 <= q < arms.len(),
        arms_upto(m, arms, arms.len() as int, states, symbols) is Ok,
        arms_upto(m, arms, arms.len() as int, states, symbols)->Ok_0.bytes.len() <= usize::MAX,
    ensures
        arms_upto(m, arms, q, states, symbols) is Ok,
        arms_end(
            arms_upto(m, arms, arms.len() as int, states, symbols)->Ok_0.trace,
            arms_upto(m, arms, q, states, symbols)->Ok_0.trace.len() as int,
        ) == Some(arms_upto(m, arms, arms.len() as int, states, symbols)->Ok_0.trace.len() as int),
    decreases arms.len() - q,
{
    let n = arms.len() as int;
    let full = arms_upto(m, arms, n, states, symbols)->Ok_0;
    lemma_arms_shape(m, arms, q, n, states, symbols);
    lemma_arms_shape(m, arms, q + 1, n, states, symbols);
    let here = arms_upto(m, arms, q, states, symbols)->Ok_0;
    let next = arms_upto(m, arms, q + 1, states, symbols)->Ok_0;
    lemma_arm_shape(here, arms[q], states, symbols, q + 1 == n);
    lemma_arm_end_stable(next.trace, full.trace, here.trace.len() as int);
    if q + 1 < n {
        lemma_arms_end(m, arms, q + 1, states, symbols);
    } else {
        assert(full.trace.take(full.trace.len() as int) =~= full.trace);
    }
}

/// The head of a declaration keeps the shape and writes no instruction.
pub proof fn lemma_declared_shape(m: Model, state: State)
    requires
        shape_ok(m),
        layout_ok(m, false),
        declared(m, state) is Ok,
    ensures
        shape_ok(declared(m, state)->Ok_0),
        declared(m, state)->Ok_0.trace == m.trace,
        declared(m, state)->Ok_0.bytes.len() == m.bytes.len(),
{
    let m2 = declared(m, state)->Ok_0;
    let count = crate::bytecode::u16_at(m.bytes, 0);
    let sig = sig_of(state)@;
    let address = m.bytes.len() as u32;
    let n = m.refs.len() as int;
    let counted = patched16(m.bytes, 0, (count + 1) as u16);
    crate::layout::lemma_patched16(m.bytes, 0, (count + 1) as u16);
    crate::layout::lemma_resolved(counted, m.refs, n, sig, address);
    crate::layout::lemma_waiting(m.refs, n, sig, m.bytes.len() as int);
    assert forall|k: int| 0 <= k < m2.trace.len() implies m2.bytes[#[trigger] offset(m2.trace, k)]
        == m2.trace[k].opcode() by {
        lemma_decodes(m, k);
        let at = offset(m.trace, k);
        lemma_offset_step(m.trace, k);
        assert(untouched(m.refs, n, sig, at)) by {
            assert forall|r: int| 0 <= r < n && (#[trigger] m.refs[r]).signature@ == sig implies at
                < m.refs[r].location || at >= m.refs[r].location + 4 by {
                assert(offset(m.trace, k) < m.refs[r].location || offset(m.trace, k)
                    >= m.refs[r].location + 4);
            }
        }
        assert(m2.bytes[at] == counted[at]);
    }
    assert forall|r: int| 0 <= r < m2.refs.len() implies 7 <= (#[trigger] m2.refs[r]).location
        && m2.refs[r].location + 4 <= m2.bytes.len() by {
        assert(still_waits(m.refs, n, sig, m2.refs[r]));
    }
    assert forall|k: int, r: int|
        0 <= k < m2.trace.len() && 0 <= r < m2.refs.len() implies (#[trigger] offset(m2.trace, k))
        < (#[trigger] m2.refs[r]).location || offset(m2.trace, k) >= m2.refs[r].location + 4 by {
        assert(still_waits(m.refs, n, sig, m2.refs[r]));
        let r0 = choose|r0: int|
            0 <= r0 < n && (#[trigger] m.refs[r0]) == m2.refs[r] && m.refs[r0].signature@ != sig;
        assert(offset(m.trace, k) < m.refs[r0].location || offset(m.trace, k)
            >= m.refs[r0].location + 4);
    }
}

/// The declarations of a program keep the shape, and what the first
/// declarations wrote stays when more are written.
pub proof fn lemma_states_shape(unit: Seq<State>, a: int, b: int)
    requires
        0 <= a <= b <= unit.len(),
        states_upto(unit, b) is Ok,
        states_upto(unit, b)->Ok_0.bytes.len() <= usize::MAX,
    ensures
        states_upto(unit, a) is Ok,
        shape_ok(states_upto(unit, a)->Ok_0),
        shape_ok(states_upto(unit, b)->Ok_0),
        layout_ok(states_upto(unit, a)->Ok_0, false),
        states_upto(unit, a)->Ok_0.bytes.len() <= states_upto(unit, b)->Ok_0.bytes.len(),
        extends(states_upto(unit, a)->Ok_0.trace, states_upto(unit, b)->Ok_0.trace),
    decreases b,
{
    if b == 0 {
        let m = start_model();
        assert(m.trace.take(0) =~= m.trace);
        crate::layout::lemma_states_ok(unit, 0);
    } else {
        let before = states_upto(unit, b - 1)->Ok_0;
        let after = states_upto(unit, b)->Ok_0;
        crate::layout::lemma_state_len(before, unit[b - 1]);
        crate::layout::lemma_states_ok(unit, b - 1);
        lemma_states_shape(unit, if a < b {
            a
        } else {
            b - 1
        }, b - 1);
        let state = unit[b - 1];
        let head = declared(before, state)->Ok_0;
        lemma_declared_shape(before, state);
        lemma_arms_shape(
            head,
            state.arms@,
            0,
            state.arms.len() as int,
            names_of(state.state_params@),
            names_of(state.symbol_params@),
        );
        if a < b {
            lemma_extends_trans(states_upto(unit, a)->Ok_0.trace, before.trace, after.trace);
        } else {
            crate::layout::lemma_states_ok(unit, b);
            assert(after.trace.take(after.trace.len() as int) =~= after.trace);
        }
    }
}

/// In the instructions of a program, the states from the state with index
/// `q` on are states, and the program ends with them.
pub proof fn lemma_states_end(unit: Seq<State>, q: int)
    requires
        0 <= q <= unit.len(),
        states_upto(unit, unit.len() as int) is Ok,
        states_upto(unit, unit.len() as int)->Ok_0.bytes.len() <= usize::MAX,
        forall|i: int| 0 <= i < unit.len() ==> (#[trigger] unit[i]).arms.len() > 0,
    ensures
        states_upto(unit, q) is Ok,
        states_end(
            states_upto(unit, unit.len() as int)->Ok_0.trace,
            states_upto(unit, q)->Ok_0.trace.len() as int,
            unit.len() - q,
        ) == Some(states_upto(unit, unit.len() as int)->Ok_0.trace.len() as int),
    decreases unit.len() - q,
{
    let n = unit.len() as int;
    let full = states_upto(unit, n)->Ok_0;
    lemma_states_shape(unit, q, n);
    if q < n {
        lemma_states_shape(unit, q + 1, n);
        let here = states_upto(unit, q)->Ok_0;
        let next = states_upto(unit, q + 1)->Ok_0;
        let state = unit[q];
        let head = declared(here, state)->Ok_0;
        lemma_declared_shape(here, state);
        lemma_arms_end(
            head,
            state.arms@,
            0,
            names_of(state.state_params@),
            names_of(state.symbol_params@),
        );
        lemma_arms_end_stable(next.trace, full.trace, here.trace.len() as int);
        lemma_states_end(unit, q + 1);
    }
}

/// Whether the instruction with index `k` opens an arm, and the skip from
/// its offset to the offset after that arm is recorded.
pub open spec fn recorded(m: Model, k: int) -> bool {
    &&& arm_end(m.trace, k) is Some
    &&& exists|j: int|
        0 <= j < m.skips.len() && #[trigger] m.skips[j] == (
            offset(m.trace, k),
            offset(m.trace, arm_end(m.trace, k)->0),
        )
}

/// Every comparison among the instructions opens an arm, and its skip over
/// that arm is recorded.
pub open spec fn compared(m: Model) -> bool {
    forall|k: int|
        0 <= k < m.trace.len() && (#[trigger] m.trace[k]).opcode() < OTHER ==> recorded(m, k)
}

/// No pattern stands inside a right-hand side.
pub proof fn lemma_body_inside(trace: Seq<Instr>, k: int, j: int)
    requires
        body_end(trace, k) is Some,
        k <= j < body_end(trace, k)->0,
    ensures
        trace[j].opcode() >= LEFT,
    decreases trace.len() - k,
{
    if k < j {
        lemma_body_inside(trace, k + 1, j);
    }
}

/// An arm records the skip of its comparison, and writes no other
/// comparison.
pub proof fn lemma_arm_compared(
    m: Model,
    arm: Arm,
    states: Seq<Seq<char>>,
    symbols: Seq<Seq<char>>,
    is_last: bool,
)
    requires
        shape_ok(m),
        compared(m),
        arm_spec(m, arm, states, symbols, is_last) is Ok,
        arm_spec(m, arm, states, symbols, is_last)->Ok_0.bytes.len() <= usize::MAX,
    ensures
        compared(arm_spec(m, arm, states, symbols, is_last)->Ok_0),
{
    let after = arm_spec(m, arm, states, symbols, is_last)->Ok_0;
    let n0 = m.trace.len() as int;
    lemma_arm_shape(m, arm, states, symbols, is_last);
    crate::layout::lemma_arm_keeps(m, arm, states, symbols, is_last);
    assert(m.trace.take(n0) =~= m.trace);
    assert(after.trace.take(after.trace.len() as int) =~= after.trace);
    assert forall|k: int|
        0 <= k < after.trace.len() && (#[trigger] after.trace[k]).opcode() < OTHER implies recorded(
        after,
        k,
    ) by {
        if k < n0 {
            assert(after.trace.take(n0)[k] == after.trace[k]);
            assert(recorded(m, k));
            lemma_arm_end_stable(m.trace, after.trace, k);
            let e = arm_end(m.trace, k)->0;
            lemma_offset_prefix(m.trace, after.trace, k);
            lemma_offset_prefix(m.trace, after.trace, e);
            let j = choose|j: int|
                0 <= j < m.skips.len() && #[trigger] m.skips[j] == (
                    offset(m.trace, k),
                    offset(m.trace, e),
                );
            assert(after.skips[j] == m.skips[j]);
        } else if k == n0 {
            lemma_offset_prefix(m.trace, after.trace, n0);
            assert(after.skips[after.skips.len() - 1] == (
                offset(after.trace, n0),
                offset(after.trace, after.trace.len() as int),
            ));
        } else {
            lemma_body_inside(after.trace, n0 + 1, k);
        }
    }
}

/// The arms of a state record the skips of their comparisons.
pub proof fn lemma_arms_compared(
    m: Model,
    arms: Seq<Arm>,
    n: int,
    states: Seq<Seq<char>>,
    symbols: Seq<Seq<char>>,
)
    requires
        shape_ok(m),
        compared(m),
        0 <= n <= arms.len(),
        arms_upto(m, arms, n, states, symbols) is Ok,
        arms_upto(m, arms, n, states, symbols)->Ok_0.bytes.len() <= usize::MAX,
    ensures
        compared(arms_upto(m, arms, n, states, symbols)->Ok_0),
    decreases n,
{
    if n > 0 {
        let before = arms_upto(m, arms, n - 1, states, symbols)->Ok_0;
        lemma_arms_shape(m, arms, n - 1, n, states, symbols);
        lemma_arms_compared(m, arms, n - 1, states, symbols);
        lemma_arm_compared(before, arms[n - 1], states, symbols, n == arms.len());
    }
}

/// The declarations of a program record the skips of their comparisons.
pub proof fn lemma_states_compared(unit: Seq<State>, n: int)
    requires
        0 <= n <= unit.len(),
        states_upto(unit, n) is Ok,
        states_upto(unit, n)->Ok_0.bytes.len() <= usize::MAX,
    ensures
        compared(states_upto(unit, n)->Ok_0),
    decreases n,
{
    if n > 0 {
        let before = states_upto(unit, n - 1)->Ok_0;
        let state = unit[n - 1];
        let head = declared(before, state)->Ok_0;
        lemma_states_shape(unit, n - 1, n);
        lemma_states_compared(unit, n - 1);
        lemma_declared_shape(before, state);
        assert(head.skips == before.skips);
        assert forall|k: int|
            0 <= k < head.trace.len() && (#[trigger] head.trace[k]).opcode() < OTHER implies recorded(
            head,
            k,
        ) by {
            assert(recorded(before, k));
        }
        lemma_arms_compared(
            head,
            state.arms@,
            state.arms.len() as int,
            names_of(state.state_params@),
            names_of(state.symbol_params@),
        );
    }
}

/// Skip correctness, of every comparison: in a compiled program, where a
/// comparison was written a comparison stands. It opens an arm, and its
/// skip is one of the recorded skips: it lands where that arm ends, on the
/// start of the next arm of the same state, where a pattern stands.
///
/// `k` numbers the instructions in the order in which they were written.
pub proof fn lemma_comparisons_skip(unit: Seq<State>, k: int) -> (j: int)
    requires
        program_spec(unit) is Ok,
        program_spec(unit)->Ok_0.bytes.len() <= usize::MAX,
        0 <= k < program_spec(unit)->Ok_0.trace.len(),
        program_spec(unit)->Ok_0.trace[k].opcode() < OTHER,
    ensures
        ({
            let m = program_spec(unit)->Ok_0;
            let at = offset(m.trace, k);
            &&& decode_at(m.bytes, at) is Some
            &&& decode_at(m.bytes, at)->0.opcode() == m.trace[k].opcode()
            &&& 0 <= j < m.skips.len()
            &&& arm_end(m.trace, k) is Some
            &&& m.skips[j] == (at, offset(m.trace, arm_end(m.trace, k)->0))
            &&& crate::layout::skip_lands(m.bytes, at, m.skips[j].1)
            &&& decode_at(m.bytes, m.skips[j].1) is Some
            &&& decode_at(m.bytes, m.skips[j].1)->0.is_pattern()
        }),
{
    let n = unit.len() as int;
    let before = states_upto(unit, n)->Ok_0;
    let m = program_spec(unit)->Ok_0;
    let address = lookup(before.addrs, start_sig())->0;
    lemma_states_shape(unit, 0, n);
    lemma_states_compared(unit, n);
    crate::layout::lemma_patched32(before.bytes, 2, address);
    assert(shape_ok(m)) by {
        assert forall|i: int| 0 <= i < m.trace.len() implies m.bytes[#[trigger] offset(m.trace, i)]
            == m.trace[i].opcode() by {
            lemma_decodes(before, i);
            lemma_offset_step(before.trace, i);
        }
    }
    lemma_decodes(m, k);
    assert(recorded(m, k)) by {
        assert(recorded(before, k));
    }
    let j = choose|j: int|
        0 <= j < m.skips.len() && #[trigger] m.skips[j] == (
            offset(m.trace, k),
            offset(m.trace, arm_end(m.trace, k)->0),
        );
    crate::layout::lemma_skips_land(unit, j);
    j
}

/// The arms that the disassembler reads for a state end with the
/// catch-all arm, and every arm before it opens with a comparison.
pub proof fn lemma_last_arm(bytes: Seq<u8>, ip: int, a: int)
    requires
        arms_at(bytes, ip) is Some,
        0 <= a < arms_at(bytes, ip).unwrap().0.len(),
    ensures
        ({
            let arms = arms_at(bytes, ip).unwrap().0;
            &&& arms[a].len() > 0
            &&& (arms[a][0] == Instr::Other) == (a == arms.len() - 1)
            &&& arms[a][0].is_pattern()
        }),
    decreases bytes.len() - ip,
{
    let (arm, next) = arm_at(bytes, ip)->0;
    if arm[0] != Instr::Other {
        let (rest, end) = arms_at(bytes, next)->0;
        if a > 0 {
            lemma_last_arm(bytes, next, a - 1);
            assert((seq![arm] + rest)[a] == rest[a - 1]);
        }
    }
}

/// The same of every state in a row of states.
pub proof fn lemma_listed_arms(bytes: Seq<u8>, ip: int, count: int, s: int, a: int)
    requires
        states_at(bytes, ip, count) is Some,
        0 <= s < states_at(bytes, ip, count).unwrap().0.len(),
        0 <= a < states_at(bytes, ip, count).unwrap().0[s].arms.len(),
    ensures
        ({
            let arms = states_at(bytes, ip, count).unwrap().0[s].arms;
            &&& arms[a].len() > 0
            &&& (arms[a][0] == Instr::Other) == (a == arms.len() - 1)
            &&& arms[a][0].is_pattern()
        }),
    decreases count,
{
    if count > 0 {
        let (arms, next) = arms_at(bytes, ip).unwrap();
        let (rest, end) = states_at(bytes, next, count - 1).unwrap();
        let first = crate::dump::StateDumpModel { address: ip as u32, arms };
        if s == 0 {
            lemma_last_arm(bytes, ip, a);
        } else {
            assert((seq![first] + rest)[s] == rest[s - 1]);
            lemma_listed_arms(bytes, next, count - 1, s - 1, a);
        }
    }
}

/// In the disassembly of any program, every state ends with its catch-all
/// arm, which has no skip, and every arm before it opens with a
/// comparison.
pub proof fn lemma_dump_arms(bytes: Seq<u8>, s: int, a: int)
    requires
        dump_spec(bytes) is Some,
        0 <= s < dump_spec(bytes)->0.states.len(),
        0 <= a < dump_spec(bytes)->0.states[s].arms.len(),
    ensures
        ({
            let arms = dump_spec(bytes)->0.states[s].arms;
            &&& arms.len() > 0
            &&& arms[a].len() > 0
            &&& arms[a][0] == Instr::Other <==> a == arms.len() - 1
            &&& arms[a][0] != Instr::Other ==> arms[a][0].opcode() < OTHER
        }),
{
    let (count, start) = crate::dump::header_of(bytes).unwrap();
    lemma_listed_arms(bytes, 7, count as int, s, a);
}

/// A compiled program can be disassembled, if each of its states has an
/// arm: the disassembly has as many states as the program declares, and
/// its header gives that number and the address of `start`.
pub proof fn lemma_disassembles(unit: Seq<State>)
    requires
        program_spec(unit) is Ok,
        program_spec(unit)->Ok_0.bytes.len() <= usize::MAX,
        forall|i: int| 0 <= i < unit.len() ==> (#[trigger] unit[i]).arms.len() > 0,
    ensures
        dump_spec(program_spec(unit)->Ok_0.bytes) is Some,
        dump_spec(program_spec(unit)->Ok_0.bytes)->0.count == unit.len(),
        Some(dump_spec(program_spec(unit)->Ok_0.bytes)->0.start) == lookup(
            program_spec(unit)->Ok_0.addrs,
            start_sig(),
        ),
        dump_spec(program_spec(unit)->Ok_0.bytes)->0.states.len() == unit.len(),
{
    let n = unit.len() as int;
    let before = states_upto(unit, n)->Ok_0;
    let m = program_spec(unit)->Ok_0;
    let address = lookup(before.addrs, start_sig())->0;
    crate::layout::lemma_header(unit);
    crate::layout::lemma_states_ok(unit, n);
    crate::layout::lemma_patched32(before.bytes, 2, address);
    lemma_states_shape(unit, 0, n);
    lemma_states_end(unit, 0);
    assert(shape_ok(m)) by {
        assert forall|k: int| 0 <= k < m.trace.len() implies m.bytes[#[trigger] offset(m.trace, k)]
            == m.trace[k].opcode() by {
            lemma_decodes(before, k);
            lemma_offset_step(before.trace, k);
        }
    }
    assert(states_upto(unit, 0)->Ok_0.trace.len() == 0);
    lemma_states_at(m, 0, n);
    assert(m.trace.take(0) =~= Seq::<Instr>::empty());
    assert(m.trace.take(m.trace.len() as int) =~= m.trace);
}

} // verus!
