//! The layout of a compiled program: every skip over an arm lands on the
//! pattern of the next arm, the address slot of every call of a named
//! state ends up holding the address of that state, and the header gives
//! the address of `start`.

use vstd::prelude::*;
use crate::bytecode::{decode_at, u16_at, u32_at, Instr, OTHER, UNRESOLVED};
use crate::encoder::{patched16, patched32};
use crate::lower::{
    arm_spec, arms_upto, call_instr, call_spec, declared, finish_call, frees, frees_upto, lefts,
    lemma_opened, lookup, moved, named_symbol, named_write, names_of, opened, ops_spec, ops_upto,
    program_spec, resolved_upto, rights, sig_of, start_model, start_sig, state_args_upto,
    state_spec, states_upto, symbol_args_upto, use_counts, waiting_upto, ForwardRef, Model, Scope,
    SigModel, Signature,
};
use crate::parse::{Arm, Op, OpKind, Pattern, State, ToState};
use crate::symbols::interned;

verus! {

/// Whether the slot at offset `slot` waits for the state with the
/// signature `sig`.
pub open spec fn waits(refs: Seq<ForwardRef>, slot: int, sig: SigModel) -> bool {
    exists|r: int|
        0 <= r < refs.len() && (#[trigger] refs[r]).location == slot && refs[r].signature@ == sig
}

/// Whether the comparison at offset `from` skips to offset `to` where it
/// does not match.
pub open spec fn skip_lands(bytes: Seq<u8>, from: int, to: int) -> bool {
    match decode_at(bytes, from) {
        Some(Instr::CompareArg(_, skip)) => from + 4 + skip == to,
        Some(Instr::CompareVal(_, skip)) => from + 5 + skip == to,
        _ => false,
    }
}

/// No slot waits for a state that is declared.
pub open spec fn refs_wait(m: Model) -> bool {
    forall|r: int| 0 <= r < m.refs.len() ==> lookup(m.addrs, (#[trigger] m.refs[r]).signature@) is None
}

/// Whether a whole instruction with the opcode of a pattern starts at
/// offset `to`.
pub open spec fn lands_on_pattern(bytes: Seq<u8>, to: int) -> bool {
    0 <= to < bytes.len() && bytes[to] <= OTHER && to + 1 + crate::bytecode::operand_len(bytes[to])
        <= bytes.len()
}

/// The slots that wait lie in the program, after the header, one after the
/// other.
pub open spec fn refs_ok(refs: Seq<ForwardRef>, len: int) -> bool {
    &&& forall|r: int|
        0 <= r < refs.len() ==> 7 <= (#[trigger] refs[r]).location && refs[r].location + 4 <= len
    &&& forall|q: int, r: int|
        0 <= q < r < refs.len() ==> (#[trigger] refs[q]).location + 4 <= (
        #[trigger] refs[r]).location
}

/// The slot of a call holds the address of the state that the call names,
/// once that state is declared; until then it waits.
pub open spec fn settled(m: Model, slot: (int, SigModel)) -> bool {
    match lookup(m.addrs, slot.1) {
        Some(address) => u32_at(m.bytes, slot.0) == address,
        None => waits(m.refs, slot.0, slot.1),
    }
}

/// The slot of every call lies in the program, after the header; it is
/// one of the slots that wait or apart from all of them; and it is
/// settled.
pub open spec fn slots_ok(m: Model) -> bool {
    &&& forall|j: int|
        0 <= j < m.slots.len() ==> 7 <= (#[trigger] m.slots[j]).0 && m.slots[j].0 + 4
            <= m.bytes.len() && settled(m, m.slots[j])
    &&& forall|j: int, r: int|
        0 <= j < m.slots.len() && 0 <= r < m.refs.len() ==> ((#[trigger] m.slots[j]).0 == (
        #[trigger] m.refs[r]).location && m.slots[j].1 == m.refs[r].signature@) || m.slots[j].0
            + 4 <= m.refs[r].location || m.refs[r].location + 4 <= m.slots[j].0
}

/// Every comparison lands on the arm after it, and that arm starts with a
/// pattern. While the arms of a state are written (`open`), the arm after
/// the last comparison is still to come. No slot that waits touches a
/// comparison or the start of an arm.
pub open spec fn skips_ok(m: Model, open: bool) -> bool {
    &&& forall|k: int|
        0 <= k < m.skips.len() ==> 7 <= (#[trigger] m.skips[k]).0 && m.skips[k].0 + 5
            <= m.skips[k].1 <= m.bytes.len() && skip_lands(m.bytes, m.skips[k].0, m.skips[k].1)
    &&& forall|k: int|
        0 <= k < m.skips.len() && !(open && k == m.skips.len() - 1) ==> lands_on_pattern(
            m.bytes,
            (#[trigger] m.skips[k]).1,
        )
    &&& open ==> m.skips.len() > 0 && m.skips.last().1 == m.bytes.len()
    &&& forall|k: int, r: int|
        0 <= k < m.skips.len() && 0 <= r < m.refs.len() ==> (#[trigger] m.refs[r]).location + 4
            <= (#[trigger] m.skips[k]).0 || (m.skips[k].0 + 5 <= m.refs[r].location
            && m.refs[r].location + 4 <= m.skips[k].1) || m.skips[k].1 + 1
            <= m.refs[r].location
}

/// What holds of the program at every point between two arms.
pub open spec fn layout_ok(m: Model, open: bool) -> bool {
    &&& 7 <= m.bytes.len() <= usize::MAX
    &&& refs_ok(m.refs, m.bytes.len() as int)
    &&& refs_wait(m)
    &&& slots_ok(m)
    &&& skips_ok(m, open)
    &&& m.bytes.len() < UNRESOLVED ==> forall|i: int|
        0 <= i < m.addrs.len() ==> (#[trigger] m.addrs[i]).1 < UNRESOLVED
}

/// `b` comes from `a` by writing at the end only: the program so far, the
/// declared states with their names and the comparisons are as they were,
/// and every new slot lies after the end of `a`, behind an opcode, and
/// either waits or holds the address of a state that is declared.
pub open spec fn grown(a: Model, b: Model) -> bool {
    &&& a.bytes.len() <= b.bytes.len()
    &&& b.bytes.subrange(0, a.bytes.len() as int) == a.bytes
    &&& a.addrs == b.addrs
    &&& a.names == b.names
    &&& a.skips == b.skips
    &&& a.refs.len() <= b.refs.len()
    &&& forall|r: int| 0 <= r < a.refs.len() ==> (#[trigger] b.refs[r]) == a.refs[r]
    &&& forall|r: int|
        a.refs.len() <= r < b.refs.len() ==> a.bytes.len() + 1 <= (#[trigger] b.refs[r]).location
            && b.refs[r].location + 4 <= b.bytes.len() && lookup(a.addrs, b.refs[r].signature@)
            is None
    &&& forall|q: int, r: int|
        a.refs.len() <= q < r < b.refs.len() ==> (#[trigger] b.refs[q]).location + 4 <= (
        #[trigger] b.refs[r]).location
    &&& a.slots.len() <= b.slots.len()
    &&& forall|j: int| 0 <= j < a.slots.len() ==> (#[trigger] b.slots[j]) == a.slots[j]
    &&& forall|j: int|
        a.slots.len() <= j < b.slots.len() ==> a.bytes.len() + 1 <= (#[trigger] b.slots[j]).0
            && b.slots[j].0 + 4 <= b.bytes.len() && (waits(b.refs, b.slots[j].0, b.slots[j].1)
            || lookup(a.addrs, b.slots[j].1) == Some(u32_at(b.bytes, b.slots[j].0)))
    &&& forall|j: int, r: int|
        a.slots.len() <= j < b.slots.len() && a.refs.len() <= r < b.refs.len() ==> ((
        #[trigger] b.slots[j]).0 == (#[trigger] b.refs[r]).location && b.slots[j].1
            == b.refs[r].signature@) || b.slots[j].0 + 4 <= b.refs[r].location
            || b.refs[r].location + 4 <= b.slots[j].0
}

pub proof fn lemma_grown_refl(a: Model)
    ensures
        grown(a, a),
{
    assert(a.bytes.subrange(0, a.bytes.len() as int) =~= a.bytes);
}

pub proof fn lemma_grown_trans(a: Model, b: Model, c: Model)
    requires
        grown(a, b),
        grown(b, c),
    ensures
        grown(a, c),
{
    assert forall|x: int| 0 <= x < b.bytes.len() implies c.bytes[x] == b.bytes[x] by {
        assert(c.bytes.subrange(0, b.bytes.len() as int)[x] == c.bytes[x]);
    }
    assert forall|x: int| 0 <= x < a.bytes.len() implies b.bytes[x] == a.bytes[x] by {
        assert(b.bytes.subrange(0, a.bytes.len() as int)[x] == b.bytes[x]);
    }
    assert(c.bytes.subrange(0, a.bytes.len() as int) =~= a.bytes);
    assert forall|j: int| a.slots.len() <= j < c.slots.len() implies waits(
        c.refs,
        (#[trigger] c.slots[j]).0,
        c.slots[j].1,
    ) || lookup(a.addrs, c.slots[j].1) == Some(u32_at(c.bytes, c.slots[j].0)) by {
        if j < b.slots.len() {
            assert(c.slots[j] == b.slots[j]);
            if waits(b.refs, b.slots[j].0, b.slots[j].1) {
                let r = choose|r: int|
                    0 <= r < b.refs.len() && (#[trigger] b.refs[r]).location == b.slots[j].0
                        && b.refs[r].signature@ == b.slots[j].1;
                assert(c.refs[r] == b.refs[r]);
            } else {
                lemma_u32_same(b.bytes, c.bytes, b.slots[j].0);
            }
        }
    }
    assert forall|j: int, r: int|
        a.slots.len() <= j < c.slots.len() && a.refs.len() <= r < c.refs.len() implies ((
    #[trigger] c.slots[j]).0 == (#[trigger] c.refs[r]).location && c.slots[j].1
        == c.refs[r].signature@) || c.slots[j].0 + 4 <= c.refs[r].location
        || c.refs[r].location + 4 <= c.slots[j].0 by {
        if j < b.slots.len() {
            assert(c.slots[j] == b.slots[j]);
        }
        if r < b.refs.len() {
            assert(c.refs[r] == b.refs[r]);
        }
    }
}

/// Writing an instruction only adds to the program.
pub proof fn lemma_put_grown(m: Model, instr: Instr)
    ensures
        grown(m, m.put(instr)),
        m.put(instr).bytes.len() == m.bytes.len() + instr.size(),
{
    assert((m.bytes + instr.encoding()).subrange(0, m.bytes.len() as int) =~= m.bytes);
}

/// A change of the symbol table or of the counts is no change of the
/// layout.
pub proof fn lemma_same_layout(a: Model, b: Model)
    requires
        a.bytes == b.bytes,
        a.refs == b.refs,
        a.addrs == b.addrs,
        a.names == b.names,
        a.slots == b.slots,
        a.skips == b.skips,
    ensures
        grown(a, b),
{
    lemma_grown_refl(a);
}

pub proof fn lemma_lefts_grown(m: Model, n: int)
    ensures
        grown(m, lefts(m, n)),
    decreases n,
{
    if n >= 255 {
        lemma_put_grown(m, Instr::LeftN(255));
        lemma_lefts_grown(m.put(Instr::LeftN(255)), n - 255);
        lemma_grown_trans(m, m.put(Instr::LeftN(255)), lefts(m, n));
    } else if n == 1 {
        lemma_put_grown(m, Instr::Left);
    } else if n > 0 {
        lemma_put_grown(m, Instr::LeftN(n as u8));
    } else {
        lemma_grown_refl(m);
    }
}

pub proof fn lemma_rights_grown(m: Model, n: int)
    ensures
        grown(m, rights(m, n)),
    decreases n,
{
    if n >= 255 {
        lemma_put_grown(m, Instr::RightN(255));
        lemma_rights_grown(m.put(Instr::RightN(255)), n - 255);
        lemma_grown_trans(m, m.put(Instr::RightN(255)), rights(m, n));
    } else if n == 1 {
        lemma_put_grown(m, Instr::Right);
    } else if n > 0 {
        lemma_put_grown(m, Instr::RightN(n as u8));
    } else {
        lemma_grown_refl(m);
    }
}

pub proof fn lemma_moved_grown(m: Model, offset: int)
    ensures
        grown(m, moved(m, offset)),
{
    if offset < 0 {
        lemma_lefts_grown(m, -offset);
    } else {
        lemma_rights_grown(m, offset);
    }
}

pub proof fn lemma_ops_grown(m: Model, ops: Seq<Op>, n: int, scope: Scope)
    requires
        ops_upto(m, ops, n, scope) is Ok,
    ensures
        grown(m, ops_upto(m, ops, n, scope)->Ok_0.0),
    decreases n,
{
    if n <= 0 {
        lemma_grown_refl(m);
    } else {
        lemma_ops_grown(m, ops, n - 1, scope);
        let (m1, offset) = ops_upto(m, ops, n - 1, scope)->Ok_0;
        let m2 = ops_upto(m, ops, n, scope)->Ok_0.0;
        match ops[n - 1].kind {
            OpKind::Left => {},
            OpKind::Right => {},
            OpKind::Name(name) => {
                lemma_moved_grown(m1, offset);
                lemma_put_grown(moved(m1, offset), named_write(scope, name@)->0);
                lemma_grown_trans(m1, moved(m1, offset), m2);
                lemma_grown_trans(m, m1, m2);
            },
            OpKind::Symbol(text) => {
                let next = interned(m1.table, text@)->0;
                lemma_moved_grown(m1, offset);
                let m1t = Model { table: next.0, ..moved(m1, offset) };
                lemma_same_layout(moved(m1, offset), m1t);
                lemma_put_grown(m1t, Instr::WriteVal(next.1));
                lemma_grown_trans(m1, moved(m1, offset), m1t);
                lemma_grown_trans(m1, m1t, m2);
                lemma_grown_trans(m, m1, m2);
            },
        }
    }
}

pub proof fn lemma_frees_grown(m: Model, n: int)
    ensures
        grown(m, frees_upto(m, n)),
    decreases n,
{
    if n <= 0 {
        lemma_grown_refl(m);
    } else {
        lemma_frees_grown(m, n - 1);
        if m.counts[n - 1] == 0 {
            lemma_put_grown(frees_upto(m, n - 1), Instr::FreeArg((n - 1) as u8));
            lemma_grown_trans(m, frees_upto(m, n - 1), frees_upto(m, n));
        }
    }
}

pub proof fn lemma_symbol_args_grown(m: Model, args: Seq<Pattern>, n: int, scope: Scope)
    requires
        symbol_args_upto(m, args, n, scope) is Ok,
    ensures
        grown(m, symbol_args_upto(m, args, n, scope)->Ok_0),
    decreases n,
{
    if n <= 0 {
        lemma_grown_refl(m);
    } else {
        lemma_symbol_args_grown(m, args, n - 1, scope);
        let m1 = symbol_args_upto(m, args, n - 1, scope)->Ok_0;
        let m2 = symbol_args_upto(m, args, n, scope)->Ok_0;
        match args[n - 1] {
            Pattern::Symbol(symbol) => {
                let next = interned(m1.table, symbol.symbol@)->0;
                let m1t = Model { table: next.0, ..m1 };
                lemma_same_layout(m1, m1t);
                lemma_put_grown(m1t, Instr::SymbolVal(next.1));
                lemma_grown_trans(m1, m1t, m2);
            },
            Pattern::Name(name) => {
                lemma_put_grown(m1, named_symbol(scope, name.name@)->0);
            },
        }
        lemma_grown_trans(m, m1, m2);
    }
}

/// The instruction that ends a call only adds to the program.
pub proof fn lemma_end_call_grown(m: Model, sig: Signature, span: crate::lex::Span, outer: bool)
    requires
        finish_call(m, sig, span, outer).bytes.len() <= usize::MAX,
    ensures
        grown(
            if outer {
                frees(m)
            } else {
                m
            },
            finish_call(m, sig, span, outer),
        ),
        finish_call(m, sig, span, outer).bytes.len() > m.bytes.len(),
{
    let m1 = if outer {
        frees(m)
    } else {
        m
    };
    if outer {
        lemma_frees_grown(m, m.counts.len() as int);
    } else {
        lemma_grown_refl(m);
    }
    let m2 = finish_call(m, sig, span, outer);
    let location = m1.bytes.len() + if outer {
        1int
    } else {
        2int
    };
    match lookup(m.addrs, sig@) {
        Some(address) => {
            let instr = call_instr(outer, sig.states as int, address);
            lemma_put_grown(m1, instr);
            let m1p = m1.put(instr);
            assert(m2.slots.last() == (location, sig@));
            assert(u32_at(m2.bytes, location) == address) by {
                crate::bytecode::lemma_le32(m2.bytes, location, address);
            }
            assert(grown(m1, m2));
        },
        None => {
            let instr = call_instr(outer, sig.states as int, UNRESOLVED);
            lemma_put_grown(m1, instr);
            let m1p = m1.put(instr);
            assert(m2.refs.last().location == location);
            assert(m2.slots.last() == (location, sig@));
            assert forall|j: int| m1.slots.len() <= j < m2.slots.len() implies waits(
                m2.refs,
                (#[trigger] m2.slots[j]).0,
                m2.slots[j].1,
            ) by {
                let r = m2.refs.len() - 1;
                assert(m2.refs[r].location == m2.slots[j].0 && m2.refs[r].signature@
                    == m2.slots[j].1);
            }
            assert(grown(m1, m2));
        },
    }
}

pub proof fn lemma_finish_call_grown(m: Model, sig: Signature, span: crate::lex::Span, outer: bool)
    requires
        finish_call(m, sig, span, outer).bytes.len() <= usize::MAX,
    ensures
        grown(m, finish_call(m, sig, span, outer)),
        finish_call(m, sig, span, outer).bytes.len() > m.bytes.len(),
{
    lemma_end_call_grown(m, sig, span, outer);
    if outer {
        lemma_frees_grown(m, m.counts.len() as int);
        lemma_grown_trans(m, frees(m), finish_call(m, sig, span, outer));
    }
}

/// A call only adds to the program.
pub proof fn lemma_call_grown(m: Model, t: ToState, scope: Scope, outer: bool)
    requires
        call_spec(m, t, scope, outer) is Ok,
        call_spec(m, t, scope, outer)->Ok_0.bytes.len() <= usize::MAX,
    ensures
        grown(m, call_spec(m, t, scope, outer)->Ok_0),
        call_spec(m, t, scope, outer)->Ok_0.bytes.len() > m.bytes.len(),
    decreases t, 1int, 0int,
{
    let m9 = call_spec(m, t, scope, outer)->Ok_0;
    match t {
        ToState::Halt { .. } => {
            if outer {
                lemma_frees_grown(m, m.counts.len() as int);
                lemma_put_grown(frees(m), Instr::FinalState(crate::bytecode::HALT_ADDRESS));
                lemma_grown_trans(m, frees(m), m9);
            } else {
                lemma_put_grown(m, Instr::MakeState(0, crate::bytecode::HALT_ADDRESS));
            }
        },
        ToState::State { name, state_args, symbol_args } => {
            match crate::lower::index_of(scope.states, name.name@) {
                Some(i) => {
                    if m.counts[i] == 1 {
                        if outer {
                            lemma_frees_grown(m, m.counts.len() as int);
                            lemma_put_grown(frees(m), Instr::FinalArg(i as u8));
                            lemma_grown_trans(m, frees(m), m9);
                        } else {
                            lemma_put_grown(m, Instr::TakeArg(i as u8));
                        }
                    } else {
                        let mc = Model {
                            counts: m.counts.update(i, (m.counts[i] - 1) as usize),
                            ..m
                        };
                        lemma_same_layout(m, mc);
                        lemma_put_grown(mc, Instr::CloneArg(i as u8));
                        lemma_grown_trans(m, mc, m9);
                    }
                },
                None => {
                    let n = state_args.len() as int;
                    let m1 = state_args_upto(m, t, n, scope)->Ok_0;
                    let m2 = symbol_args_upto(m1, symbol_args@, symbol_args.len() as int, scope)->Ok_0;
                    let sig = Signature {
                        name: name.name,
                        states: state_args.len(),
                        symbols: symbol_args.len(),
                    };
                    lemma_finish_call_grown(m2, sig, name.span, outer);
                    lemma_symbol_args_grown(m1, symbol_args@, symbol_args.len() as int, scope);
                    lemma_args_grown(m, t, n, scope);
                    lemma_grown_trans(m1, m2, m9);
                    lemma_grown_trans(m, m1, m9);
                },
            }
        },
    }
}

/// The state arguments of a call only add to the program.
pub proof fn lemma_args_grown(m: Model, t: ToState, n: int, scope: Scope)
    requires
        state_args_upto(m, t, n, scope) is Ok,
        state_args_upto(m, t, n, scope)->Ok_0.bytes.len() <= usize::MAX,
    ensures
        grown(m, state_args_upto(m, t, n, scope)->Ok_0),
    decreases t, 0int, n,
{
    match t {
        ToState::Halt { .. } => {
            lemma_grown_refl(m);
        },
        ToState::State { name, state_args, symbol_args } => {
            if n <= 0 || n > state_args.len() {
                lemma_grown_refl(m);
            } else {
                let m1 = state_args_upto(m, t, n - 1, scope)->Ok_0;
                let m2 = state_args_upto(m, t, n, scope)->Ok_0;
                lemma_call_len(m1, state_args[n - 1], scope, false);
                lemma_args_grown(m, t, n - 1, scope);
                lemma_call_grown(m1, state_args[n - 1], scope, false);
                lemma_grown_trans(m, m1, m2);
            }
        },
    }
}

/// A call never shortens the program.
pub proof fn lemma_call_len(m: Model, t: ToState, scope: Scope, outer: bool)
    requires
        call_spec(m, t, scope, outer) is Ok,
    ensures
        call_spec(m, t, scope, outer)->Ok_0.bytes.len() >= m.bytes.len(),
    decreases t, 1int, 0int,
{
    match t {
        ToState::Halt { .. } => {
            lemma_frees_grown(m, m.counts.len() as int);
        },
        ToState::State { name, state_args, symbol_args } => {
            match crate::lower::index_of(scope.states, name.name@) {
                Some(i) => {
                    lemma_frees_grown(m, m.counts.len() as int);
                },
                None => {
                    let n = state_args.len() as int;
                    lemma_args_len(m, t, n, scope);
                    let m1 = state_args_upto(m, t, n, scope)->Ok_0;
                    lemma_symbol_args_grown(m1, symbol_args@, symbol_args.len() as int, scope);
                    let m2 = symbol_args_upto(m1, symbol_args@, symbol_args.len() as int, scope)->Ok_0;
                    lemma_frees_grown(m2, m2.counts.len() as int);
                },
            }
        },
    }
}

/// The state arguments of a call never shorten the program.
pub proof fn lemma_args_len(m: Model, t: ToState, n: int, scope: Scope)
    requires
        state_args_upto(m, t, n, scope) is Ok,
    ensures
        state_args_upto(m, t, n, scope)->Ok_0.bytes.len() >= m.bytes.len(),
    decreases t, 0int, n,
{
    match t {
        ToState::Halt { .. } => {},
        ToState::State { name, state_args, symbol_args } => {
            if 0 < n <= state_args.len() {
                let m1 = state_args_upto(m, t, n - 1, scope)->Ok_0;
                lemma_args_len(m, t, n - 1, scope);
                lemma_call_len(m1, state_args[n - 1], scope, false);
            }
        },
    }
}

/// A comparison stays what it is where its bytes stay what they are.
proof fn lemma_skip_lands_same(a: Seq<u8>, b: Seq<u8>, from: int, to: int)
    requires
        skip_lands(a, from, to),
        0 <= from,
        from + 5 <= a.len(),
        from + 5 <= b.len(),
        forall|x: int| from <= x < from + 5 ==> a[x] == b[x],
    ensures
        skip_lands(b, from, to),
{
    assert(a[from] == b[from]);
    assert(a[from + 1] == b[from + 1]);
    assert(a[from + 2] == b[from + 2]);
    assert(a[from + 3] == b[from + 3]);
    assert(a[from + 4] == b[from + 4]);
}

/// An address stays what it is where its bytes stay what they are.
pub proof fn lemma_u32_same(a: Seq<u8>, b: Seq<u8>, at: int)
    requires
        forall|x: int| at <= x < at + 4 ==> a[x] == b[x],
    ensures
        u32_at(a, at) == u32_at(b, at),
{
    assert(a[at] == b[at]);
    assert(a[at + 1] == b[at + 1]);
    assert(a[at + 2] == b[at + 2]);
    assert(a[at + 3] == b[at + 3]);
}

/// What is written at the end keeps the layout. If the arm after the last
/// comparison was still to come, what is written must start with a
/// pattern.
pub proof fn lemma_grown_ok(a: Model, b: Model, open: bool)
    requires
        layout_ok(a, open),
        grown(a, b),
        b.bytes.len() <= usize::MAX,
        open ==> lands_on_pattern(b.bytes, a.bytes.len() as int),
    ensures
        layout_ok(b, false),
{
    assert forall|x: int| 0 <= x < a.bytes.len() implies b.bytes[x] == a.bytes[x] by {
        assert(b.bytes.subrange(0, a.bytes.len() as int)[x] == b.bytes[x]);
    }
    assert(refs_ok(b.refs, b.bytes.len() as int)) by {
        assert forall|q: int, r: int| 0 <= q < r < b.refs.len() implies (
        #[trigger] b.refs[q]).location + 4 <= (#[trigger] b.refs[r]).location by {
            if q < a.refs.len() {
                assert(b.refs[q] == a.refs[q]);
                if r < a.refs.len() {
                    assert(b.refs[r] == a.refs[r]);
                }
            }
        }
        assert forall|r: int| 0 <= r < b.refs.len() implies 7 <= (#[trigger] b.refs[r]).location
            && b.refs[r].location + 4 <= b.bytes.len() by {
            if r < a.refs.len() {
                assert(b.refs[r] == a.refs[r]);
            }
        }
    }
    assert(refs_wait(b)) by {
        assert forall|r: int| 0 <= r < b.refs.len() implies lookup(
            b.addrs,
            (#[trigger] b.refs[r]).signature@,
        ) is None by {
            if r < a.refs.len() {
                assert(b.refs[r] == a.refs[r]);
            }
        }
    }
    assert(slots_ok(b)) by {
        assert forall|j: int| 0 <= j < b.slots.len() implies 7 <= (#[trigger] b.slots[j]).0
            && b.slots[j].0 + 4 <= b.bytes.len() && settled(b, b.slots[j]) by {
            if j < a.slots.len() {
                assert(b.slots[j] == a.slots[j]);
                assert(settled(a, a.slots[j]));
                if lookup(a.addrs, a.slots[j].1) is None {
                    let r = choose|r: int|
                        0 <= r < a.refs.len() && (#[trigger] a.refs[r]).location == a.slots[j].0
                            && a.refs[r].signature@ == a.slots[j].1;
                    assert(b.refs[r] == a.refs[r]);
                } else {
                    lemma_u32_same(a.bytes, b.bytes, a.slots[j].0);
                }
            } else if waits(b.refs, b.slots[j].0, b.slots[j].1) {
                let r = choose|r: int|
                    0 <= r < b.refs.len() && (#[trigger] b.refs[r]).location == b.slots[j].0
                        && b.refs[r].signature@ == b.slots[j].1;
                assert(lookup(b.addrs, b.refs[r].signature@) is None);
            }
        }
        assert forall|j: int, r: int|
            0 <= j < b.slots.len() && 0 <= r < b.refs.len() implies ((#[trigger] b.slots[j]).0
            == (#[trigger] b.refs[r]).location && b.slots[j].1 == b.refs[r].signature@)
            || b.slots[j].0 + 4 <= b.refs[r].location || b.refs[r].location + 4
            <= b.slots[j].0 by {
            if j < a.slots.len() {
                assert(b.slots[j] == a.slots[j]);
                if r < a.refs.len() {
                    assert(b.refs[r] == a.refs[r]);
                }
            } else if r < a.refs.len() {
                assert(b.refs[r] == a.refs[r]);
            }
        }
    }
    assert(skips_ok(b, false)) by {
        assert forall|k: int| 0 <= k < b.skips.len() implies 7 <= (#[trigger] b.skips[k]).0
            && b.skips[k].0 + 5 <= b.skips[k].1 <= b.bytes.len() && skip_lands(
            b.bytes,
            b.skips[k].0,
            b.skips[k].1,
        ) by {
            lemma_skip_lands_same(a.bytes, b.bytes, a.skips[k].0, a.skips[k].1);
        }
        assert forall|k: int, r: int|
            0 <= k < b.skips.len() && 0 <= r < b.refs.len() implies (
        #[trigger] b.refs[r]).location + 4 <= (#[trigger] b.skips[k]).0 || (b.skips[k].0 + 5
            <= b.refs[r].location && b.refs[r].location + 4 <= b.skips[k].1) || b.skips[k].1 + 1
            <= b.refs[r].location by {
            if r < a.refs.len() {
                assert(b.refs[r] == a.refs[r]);
            }
        }
    }
}

/// The two bytes stored at an offset read back as what was stored.
pub proof fn lemma_patched16(bytes: Seq<u8>, at: int, v: u16)
    requires
        0 <= at,
        at + 2 <= bytes.len(),
    ensures
        patched16(bytes, at, v).len() == bytes.len(),
        u16_at(patched16(bytes, at, v), at) == v,
        forall|x: int|
            0 <= x < bytes.len() && x != at && x != at + 1 ==> patched16(bytes, at, v)[x]
                == bytes[x],
{
}

/// The four bytes stored at an offset read back as what was stored.
pub proof fn lemma_patched32(bytes: Seq<u8>, at: int, v: u32)
    requires
        0 <= at,
        at + 4 <= bytes.len(),
    ensures
        patched32(bytes, at, v).len() == bytes.len(),
        u32_at(patched32(bytes, at, v), at) == v,
        forall|x: int|
            0 <= x < bytes.len() && !(at <= x < at + 4) ==> patched32(bytes, at, v)[x]
                == bytes[x],
{
}

/// One arm keeps the layout. After an arm that is not the last of its
/// state, the next arm is still to come.
pub proof fn lemma_arm_ok(
    m: Model,
    arm: Arm,
    states: Seq<Seq<char>>,
    symbols: Seq<Seq<char>>,
    is_last: bool,
    open: bool,
)
    requires
        layout_ok(m, open),
        arm_spec(m, arm, states, symbols, is_last) is Ok,
        arm_spec(m, arm, states, symbols, is_last)->Ok_0.bytes.len() <= usize::MAX,
    ensures
        layout_ok(arm_spec(m, arm, states, symbols, is_last)->Ok_0, !is_last),
        arm_spec(m, arm, states, symbols, is_last)->Ok_0.addrs == m.addrs,
        arm_spec(m, arm, states, symbols, is_last)->Ok_0.bytes.len() > m.bytes.len(),
        forall|x: int|
            0 <= x < m.bytes.len() ==> arm_spec(m, arm, states, symbols, is_last)->Ok_0.bytes[x]
                == m.bytes[x],
{
    let m4 = arm_spec(m, arm, states, symbols, is_last)->Ok_0;
    let (m1, bound) = opened(m, arm.pattern, symbols, is_last)->Ok_0;
    let scope = Scope { states, symbols, bound };
    let m2 = ops_spec(m1, arm.ops@, scope)->Ok_0;
    let m2c = Model { counts: use_counts(arm.to_state, states), ..m2 };
    let m3 = call_spec(m2c, arm.to_state, scope, true)->Ok_0;
    let (mo, offset) = ops_upto(m1, arm.ops@, arm.ops.len() as int, scope)->Ok_0;
    // the pattern
    let instr: Instr = match arm.pattern {
        Pattern::Symbol(symbol) => Instr::CompareVal(
            interned(m.table, symbol.symbol@).unwrap().1,
            u16::MAX,
        ),
        Pattern::Name(name) => match crate::lower::index_of(symbols, name.name@) {
            Some(i) => Instr::CompareArg(i as u8, u16::MAX),
            None => Instr::Other,
        },
    };
    let mt = Model { table: m1.table, ..m };
    lemma_opened(m, arm.pattern, symbols, is_last);
    assert(m1 == mt.put(instr));
    lemma_same_layout(m, mt);
    lemma_put_grown(mt, instr);
    lemma_grown_trans(m, mt, m1);
    // the operations and the call
    lemma_ops_grown(m1, arm.ops@, arm.ops.len() as int, scope);
    lemma_moved_grown(mo, offset);
    lemma_grown_trans(m1, mo, m2);
    lemma_same_layout(m2, m2c);
    lemma_grown_trans(m1, m2, m2c);
    lemma_call_grown(m2c, arm.to_state, scope, true);
    lemma_grown_trans(m1, m2c, m3);
    lemma_grown_trans(m, m1, m3);
    assert(m3.bytes[m.bytes.len() as int] == instr.opcode()) by {
        assert(m3.bytes.subrange(0, m1.bytes.len() as int)[m.bytes.len() as int]
            == m3.bytes[m.bytes.len() as int]);
        assert(m1.bytes[m.bytes.len() as int] == instr.encoding()[0]);
    }
    assert(lands_on_pattern(m3.bytes, m.bytes.len() as int));
    lemma_grown_ok(m, m3, open);
    assert forall|x: int| 0 <= x < m.bytes.len() implies m3.bytes[x] == m.bytes[x] by {
        assert(m3.bytes.subrange(0, m.bytes.len() as int)[x] == m3.bytes[x]);
    }
    if !is_last {
        let location = m1.bytes.len() - 2;
        let jump = (m3.bytes.len() - location - 2) as u16;
        let from = m.bytes.len() as int;
        let to = m3.bytes.len() as int;
        lemma_patched16(m3.bytes, location, jump);
        assert forall|x: int| 0 <= x < m1.bytes.len() implies m3.bytes[x] == m1.bytes[x] by {
            assert(m3.bytes.subrange(0, m1.bytes.len() as int)[x] == m3.bytes[x]);
        }
        assert(skip_lands(m4.bytes, from, to)) by {
            assert(m4.bytes[from] == instr.encoding()[0]);
            assert(m4.bytes[from + 1] == instr.encoding()[1]);
            assert(m4.bytes[from + 2] == if location == from + 2 {
                m4.bytes[location]
            } else {
                instr.encoding()[2]
            });
        }
        assert(refs_ok(m4.refs, m4.bytes.len() as int));
        assert(refs_wait(m4));
        assert(slots_ok(m4)) by {
            assert forall|j: int| 0 <= j < m4.slots.len() implies 7 <= (#[trigger] m4.slots[j]).0
                && m4.slots[j].0 + 4 <= m4.bytes.len() && settled(m4, m4.slots[j]) by {
                assert(settled(m3, m3.slots[j]));
                if j < m.slots.len() {
                    assert(m3.slots[j] == m.slots[j]);
                } else {
                    assert(m1.slots == m.slots);
                }
                lemma_u32_same(m3.bytes, m4.bytes, m3.slots[j].0);
            }
        }
        assert(skips_ok(m4, true)) by {
            assert forall|k: int| 0 <= k < m4.skips.len() implies 7 <= (#[trigger] m4.skips[k]).0
                && m4.skips[k].0 + 5 <= m4.skips[k].1 <= m4.bytes.len() && skip_lands(
                m4.bytes,
                m4.skips[k].0,
                m4.skips[k].1,
            ) by {
                if k < m3.skips.len() {
                    assert(m3.skips[k] == m.skips[k]);
                    lemma_skip_lands_same(m3.bytes, m4.bytes, m3.skips[k].0, m3.skips[k].1);
                }
            }
            assert forall|k: int|
                0 <= k < m4.skips.len() && !(k == m4.skips.len() - 1) implies lands_on_pattern(
                m4.bytes,
                (#[trigger] m4.skips[k]).1,
            ) by {
                assert(m3.skips[k] == m.skips[k]);
                assert(lands_on_pattern(m3.bytes, m3.skips[k].1));
            }
            assert forall|k: int, r: int|
                0 <= k < m4.skips.len() && 0 <= r < m4.refs.len() implies (
            #[trigger] m4.refs[r]).location + 4 <= (#[trigger] m4.skips[k]).0 || (m4.skips[k].0
                + 5 <= m4.refs[r].location && m4.refs[r].location + 4 <= m4.skips[k].1)
                || m4.skips[k].1 + 1 <= m4.refs[r].location by {
                if k < m3.skips.len() {
                    assert(m3.skips[k] == m.skips[k]);
                } else {
                    if r < m.refs.len() {
                        assert(m3.refs[r] == m.refs[r]);
                    } else {
                        assert(m1.refs == m.refs);
                    }
                }
            }
        }
    }
}

/// The arms of a state keep the layout.
pub proof fn lemma_arms_ok(
    m: Model,
    arms: Seq<Arm>,
    n: int,
    states: Seq<Seq<char>>,
    symbols: Seq<Seq<char>>,
)
    requires
        layout_ok(m, false),
        0 <= n <= arms.len(),
        arms_upto(m, arms, n, states, symbols) is Ok,
        arms_upto(m, arms, n, states, symbols)->Ok_0.bytes.len() <= usize::MAX,
    ensures
        layout_ok(arms_upto(m, arms, n, states, symbols)->Ok_0, 0 < n < arms.len()),
        arms_upto(m, arms, n, states, symbols)->Ok_0.addrs == m.addrs,
        arms_upto(m, arms, n, states, symbols)->Ok_0.bytes.len() >= m.bytes.len(),
        forall|x: int|
            0 <= x < m.bytes.len() ==> arms_upto(m, arms, n, states, symbols)->Ok_0.bytes[x]
                == m.bytes[x],
    decreases n,
{
    if n > 0 {
        let m1 = arms_upto(m, arms, n - 1, states, symbols)->Ok_0;
        lemma_arm_len(m1, arms[n - 1], states, symbols, n == arms.len());
        lemma_arms_ok(m, arms, n - 1, states, symbols);
        lemma_arm_ok(m1, arms[n - 1], states, symbols, n == arms.len(), 0 < n - 1 < arms.len());
    }
}

/// An arm is written at the end: the program before it, the declared
/// states and their names stay as they are.
pub proof fn lemma_arm_keeps(
    m: Model,
    arm: Arm,
    states: Seq<Seq<char>>,
    symbols: Seq<Seq<char>>,
    is_last: bool,
)
    requires
        arm_spec(m, arm, states, symbols, is_last) is Ok,
        arm_spec(m, arm, states, symbols, is_last)->Ok_0.bytes.len() <= usize::MAX,
    ensures
        arm_spec(m, arm, states, symbols, is_last)->Ok_0.addrs == m.addrs,
        arm_spec(m, arm, states, symbols, is_last)->Ok_0.names == m.names,
        arm_spec(m, arm, states, symbols, is_last)->Ok_0.bytes.len() > m.bytes.len(),
        forall|x: int|
            0 <= x < m.bytes.len() ==> arm_spec(m, arm, states, symbols, is_last)->Ok_0.bytes[x]
                == m.bytes[x],
        forall|w: int|
            0 <= w < arm_spec(m, arm, states, symbols, is_last)->Ok_0.refs.len() ==> lookup(
                m.addrs,
                (#[trigger] arm_spec(m, arm, states, symbols, is_last)->Ok_0.refs[w]).signature@,
            ) is None || (w < m.refs.len() && arm_spec(
                m,
                arm,
                states,
                symbols,
                is_last,
            )->Ok_0.refs[w] == m.refs[w]),
        arm_spec(m, arm, states, symbols, is_last)->Ok_0.skips == if is_last {
            m.skips
        } else {
            m.skips.push(
                (
                    m.bytes.len() as int,
                    arm_spec(m, arm, states, symbols, is_last)->Ok_0.bytes.len() as int,
                ),
            )
        },
{
    let (m1, bound) = opened(m, arm.pattern, symbols, is_last)->Ok_0;
    let scope = Scope { states, symbols, bound };
    let m2 = ops_spec(m1, arm.ops@, scope)->Ok_0;
    let m2c = Model { counts: use_counts(arm.to_state, states), ..m2 };
    let m3 = call_spec(m2c, arm.to_state, scope, true)->Ok_0;
    let (mo, offset) = ops_upto(m1, arm.ops@, arm.ops.len() as int, scope)->Ok_0;
    let mt = Model { table: m1.table, ..m };
    lemma_opened(m, arm.pattern, symbols, is_last);
    lemma_same_layout(m, mt);
    lemma_put_grown(mt, crate::lower::pattern_instr(m, arm.pattern, symbols));
    lemma_grown_trans(m, mt, m1);
    lemma_ops_grown(m1, arm.ops@, arm.ops.len() as int, scope);
    lemma_moved_grown(mo, offset);
    lemma_grown_trans(m1, mo, m2);
    lemma_same_layout(m2, m2c);
    lemma_grown_trans(m1, m2, m2c);
    lemma_call_grown(m2c, arm.to_state, scope, true);
    lemma_grown_trans(m1, m2c, m3);
    lemma_grown_trans(m, m1, m3);
    assert forall|x: int| 0 <= x < m.bytes.len() implies m3.bytes[x] == m.bytes[x] by {
        assert(m3.bytes.subrange(0, m.bytes.len() as int)[x] == m3.bytes[x]);
    }
    if !is_last {
        let location = m1.bytes.len() - 2;
        lemma_patched16(m3.bytes, location, (m3.bytes.len() - location - 2) as u16);
    }
}

/// The arms of a state are written at the end: the program before them,
/// the declared states and their names stay as they are.
pub proof fn lemma_arms_keep(
    m: Model,
    arms: Seq<Arm>,
    n: int,
    states: Seq<Seq<char>>,
    symbols: Seq<Seq<char>>,
)
    requires
        0 <= n <= arms.len(),
        arms_upto(m, arms, n, states, symbols) is Ok,
        arms_upto(m, arms, n, states, symbols)->Ok_0.bytes.len() <= usize::MAX,
    ensures
        arms_upto(m, arms, n, states, symbols)->Ok_0.addrs == m.addrs,
        arms_upto(m, arms, n, states, symbols)->Ok_0.names == m.names,
        arms_upto(m, arms, n, states, symbols)->Ok_0.bytes.len() >= m.bytes.len(),
        n > 0 ==> arms_upto(m, arms, n, states, symbols)->Ok_0.bytes.len() > m.bytes.len(),
        forall|x: int|
            0 <= x < m.bytes.len() ==> arms_upto(m, arms, n, states, symbols)->Ok_0.bytes[x]
                == m.bytes[x],
        forall|w: int|
            0 <= w < arms_upto(m, arms, n, states, symbols)->Ok_0.refs.len() ==> lookup(
                m.addrs,
                (#[trigger] arms_upto(m, arms, n, states, symbols)->Ok_0.refs[w]).signature@,
            ) is None || (w < m.refs.len() && arms_upto(m, arms, n, states, symbols)->Ok_0.refs[w]
                == m.refs[w]),
    decreases n,
{
    if n > 0 {
        let m1 = arms_upto(m, arms, n - 1, states, symbols)->Ok_0;
        lemma_arm_len(m1, arms[n - 1], states, symbols, n == arms.len());
        lemma_arms_keep(m, arms, n - 1, states, symbols);
        lemma_arm_keeps(m1, arms[n - 1], states, symbols, n == arms.len());
    }
}

/// An arm never shortens the program.
pub proof fn lemma_arm_len(
    m: Model,
    arm: Arm,
    states: Seq<Seq<char>>,
    symbols: Seq<Seq<char>>,
    is_last: bool,
)
    requires
        arm_spec(m, arm, states, symbols, is_last) is Ok,
    ensures
        arm_spec(m, arm, states, symbols, is_last)->Ok_0.bytes.len() >= m.bytes.len(),
{
    let (m1, bound) = opened(m, arm.pattern, symbols, is_last)->Ok_0;
    let scope = Scope { states, symbols, bound };
    let m2 = ops_spec(m1, arm.ops@, scope)->Ok_0;
    let m2c = Model { counts: use_counts(arm.to_state, states), ..m2 };
    let m3 = call_spec(m2c, arm.to_state, scope, true)->Ok_0;
    let (mo, offset) = ops_upto(m1, arm.ops@, arm.ops.len() as int, scope)->Ok_0;
    lemma_ops_grown(m1, arm.ops@, arm.ops.len() as int, scope);
    lemma_moved_grown(mo, offset);
    lemma_call_len(m2c, arm.to_state, scope, true);
    if !is_last {
        let location = m1.bytes.len() - 2;
        if 0 <= location && location + 2 <= m3.bytes.len() {
            lemma_patched16(m3.bytes, location, (m3.bytes.len() - location - 2) as u16);
        }
    }
}

/// Whether offset `x` lies in none of the first `n` slots that wait for
/// `sig`.
pub open spec fn untouched(refs: Seq<ForwardRef>, n: int, sig: SigModel, x: int) -> bool {
    forall|r: int|
        0 <= r < n && (#[trigger] refs[r]).signature@ == sig ==> x < refs[r].location || x
            >= refs[r].location + 4
}

/// Resolving gives the address to every slot that waits for the signature,
/// and changes no byte outside those slots.
pub proof fn lemma_resolved(bytes: Seq<u8>, refs: Seq<ForwardRef>, n: int, sig: SigModel, address: u32)
    requires
        refs_ok(refs, bytes.len() as int),
        0 <= n <= refs.len(),
    ensures
        resolved_upto(bytes, refs, n, sig, address).len() == bytes.len(),
        forall|r: int|
            0 <= r < n && (#[trigger] refs[r]).signature@ == sig ==> u32_at(
                resolved_upto(bytes, refs, n, sig, address),
                refs[r].location as int,
            ) == address,
        forall|x: int|
            0 <= x < bytes.len() && untouched(refs, n, sig, x) ==> resolved_upto(
                bytes,
                refs,
                n,
                sig,
                address,
            )[x] == bytes[x],
    decreases n,
{
    if n > 0 {
        lemma_resolved(bytes, refs, n - 1, sig, address);
        let before = resolved_upto(bytes, refs, n - 1, sig, address);
        let after = resolved_upto(bytes, refs, n, sig, address);
        if refs[n - 1].signature@ == sig {
            lemma_patched32(before, refs[n - 1].location as int, address);
            assert forall|r: int| 0 <= r < n && (#[trigger] refs[r]).signature@ == sig implies u32_at(
                after,
                refs[r].location as int,
            ) == address by {
                if r < n - 1 {
                    assert(refs[r].location + 4 <= refs[n - 1].location);
                    lemma_u32_same(before, after, refs[r].location as int);
                }
            }
        }
        assert forall|x: int| 0 <= x < bytes.len() && untouched(refs, n, sig, x) implies after[x]
            == bytes[x] by {
            assert(untouched(refs, n - 1, sig, x));
            if refs[n - 1].signature@ == sig {
                assert(x < refs[n - 1].location || x >= refs[n - 1].location + 4);
            }
        }
    }
}

/// Whether `slot` is one of the first `n` slots that wait, and waits for
/// another signature than `sig`.
pub open spec fn still_waits(refs: Seq<ForwardRef>, n: int, sig: SigModel, slot: ForwardRef) -> bool {
    exists|r: int| 0 <= r < n && (#[trigger] refs[r]) == slot && refs[r].signature@ != sig
}

/// The slots that go on waiting are slots that waited, in the same order.
pub proof fn lemma_waiting(refs: Seq<ForwardRef>, n: int, sig: SigModel, len: int)
    requires
        refs_ok(refs, len),
        0 <= n <= refs.len(),
    ensures
        refs_ok(waiting_upto(refs, n, sig), len),
        forall|w: int|
            0 <= w < waiting_upto(refs, n, sig).len() ==> still_waits(
                refs,
                n,
                sig,
                #[trigger] waiting_upto(refs, n, sig)[w],
            ),
        forall|r: int|
            0 <= r < n && (#[trigger] refs[r]).signature@ != sig ==> waits(
                waiting_upto(refs, n, sig),
                refs[r].location as int,
                refs[r].signature@,
            ),
    decreases n,
{
    if n > 0 {
        lemma_waiting(refs, n - 1, sig, len);
        let before = waiting_upto(refs, n - 1, sig);
        let after = waiting_upto(refs, n, sig);
        if refs[n - 1].signature@ != sig {
            assert forall|w: int| 0 <= w < after.len() implies still_waits(
                refs,
                n,
                sig,
                #[trigger] after[w],
            ) by {
                if w < before.len() {
                    assert(still_waits(refs, n - 1, sig, before[w]));
                    let r = choose|r: int|
                        0 <= r < n - 1 && (#[trigger] refs[r]) == before[w] && refs[r].signature@
                            != sig;
                    assert(refs[r] == after[w]);
                } else {
                    assert(refs[n - 1] == after[w]);
                }
            }
            assert forall|q: int, r: int| 0 <= q < r < after.len() implies (
            #[trigger] after[q]).location + 4 <= (#[trigger] after[r]).location by {
                if r == after.len() - 1 {
                    assert(still_waits(refs, n - 1, sig, before[q]));
                    let q0 = choose|q0: int|
                        0 <= q0 < n - 1 && (#[trigger] refs[q0]) == before[q]
                            && refs[q0].signature@ != sig;
                    assert(refs[q0].location + 4 <= refs[n - 1].location);
                } else {
                    assert(before[q].location + 4 <= before[r].location);
                }
            }
            assert forall|r: int| 0 <= r < n && (#[trigger] refs[r]).signature@ != sig implies waits(
                after,
                refs[r].location as int,
                refs[r].signature@,
            ) by {
                if r < n - 1 {
                    let w = choose|w: int|
                        0 <= w < before.len() && (#[trigger] before[w]).location
                            == refs[r].location as int && before[w].signature@
                            == refs[r].signature@;
                    assert(after[w] == before[w]);
                } else {
                    let w = after.len() - 1;
                    assert(after[w].location == refs[r].location && after[w].signature@
                        == refs[r].signature@);
                }
            }
            assert forall|w: int| 0 <= w < after.len() implies 7 <= (#[trigger] after[w]).location
                && after[w].location + 4 <= len by {
                if w < before.len() {
                    assert(after[w] == before[w]);
                }
            }
        } else {
            assert forall|w: int| 0 <= w < after.len() implies still_waits(
                refs,
                n,
                sig,
                #[trigger] after[w],
            ) by {
                assert(still_waits(refs, n - 1, sig, before[w]));
                let r = choose|r: int|
                    0 <= r < n - 1 && (#[trigger] refs[r]) == before[w] && refs[r].signature@
                        != sig;
                assert(refs[r] == after[w]);
            }
        }
    }
}

/// The address of a signature after one more state is declared.
pub proof fn lemma_lookup_push(addrs: Seq<(Signature, u32)>, sig: Signature, address: u32, other: SigModel)
    ensures
        lookup(addrs.push((sig, address)), other) == if sig@ == other {
            Some(address)
        } else {
            lookup(addrs, other)
        },
{
    assert(addrs.push((sig, address)).drop_last() =~= addrs);
}

/// The head of a declaration keeps the layout.
pub proof fn lemma_declared_ok(m: Model, state: State)
    requires
        layout_ok(m, false),
        declared(m, state) is Ok,
    ensures
        layout_ok(declared(m, state)->Ok_0, false),
        declared(m, state)->Ok_0.bytes.len() == m.bytes.len(),
        u16_at(declared(m, state)->Ok_0.bytes, 0) == u16_at(m.bytes, 0) + 1,
        forall|x: int| 2 <= x < 7 ==> declared(m, state)->Ok_0.bytes[x] == m.bytes[x],
        declared(m, state)->Ok_0.addrs == m.addrs.push((sig_of(state), m.bytes.len() as u32)),
{
    let m2 = declared(m, state)->Ok_0;
    let count = u16_at(m.bytes, 0);
    let sig = sig_of(state)@;
    let address = m.bytes.len() as u32;
    let n = m.refs.len() as int;
    let counted = patched16(m.bytes, 0, (count + 1) as u16);
    lemma_patched16(m.bytes, 0, (count + 1) as u16);
    assert(refs_ok(m.refs, counted.len() as int));
    lemma_resolved(counted, m.refs, n, sig, address);
    lemma_waiting(m.refs, n, sig, m.bytes.len() as int);
    assert forall|x: int| 7 <= x < m.bytes.len() && untouched(m.refs, n, sig, x) implies m2.bytes[x]
        == m.bytes[x] by {}
    assert forall|other: SigModel| lookup(m2.addrs, other) == (if sig == other {
        Some(address)
    } else {
        #[trigger] lookup(m.addrs, other)
    }) by {
        lemma_lookup_push(m.addrs, sig_of(state), address, other);
    }
    assert(refs_wait(m2)) by {
        assert forall|r: int| 0 <= r < m2.refs.len() implies lookup(
            m2.addrs,
            (#[trigger] m2.refs[r]).signature@,
        ) is None by {
            assert(still_waits(m.refs, n, sig, m2.refs[r]));
            let r0 = choose|r0: int|
                0 <= r0 < n && (#[trigger] m.refs[r0]) == m2.refs[r] && m.refs[r0].signature@
                    != sig;
            assert(lookup(m.addrs, m.refs[r0].signature@) is None);
        }
    }
    assert(slots_ok(m2)) by {
        assert forall|j: int| 0 <= j < m2.slots.len() implies 7 <= (#[trigger] m2.slots[j]).0
            && m2.slots[j].0 + 4 <= m2.bytes.len() && settled(m2, m2.slots[j]) by {
            let slot = m.slots[j];
            assert(settled(m, slot));
            if slot.1 == sig {
                let r = choose|r: int|
                    0 <= r < m.refs.len() && (#[trigger] m.refs[r]).location == slot.0
                        && m.refs[r].signature@ == slot.1;
                assert(u32_at(m2.bytes, slot.0) == address);
            } else if lookup(m.addrs, slot.1) is None {
                let r = choose|r: int|
                    0 <= r < m.refs.len() && (#[trigger] m.refs[r]).location == slot.0
                        && m.refs[r].signature@ == slot.1;
                assert(waits(m2.refs, slot.0, slot.1));
            } else {
                assert forall|x: int| slot.0 <= x < slot.0 + 4 implies untouched(
                    m.refs,
                    n,
                    sig,
                    x,
                ) by {
                    assert forall|r: int|
                        0 <= r < n && (#[trigger] m.refs[r]).signature@ == sig implies x
                        < m.refs[r].location || x >= m.refs[r].location + 4 by {
                        assert((m.slots[j].0 == m.refs[r].location && m.slots[j].1
                            == m.refs[r].signature@) || m.slots[j].0 + 4 <= m.refs[r].location
                            || m.refs[r].location + 4 <= m.slots[j].0);
                    }
                }
                lemma_u32_same(m.bytes, m2.bytes, slot.0);
            }
        }
        assert forall|j: int, r: int|
            0 <= j < m2.slots.len() && 0 <= r < m2.refs.len() implies ((#[trigger] m2.slots[j]).0
            == (#[trigger] m2.refs[r]).location && m2.slots[j].1 == m2.refs[r].signature@)
            || m2.slots[j].0 + 4 <= m2.refs[r].location || m2.refs[r].location + 4
            <= m2.slots[j].0 by {
            assert(still_waits(m.refs, n, sig, m2.refs[r]));
            let r0 = choose|r0: int|
                0 <= r0 < n && (#[trigger] m.refs[r0]) == m2.refs[r] && m.refs[r0].signature@
                    != sig;
            assert((m.slots[j].0 == m.refs[r0].location && m.slots[j].1 == m.refs[r0].signature@)
                || m.slots[j].0 + 4 <= m.refs[r0].location || m.refs[r0].location + 4
                <= m.slots[j].0);
        }
    }
    assert(skips_ok(m2, false)) by {
        assert forall|k: int| 0 <= k < m2.skips.len() implies 7 <= (#[trigger] m2.skips[k]).0
            && m2.skips[k].0 + 5 <= m2.skips[k].1 <= m2.bytes.len() && skip_lands(
            m2.bytes,
            m2.skips[k].0,
            m2.skips[k].1,
        ) && lands_on_pattern(m2.bytes, m2.skips[k].1) by {
            let from = m.skips[k].0;
            let to = m.skips[k].1;
            assert(lands_on_pattern(m.bytes, to));
            assert forall|x: int| from <= x < from + 5 || x == to implies untouched(
                m.refs,
                n,
                sig,
                x,
            ) by {
                assert forall|r: int|
                    0 <= r < n && (#[trigger] m.refs[r]).signature@ == sig implies x
                    < m.refs[r].location || x >= m.refs[r].location + 4 by {
                    assert(m.refs[r].location + 4 <= m.skips[k].0 || (m.skips[k].0 + 5
                        <= m.refs[r].location && m.refs[r].location + 4 <= m.skips[k].1)
                        || m.skips[k].1 + 1 <= m.refs[r].location);
                }
            }
            lemma_skip_lands_same(m.bytes, m2.bytes, from, to);
        }
        assert forall|k: int, r: int|
            0 <= k < m2.skips.len() && 0 <= r < m2.refs.len() implies (
        #[trigger] m2.refs[r]).location + 4 <= (#[trigger] m2.skips[k]).0 || (m2.skips[k].0 + 5
            <= m2.refs[r].location && m2.refs[r].location + 4 <= m2.skips[k].1)
            || m2.skips[k].1 + 1 <= m2.refs[r].location by {
            assert(still_waits(m.refs, n, sig, m2.refs[r]));
            let r0 = choose|r0: int|
                0 <= r0 < n && (#[trigger] m.refs[r0]) == m2.refs[r] && m.refs[r0].signature@
                    != sig;
            assert(m.refs[r0].location + 4 <= m.skips[k].0 || (m.skips[k].0 + 5
                <= m.refs[r0].location && m.refs[r0].location + 4 <= m.skips[k].1)
                || m.skips[k].1 + 1 <= m.refs[r0].location);
        }
    }
    assert(m2.bytes.len() < UNRESOLVED ==> forall|i: int|
        0 <= i < m2.addrs.len() ==> (#[trigger] m2.addrs[i]).1 < UNRESOLVED) by {
        if m2.bytes.len() < UNRESOLVED {
            assert forall|i: int| 0 <= i < m2.addrs.len() implies (#[trigger] m2.addrs[i]).1
                < UNRESOLVED by {
                if i < m.addrs.len() {
                    assert(m2.addrs[i] == m.addrs[i]);
                }
            }
        }
    }
}

/// The head of a declaration resolves the slots that wait for it. The
/// declared state gets the end of the program as its address; under that
/// address its signature is found, and the name map gives its name. A slot
/// that waited for the signature holds the address afterwards, and no slot
/// waits for the signature any more. A slot that waited for another
/// signature holds what it held, and still waits.
pub proof fn lemma_declared_resolves(m: Model, state: State, r: int)
    requires
        7 <= m.bytes.len(),
        refs_ok(m.refs, m.bytes.len() as int),
        declared(m, state) is Ok,
    ensures
        ({
            let after = declared(m, state)->Ok_0;
            let address = m.bytes.len() as u32;
            let at = m.refs[r].location as int;
            &&& lookup(after.addrs, sig_of(state)@) == Some(address)
            &&& after.names.dom().contains(address)
            &&& after.names[address] == state.name.name
            &&& after.bytes.len() == m.bytes.len()
            &&& refs_ok(after.refs, after.bytes.len() as int)
            &&& forall|w: int|
                0 <= w < after.refs.len() ==> (#[trigger] after.refs[w]).signature@ != sig_of(
                    state,
                )@
            &&& 0 <= r < m.refs.len() ==> if m.refs[r].signature@ == sig_of(state)@ {
                u32_at(after.bytes, at) == address
            } else {
                u32_at(after.bytes, at) == u32_at(m.bytes, at) && waits(
                    after.refs,
                    at,
                    m.refs[r].signature@,
                )
            }
        }),
{
    let m2 = declared(m, state)->Ok_0;
    let count = u16_at(m.bytes, 0);
    let sig = sig_of(state)@;
    let address = m.bytes.len() as u32;
    let n = m.refs.len() as int;
    let at = m.refs[r].location as int;
    let counted = patched16(m.bytes, 0, (count + 1) as u16);
    lemma_patched16(m.bytes, 0, (count + 1) as u16);
    lemma_resolved(counted, m.refs, n, sig, address);
    lemma_waiting(m.refs, n, sig, m.bytes.len() as int);
    lemma_lookup_push(m.addrs, sig_of(state), address, sig);
    assert forall|w: int| 0 <= w < m2.refs.len() implies (#[trigger] m2.refs[w]).signature@
        != sig by {
        assert(still_waits(m.refs, n, sig, m2.refs[w]));
    }
    if 0 <= r < n && m.refs[r].signature@ != sig {
        assert forall|x: int| at <= x < at + 4 implies untouched(m.refs, n, sig, x) by {
            assert forall|q: int| 0 <= q < n && (#[trigger] m.refs[q]).signature@ == sig implies x
                < m.refs[q].location || x >= m.refs[q].location + 4 by {
                if q < r {
                    assert(m.refs[q].location + 4 <= m.refs[r].location);
                } else {
                    assert(m.refs[r].location + 4 <= m.refs[q].location);
                }
            }
        }
        lemma_u32_same(m.bytes, m2.bytes, at);
    }
}

/// A declaration resolves the slots that wait for it: what the head of
/// the declaration does to the slots that waited, the arms leave as it is.
pub proof fn lemma_state_resolves(m: Model, state: State, r: int)
    requires
        7 <= m.bytes.len(),
        refs_ok(m.refs, m.bytes.len() as int),
        state_spec(m, state) is Ok,
        state_spec(m, state)->Ok_0.bytes.len() <= usize::MAX,
    ensures
        ({
            let after = state_spec(m, state)->Ok_0;
            let address = m.bytes.len() as u32;
            let at = m.refs[r].location as int;
            &&& lookup(after.addrs, sig_of(state)@) == Some(address)
            &&& after.names.dom().contains(address)
            &&& after.names[address] == state.name.name
            &&& 0 <= r < m.refs.len() ==> u32_at(after.bytes, at) == if m.refs[r].signature@
                == sig_of(state)@ {
                address
            } else {
                u32_at(m.bytes, at)
            }
            &&& forall|w: int|
                0 <= w < after.refs.len() ==> (#[trigger] after.refs[w]).signature@ != sig_of(
                    state,
                )@
        }),
{
    let head = declared(m, state)->Ok_0;
    let after = state_spec(m, state)->Ok_0;
    lemma_declared_resolves(m, state, r);
    lemma_arms_keep(
        head,
        state.arms@,
        state.arms.len() as int,
        names_of(state.state_params@),
        names_of(state.symbol_params@),
    );
    if 0 <= r < m.refs.len() {
        lemma_u32_same(head.bytes, after.bytes, m.refs[r].location as int);
    }
}

/// A declaration keeps the layout.
pub proof fn lemma_state_ok(m: Model, state: State)
    requires
        layout_ok(m, false),
        state_spec(m, state) is Ok,
        state_spec(m, state)->Ok_0.bytes.len() <= usize::MAX,
    ensures
        layout_ok(state_spec(m, state)->Ok_0, false),
        state_spec(m, state)->Ok_0.bytes.len() >= m.bytes.len(),
        u16_at(state_spec(m, state)->Ok_0.bytes, 0) == u16_at(m.bytes, 0) + 1,
        forall|x: int| 2 <= x < 7 ==> state_spec(m, state)->Ok_0.bytes[x] == m.bytes[x],
{
    lemma_declared_ok(m, state);
    lemma_state_len(m, state);
    let m1 = declared(m, state)->Ok_0;
    lemma_arms_ok(
        m1,
        state.arms@,
        state.arms.len() as int,
        names_of(state.state_params@),
        names_of(state.symbol_params@),
    );
}

/// A declaration never shortens the program.
pub proof fn lemma_state_len(m: Model, state: State)
    requires
        state_spec(m, state) is Ok,
    ensures
        state_spec(m, state)->Ok_0.bytes.len() >= m.bytes.len(),
{
    let m1 = declared(m, state)->Ok_0;
    crate::compile::lemma_resolved_len(
        patched16(m.bytes, 0, (u16_at(m.bytes, 0) + 1) as u16),
        m.refs,
        m.refs.len() as int,
        sig_of(state)@,
        m.bytes.len() as u32,
    );
    lemma_arms_len(
        m1,
        state.arms@,
        state.arms.len() as int,
        names_of(state.state_params@),
        names_of(state.symbol_params@),
    );
}

/// The arms of a state never shorten the program.
pub proof fn lemma_arms_len(
    m: Model,
    arms: Seq<Arm>,
    n: int,
    states: Seq<Seq<char>>,
    symbols: Seq<Seq<char>>,
)
    requires
        arms_upto(m, arms, n, states, symbols) is Ok,
    ensures
        arms_upto(m, arms, n, states, symbols)->Ok_0.bytes.len() >= m.bytes.len(),
    decreases n,
{
    if n > 0 {
        lemma_arms_len(m, arms, n - 1, states, symbols);
        lemma_arm_len(
            arms_upto(m, arms, n - 1, states, symbols)->Ok_0,
            arms[n - 1],
            states,
            symbols,
            n == arms.len(),
        );
    }
}

/// The declarations of a program keep the layout.
pub proof fn lemma_states_ok(unit: Seq<State>, n: int)
    requires
        0 <= n <= unit.len(),
        states_upto(unit, n) is Ok,
        states_upto(unit, n)->Ok_0.bytes.len() <= usize::MAX,
    ensures
        layout_ok(states_upto(unit, n)->Ok_0, false),
        u16_at(states_upto(unit, n)->Ok_0.bytes, 0) == n,
        forall|x: int| 2 <= x < 7 ==> states_upto(unit, n)->Ok_0.bytes[x] == crate::lower::header()[x],
    decreases n,
{
    if n > 0 {
        let m1 = states_upto(unit, n - 1)->Ok_0;
        lemma_state_len(m1, unit[n - 1]);
        lemma_states_ok(unit, n - 1);
        lemma_state_ok(m1, unit[n - 1]);
    } else {
        assert(start_model().bytes.len() == 7);
    }
}

/// Skip correctness: in a compiled program, the comparison that opens an
/// arm skips, where it does not match, to the start of the next arm of the
/// same state, and there a whole instruction stands that is a pattern: a
/// comparison or a catch-all.
///
/// `k` numbers the arms that are not the last of their state, in the order
/// in which they stand in the program.
pub proof fn lemma_skips_land(unit: Seq<State>, k: int)
    requires
        program_spec(unit) is Ok,
        program_spec(unit)->Ok_0.bytes.len() <= usize::MAX,
        0 <= k < program_spec(unit)->Ok_0.skips.len(),
    ensures
        ({
            let m = program_spec(unit)->Ok_0;
            &&& skip_lands(m.bytes, m.skips[k].0, m.skips[k].1)
            &&& decode_at(m.bytes, m.skips[k].1) is Some
            &&& decode_at(m.bytes, m.skips[k].1)->0.is_pattern()
        }),
{
    let before = states_upto(unit, unit.len() as int)->Ok_0;
    let address = lookup(before.addrs, start_sig())->0;
    lemma_states_ok(unit, unit.len() as int);
    lemma_patched32(before.bytes, 2, address);
    let m = program_spec(unit)->Ok_0;
    lemma_skip_lands_same(before.bytes, m.bytes, m.skips[k].0, m.skips[k].1);
    assert(lands_on_pattern(before.bytes, before.skips[k].1));
}

/// Calls are resolved: in a compiled program, no slot waits, and the
/// address slot of every call of a named state holds the address of the
/// state with the signature that the call names, whether the call stands
/// before the declaration or after it. In a program of less than
/// `0xffff_ffff` bytes, none holds that value.
///
/// `j` numbers the calls of named states in the order in which they were
/// written.
pub proof fn lemma_slots_resolved(unit: Seq<State>, j: int)
    requires
        program_spec(unit) is Ok,
        program_spec(unit)->Ok_0.bytes.len() <= usize::MAX,
        0 <= j < program_spec(unit)->Ok_0.slots.len(),
    ensures
        ({
            let m = program_spec(unit)->Ok_0;
            &&& m.refs.len() == 0
            &&& lookup(m.addrs, m.slots[j].1) == Some(u32_at(m.bytes, m.slots[j].0))
            &&& m.bytes.len() < UNRESOLVED ==> u32_at(m.bytes, m.slots[j].0) != UNRESOLVED
        }),
{
    let before = states_upto(unit, unit.len() as int)->Ok_0;
    let address = lookup(before.addrs, start_sig())->0;
    lemma_states_ok(unit, unit.len() as int);
    lemma_patched32(before.bytes, 2, address);
    let m = program_spec(unit)->Ok_0;
    assert(settled(before, before.slots[j]));
    lemma_u32_same(before.bytes, m.bytes, m.slots[j].0);
    if m.bytes.len() < UNRESOLVED {
        lemma_lookup_small(m.addrs, m.slots[j].1);
    }
}

/// An address that is looked up is the address of a declared state.
proof fn lemma_lookup_small(addrs: Seq<(Signature, u32)>, sig: SigModel)
    requires
        forall|i: int| 0 <= i < addrs.len() ==> (#[trigger] addrs[i]).1 < UNRESOLVED,
    ensures
        lookup(addrs, sig) is Some ==> lookup(addrs, sig)->0 < UNRESOLVED,
    decreases addrs.len(),
{
    if addrs.len() > 0 {
        assert(addrs.last() == addrs[addrs.len() - 1]);
        if addrs.last().0@ != sig {
            assert forall|i: int| 0 <= i < addrs.drop_last().len() implies (
            #[trigger] addrs.drop_last()[i]).1 < UNRESOLVED by {
                assert(addrs.drop_last()[i] == addrs[i]);
            }
            lemma_lookup_small(addrs.drop_last(), sig);
        }
    }
}

/// Every declared state stands after the header and before the end of the
/// program, and the name map gives its name at its address.
pub open spec fn named(m: Model) -> bool {
    forall|i: int|
        0 <= i < m.addrs.len() ==> 7 <= (#[trigger] m.addrs[i]).1 < m.bytes.len()
            && m.names.dom().contains(m.addrs[i].1) && m.names[m.addrs[i].1]@
            == m.addrs[i].0.name@
}

/// An address that is looked up is the address under which a state with
/// that signature was declared.
pub proof fn lemma_lookup_found(addrs: Seq<(Signature, u32)>, sig: SigModel)
    requires
        lookup(addrs, sig) is Some,
    ensures
        exists|i: int|
            0 <= i < addrs.len() && (#[trigger] addrs[i]).0@ == sig && addrs[i].1 == lookup(
                addrs,
                sig,
            )->0,
    decreases addrs.len(),
{
    if addrs.len() > 0 {
        let last = addrs.len() - 1;
        assert(addrs.last() == addrs[last]);
        if addrs.last().0@ != sig {
            lemma_lookup_found(addrs.drop_last(), sig);
            let i = choose|i: int|
                0 <= i < addrs.drop_last().len() && (#[trigger] addrs.drop_last()[i]).0@ == sig
                    && addrs.drop_last()[i].1 == lookup(addrs.drop_last(), sig)->0;
            assert(addrs[i] == addrs.drop_last()[i]);
        }
    }
}

/// Where every state has an arm and addresses fit in four bytes, the
/// declarations of a program keep every declared state named at its
/// address.
pub proof fn lemma_states_named(unit: Seq<State>, n: int)
    requires
        0 <= n <= unit.len(),
        states_upto(unit, n) is Ok,
        states_upto(unit, n)->Ok_0.bytes.len() <= u32::MAX,
        forall|i: int| 0 <= i < unit.len() ==> (#[trigger] unit[i]).arms.len() > 0,
    ensures
        named(states_upto(unit, n)->Ok_0),
    decreases n,
{
    if n > 0 {
        let m1 = states_upto(unit, n - 1)->Ok_0;
        let state = unit[n - 1];
        let head = declared(m1, state)->Ok_0;
        let after = states_upto(unit, n)->Ok_0;
        lemma_state_len(m1, state);
        lemma_states_ok(unit, n - 1);
        lemma_states_named(unit, n - 1);
        lemma_declared_resolves(m1, state, 0);
        lemma_arms_keep(
            head,
            state.arms@,
            state.arms.len() as int,
            names_of(state.state_params@),
            names_of(state.symbol_params@),
        );
        assert forall|i: int| 0 <= i < after.addrs.len() implies 7 <= (#[trigger] after.addrs[i]).1
            < after.bytes.len() && after.names.dom().contains(after.addrs[i].1)
            && after.names[after.addrs[i].1]@ == after.addrs[i].0.name@ by {
            if i < m1.addrs.len() {
                assert(after.addrs[i] == m1.addrs[i]);
            }
        }
    }
}

/// The entry of a compiled program in which every state has an arm and
/// addresses fit in four bytes: the header gives the address of `start`
/// without parameters, which lies after the header, inside the program,
/// and the name map gives `start` there.
pub proof fn lemma_entry(unit: Seq<State>)
    requires
        program_spec(unit) is Ok,
        program_spec(unit)->Ok_0.bytes.len() <= u32::MAX,
        forall|i: int| 0 <= i < unit.len() ==> (#[trigger] unit[i]).arms.len() > 0,
    ensures
        ({
            let m = program_spec(unit)->Ok_0;
            let entry = u32_at(m.bytes, 2);
            &&& lookup(m.addrs, start_sig()) == Some(entry)
            &&& 7 <= entry < m.bytes.len()
            &&& m.names.dom().contains(entry)
            &&& m.names[entry]@ == "start"@
        }),
{
    let before = states_upto(unit, unit.len() as int)->Ok_0;
    let address = lookup(before.addrs, start_sig())->0;
    lemma_header(unit);
    lemma_patched32(before.bytes, 2, address);
    lemma_states_named(unit, unit.len() as int);
    lemma_lookup_found(before.addrs, start_sig());
}

/// The header of a compiled program holds what was written into it: the
/// number of declarations, the address of `start`, and the halt state.
/// Reading the header back gives that number and that address.
pub proof fn lemma_header(unit: Seq<State>)
    requires
        program_spec(unit) is Ok,
        program_spec(unit)->Ok_0.bytes.len() <= usize::MAX,
    ensures
        ({
            let m = program_spec(unit)->Ok_0;
            &&& m.bytes.len() >= 7
            &&& u16_at(m.bytes, 0) == unit.len()
            &&& Some(u32_at(m.bytes, 2)) == lookup(m.addrs, start_sig())
            &&& m.bytes[6] == crate::bytecode::HALT
            &&& crate::dump::header_of(m.bytes) == Some((unit.len() as u16, u32_at(m.bytes, 2)))
        }),
{
    let before = states_upto(unit, unit.len() as int)->Ok_0;
    let address = lookup(before.addrs, start_sig())->0;
    lemma_states_ok(unit, unit.len() as int);
    lemma_patched32(before.bytes, 2, address);
    assert(before.bytes[6] == crate::lower::header()[6]);
}

} // verus!
