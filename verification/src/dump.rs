//! The disassembler: from the bytes of a program back to its header and
//! the instructions of every arm of every state.

use vstd::prelude::*;
use vstd::string::StringExecFns;
use crate::bytecode::{
    decode, decode_at, read_u16, read_u32, u16_at, u32_at, HALT, Instr, LEFT, OTHER,
};
use crate::error::{Error, ErrorKind};

verus! {

/// The arms of one state and the address of the first.
#[derive(Debug)]
pub struct StateDump {
    pub address: u32,
    /// Each arm: its pattern, then its right-hand side to the terminal
    /// instruction.
    pub arms: Vec<Vec<Instr>>,
}

/// A disassembled program.
#[derive(Debug)]
pub struct Dump {
    /// The number of states, as the header gives it.
    pub count: u16,
    /// The entry address, as the header gives it.
    pub start: u32,
    pub states: Vec<StateDump>,
}

/// The mathematical value of a [`StateDump`].
pub struct StateDumpModel {
    pub address: u32,
    pub arms: Seq<Seq<Instr>>,
}

/// The mathematical value of a [`Dump`].
pub struct DumpModel {
    pub count: u16,
    pub start: u32,
    pub states: Seq<StateDumpModel>,
}

/// The views of a list of arms.
pub open spec fn arms_view(arms: Seq<Vec<Instr>>) -> Seq<Seq<Instr>> {
    Seq::new(arms.len(), |i: int| arms[i]@)
}

impl View for StateDump {
    type V = StateDumpModel;

    open spec fn view(&self) -> StateDumpModel {
        StateDumpModel { address: self.address, arms: arms_view(self.arms@) }
    }
}

/// The views of a list of states.
pub open spec fn states_view(states: Seq<StateDump>) -> Seq<StateDumpModel> {
    Seq::new(states.len(), |i: int| states[i]@)
}

impl View for Dump {
    type V = DumpModel;

    open spec fn view(&self) -> DumpModel {
        DumpModel { count: self.count, start: self.start, states: states_view(self.states@) }
    }
}

/// The right-hand side of an arm that starts at offset `ip`: its
/// instructions through the terminal one, and the offset after it. `None`
/// if the bytes end first or hold anything that cannot stand there.
pub open spec fn body_at(bytes: Seq<u8>, ip: int) -> Option<(Seq<Instr>, int)>
    decreases bytes.len() - ip,
{
    match decode_at(bytes, ip) {
        None => None,
        Some(instr) => if instr.opcode() < LEFT {
            None
        } else if instr.is_terminal() {
            Some((seq![instr], ip + instr.size()))
        } else {
            match body_at(bytes, ip + instr.size()) {
                None => None,
                Some((rest, next)) => Some((seq![instr] + rest, next)),
            }
        },
    }
}

/// The arm that starts at offset `ip`: its pattern and its right-hand
/// side, and the offset after it.
pub open spec fn arm_at(bytes: Seq<u8>, ip: int) -> Option<(Seq<Instr>, int)> {
    match decode_at(bytes, ip) {
        None => None,
        Some(instr) => if instr.opcode() > OTHER {
            None
        } else {
            match body_at(bytes, ip + instr.size()) {
                None => None,
                Some((rest, next)) => Some((seq![instr] + rest, next)),
            }
        },
    }
}

/// The arms of the state that starts at offset `ip`, through its
/// catch-all arm, and the offset after them.
pub open spec fn arms_at(bytes: Seq<u8>, ip: int) -> Option<(Seq<Seq<Instr>>, int)>
    decreases bytes.len() - ip,
{
    match arm_at(bytes, ip) {
        None => None,
        Some((arm, next)) => if arm[0] == Instr::Other {
            Some((seq![arm], next))
        } else if next <= ip || next > bytes.len() {
            None
        } else {
            match arms_at(bytes, next) {
                None => None,
                Some((rest, end)) => Some((seq![arm] + rest, end)),
            }
        },
    }
}

/// `count` states in a row from offset `ip`, and the offset after them.
pub open spec fn states_at(bytes: Seq<u8>, ip: int, count: int) -> Option<
    (Seq<StateDumpModel>, int),
>
    decreases count,
{
    if count <= 0 {
        Some((Seq::empty(), ip))
    } else {
        match arms_at(bytes, ip) {
            None => None,
            Some((arms, next)) => match states_at(bytes, next, count - 1) {
                None => None,
                Some((rest, end)) => Some(
                    (seq![StateDumpModel { address: ip as u32, arms }] + rest, end),
                ),
            },
        }
    }
}

/// The header of a program: the number of states and the entry address.
/// `None` if the bytes are too few or the halt state is not in its place.
pub open spec fn header_of(bytes: Seq<u8>) -> Option<(u16, u32)> {
    if bytes.len() < 7 || bytes[6] != HALT {
        None
    } else {
        Some((u16_at(bytes, 0), u32_at(bytes, 2)))
    }
}

/// The disassembly of a program: its header, and as many states as the
/// header counts, which must fill the bytes after the header exactly.
pub open spec fn dump_spec(bytes: Seq<u8>) -> Option<DumpModel> {
    match header_of(bytes) {
        None => None,
        Some((count, start)) => match states_at(bytes, 7, count as int) {
            None => None,
            Some((states, end)) => if end == bytes.len() {
                Some(DumpModel { count, start, states })
            } else {
                None
            },
        },
    }
}

/// Reads the header of a program.
pub fn read_header(bytes: &[u8]) -> (r: Option<(u16, u32)>)
    ensures
        r == header_of(bytes@),
{
    if bytes.len() < 7 || bytes[6] != HALT {
        None
    } else {
        Some((read_u16(bytes, 0), read_u32(bytes, 2)))
    }
}

/// Reads the right-hand side of an arm from offset `ip`.
pub fn read_body(bytes: &[u8], ip: usize) -> (r: Option<(Vec<Instr>, usize)>)
    ensures
        match body_at(bytes@, ip as int) {
            None => r is None,
            Some((body, next)) => r is Some && r.unwrap().0@ == body && r.unwrap().1 == next && ip
                < next <= bytes.len(),
        },
{
    let mut body: Vec<Instr> = Vec::new();
    let mut at: usize = ip;
    loop
        invariant
            ip <= at,
            at > ip || body.len() == 0,
            match body_at(bytes@, at as int) {
                None => body_at(bytes@, ip as int) is None,
                Some((rest, next)) => body_at(bytes@, ip as int) == Some((body@ + rest, next)),
            },
        decreases bytes.len() - at,
    {
        let instr = match decode(bytes, at) {
            None => {
                return None;
            },
            Some(instr) => instr,
        };
        if is_pattern_or_halt(&instr) {
            return None;
        }
        let next: usize = at + instr.len();
        let ghost before = body@;
        body.push(instr);
        if is_terminal(&instr) {
            assert(body@ =~= before + seq![instr]);
            return Some((body, next));
        }
        proof {
            match body_at(bytes@, next as int) {
                None => {},
                Some((rest, end)) => {
                    assert(body@ + rest =~= before + (seq![instr] + rest));
                },
            }
        }
        at = next;
    }
}

/// Whether an instruction cannot stand in a right-hand side.
pub fn is_pattern_or_halt(instr: &Instr) -> (r: bool)
    ensures
        r == (instr.opcode() < LEFT),
{
    match instr {
        Instr::CompareArg(_, _) | Instr::CompareVal(_, _) | Instr::Other | Instr::Halt => true,
        _ => false,
    }
}

/// Whether an instruction ends an arm.
pub fn is_terminal(instr: &Instr) -> (r: bool)
    ensures
        r == instr.is_terminal(),
{
    match instr {
        Instr::FinalState(_) | Instr::FinalArg(_) => true,
        _ => false,
    }
}

/// Reads one arm from offset `ip`, or nothing where no arm stands there.
pub fn try_read_arm(bytes: &[u8], ip: usize) -> (r: Option<(Vec<Instr>, usize)>)
    ensures
        match arm_at(bytes@, ip as int) {
            None => r is None,
            Some((arm, next)) => r is Some && r.unwrap().0@ == arm && r.unwrap().1 == next && ip < next
                <= bytes.len() && arm.len() > 0,
        },
{
    let instr = match decode(bytes, ip) {
        None => {
            return None;
        },
        Some(instr) => instr,
    };
    match instr {
        Instr::CompareArg(_, _) | Instr::CompareVal(_, _) | Instr::Other => {},
        _ => {
            return None;
        },
    }
    let mut arm: Vec<Instr> = Vec::new();
    arm.push(instr);
    match read_body(bytes, ip + instr.len()) {
        None => None,
        Some((body, next)) => {
            let mut body = body;
            let ghost rest = body@;
            arm.append(&mut body);
            assert(arm@ =~= seq![instr] + rest);
            Some((arm, next))
        },
    }
}

/// Reads the arm that stands at offset `ip`: its instructions and the
/// offset after it.
pub fn read_arm(bytes: &[u8], ip: usize) -> (r: (Vec<Instr>, usize))
    requires
        arm_at(bytes@, ip as int) is Some,
    ensures
        Some((r.0@, r.1 as int)) == arm_at(bytes@, ip as int),
        ip < r.1 <= bytes.len(),
        r.0.len() > 0,
{
    match try_read_arm(bytes, ip) {
        Some(arm) => arm,
        None => unreached(),
    }
}

/// Whether an instruction is the catch-all pattern.
pub fn is_other(instr: &Instr) -> (r: bool)
    ensures
        r == (*instr == Instr::Other),
{
    match instr {
        Instr::Other => true,
        _ => false,
    }
}

/// Reads the arms of one state from offset `ip`.
pub fn read_arms(bytes: &[u8], ip: usize) -> (r: Option<(Vec<Vec<Instr>>, usize)>)
    ensures
        match arms_at(bytes@, ip as int) {
            None => r is None,
            Some((arms, next)) => r is Some && arms_view(r.unwrap().0@) == arms && r.unwrap().1 == next
                && ip < next <= bytes.len(),
        },
{
    let mut arms: Vec<Vec<Instr>> = Vec::new();
    let mut at: usize = ip;
    loop
        invariant
            ip <= at <= bytes.len() || arms.len() == 0,
            ip <= at,
            at > ip || arms.len() == 0,
            match arms_at(bytes@, at as int) {
                None => arms_at(bytes@, ip as int) is None,
                Some((rest, next)) => arms_at(bytes@, ip as int) == Some(
                    (arms_view(arms@) + rest, next),
                ),
            },
        decreases bytes.len() - at,
    {
        let (arm, next) = match try_read_arm(bytes, at) {
            None => {
                return None;
            },
            Some(pair) => pair,
        };
        let last: bool = is_other(&arm[0]);
        let ghost before = arms_view(arms@);
        let ghost one = arm@;
        arms.push(arm);
        assert(arms_view(arms@) =~= before + seq![one]);
        if last {
            return Some((arms, next));
        }
        proof {
            match arms_at(bytes@, next as int) {
                None => {},
                Some((rest, end)) => {
                    assert(arms_view(arms@) + rest =~= before + (seq![one] + rest));
                },
            }
        }
        at = next;
    }
}

/// Disassembles a program. Fails with `InvalidBytecode` where the bytes
/// are no header followed by exactly as many states as the header counts.
pub fn try_dump(bytes: &[u8]) -> (r: Result<Dump, Error>)
    ensures
        match dump_spec(bytes@) {
            Some(d) => r is Ok && r->Ok_0@ == d,
            None => r is Err && r->Err_0.kind == ErrorKind::InvalidBytecode && r->Err_0.span
                is None,
        },
{
    let (count, start) = match read_header(bytes) {
        None => {
            return Err(invalid());
        },
        Some(header) => header,
    };
    let mut states: Vec<StateDump> = Vec::new();
    let mut at: usize = 7;
    let mut i: u16 = 0;
    while i < count
        invariant
            i <= count,
            7 <= at <= bytes.len(),
            header_of(bytes@) == Some((count, start)),
            match states_at(bytes@, at as int, count - i) {
                None => states_at(bytes@, 7, count as int) is None,
                Some((rest, end)) => states_at(bytes@, 7, count as int) == Some(
                    (states_view(states@) + rest, end),
                ),
            },
        decreases count - i,
    {
        let (arms, next) = match read_arms(bytes, at) {
            None => {
                return Err(invalid());
            },
            Some(pair) => pair,
        };
        let address: u32 = #[verifier::truncate]
        (at as u32);
        let ghost before = states_view(states@);
        let state = StateDump { address, arms };
        let ghost one = state@;
        states.push(state);
        assert(states_view(states@) =~= before + seq![one]);
        proof {
            match states_at(bytes@, next as int, count - i - 1) {
                None => {},
                Some((rest, end)) => {
                    assert(states_view(states@) + rest =~= before + (seq![one] + rest));
                },
            }
        }
        at = next;
        i += 1;
    }
    if at != bytes.len() {
        return Err(invalid());
    }
    assert(states_view(states@) + Seq::<StateDumpModel>::empty() =~= states_view(states@));
    Ok(Dump { count, start, states })
}

/// Disassembles a program: a header followed by exactly as many states as
/// the header counts.
pub fn dump(bytes: &[u8]) -> (d: Dump)
    requires
        dump_spec(bytes@) is Some,
    ensures
        Some(d@) == dump_spec(bytes@),
{
    match try_dump(bytes) {
        Ok(d) => d,
        Err(_) => unreached(),
    }
}

fn invalid() -> (e: Error)
    ensures
        e.kind == ErrorKind::InvalidBytecode,
        e.span is None,
{
    Error::new(ErrorKind::InvalidBytecode, String::from_str("invalid bytecode"), None)
}

} // verus!
