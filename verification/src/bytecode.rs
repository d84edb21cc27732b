//! The instruction set shared by the compiler and the virtual machine, and
//! its encoding as bytes.
//!
//! A program is one byte buffer. Its first seven bytes are the header: the
//! number of states (two bytes), the entry address (four bytes) and one
//! `HALT` opcode, whose offset is the address of the halt state. All
//! integers of more than one byte are little-endian.

use vstd::prelude::*;

verus! {

pub const COMPARE_ARG: u8 = 0;

pub const COMPARE_VAL: u8 = 1;

pub const OTHER: u8 = 2;

pub const HALT: u8 = 3;

pub const LEFT: u8 = 4;

pub const RIGHT: u8 = 5;

pub const LEFT_N: u8 = 6;

pub const RIGHT_N: u8 = 7;

pub const WRITE_ARG: u8 = 8;

pub const WRITE_VAL: u8 = 9;

pub const WRITE_BOUND: u8 = 10;

pub const SYMBOL_ARG: u8 = 11;

pub const SYMBOL_VAL: u8 = 12;

pub const SYMBOL_BOUND: u8 = 13;

pub const TAKE_ARG: u8 = 14;

pub const CLONE_ARG: u8 = 15;

pub const FREE_ARG: u8 = 16;

pub const MAKE_STATE: u8 = 17;

pub const FINAL_STATE: u8 = 18;

pub const FINAL_ARG: u8 = 19;

/// The address of the halt state: the offset of the header's `HALT` byte.
pub const HALT_ADDRESS: u32 = 6;

/// The length of the header.
pub const HEADER_LEN: usize = 7;

/// The value that fills an address slot until the state it names is declared.
pub const UNRESOLVED: u32 = 0xffff_ffff;

/// One instruction with its immediates.
#[derive(Clone, Copy, Debug, PartialEq, Eq)]
pub enum Instr {
    /// Match if the symbol under the head equals a symbol argument; the
    /// second field is the skip to the next arm.
    CompareArg(u8, u16),
    /// Match if the symbol under the head equals a literal; the second field
    /// is the skip to the next arm.
    CompareVal(u16, u16),
    /// Match anything and bind it.
    Other,
    Halt,
    Left,
    Right,
    LeftN(u8),
    RightN(u8),
    WriteArg(u8),
    WriteVal(u16),
    WriteBound,
    SymbolArg(u8),
    SymbolVal(u16),
    SymbolBound,
    TakeArg(u8),
    CloneArg(u8),
    FreeArg(u8),
    /// Number of state arguments, address.
    MakeState(u8, u32),
    FinalState(u32),
    FinalArg(u8),
}

/// The two bytes of `v`, low byte first.
pub open spec fn le16(v: u16) -> Seq<u8> {
    seq![(v % 256) as u8, (v / 256) as u8]
}

/// The four bytes of `v`, low byte first.
pub open spec fn le32(v: u32) -> Seq<u8> {
    seq![
        (v % 256) as u8,
        (v / 256 % 256) as u8,
        (v / 65536 % 256) as u8,
        (v / 16777216) as u8,
    ]
}

/// The 16-bit integer stored at offset `i`.
pub open spec fn u16_at(bytes: Seq<u8>, i: int) -> u16 {
    (bytes[i] + 256 * bytes[i + 1]) as u16
}

/// The 32-bit integer stored at offset `i`.
pub open spec fn u32_at(bytes: Seq<u8>, i: int) -> u32 {
    (bytes[i] + 256 * bytes[i + 1] + 65536 * bytes[i + 2] + 16777216 * bytes[i + 3]) as u32
}

/// How many bytes of immediates follow the opcode `op`.
pub open spec fn operand_len(op: u8) -> int {
    if op == COMPARE_ARG {
        3
    } else if op == COMPARE_VAL {
        4
    } else if op == WRITE_VAL || op == SYMBOL_VAL {
        2
    } else if op == MAKE_STATE {
        5
    } else if op == FINAL_STATE {
        4
    } else if op == LEFT_N || op == RIGHT_N || op == WRITE_ARG || op == SYMBOL_ARG || op
        == TAKE_ARG || op == CLONE_ARG || op == FREE_ARG || op == FINAL_ARG {
        1
    } else {
        0
    }
}

/// The instruction with opcode `op` whose immediates start at offset `at`.
pub open spec fn instr_of(op: u8, bytes: Seq<u8>, at: int) -> Instr {
    if op == COMPARE_ARG {
        Instr::CompareArg(bytes[at], u16_at(bytes, at + 1))
    } else if op == COMPARE_VAL {
        Instr::CompareVal(u16_at(bytes, at), u16_at(bytes, at + 2))
    } else if op == OTHER {
        Instr::Other
    } else if op == HALT {
        Instr::Halt
    } else if op == LEFT {
        Instr::Left
    } else if op == RIGHT {
        Instr::Right
    } else if op == LEFT_N {
        Instr::LeftN(bytes[at])
    } else if op == RIGHT_N {
        Instr::RightN(bytes[at])
    } else if op == WRITE_ARG {
        Instr::WriteArg(bytes[at])
    } else if op == WRITE_VAL {
        Instr::WriteVal(u16_at(bytes, at))
    } else if op == WRITE_BOUND {
        Instr::WriteBound
    } else if op == SYMBOL_ARG {
        Instr::SymbolArg(bytes[at])
    } else if op == SYMBOL_VAL {
        Instr::SymbolVal(u16_at(bytes, at))
    } else if op == SYMBOL_BOUND {
        Instr::SymbolBound
    } else if op == TAKE_ARG {
        Instr::TakeArg(bytes[at])
    } else if op == CLONE_ARG {
        Instr::CloneArg(bytes[at])
    } else if op == FREE_ARG {
        Instr::FreeArg(bytes[at])
    } else if op == MAKE_STATE {
        Instr::MakeState(bytes[at], u32_at(bytes, at + 1))
    } else if op == FINAL_STATE {
        Instr::FinalState(u32_at(bytes, at))
    } else {
        Instr::FinalArg(bytes[at])
    }
}

/// The instruction that starts at offset `ip`, if there is one: `None` when
/// `ip` is outside the buffer, the opcode is unknown, or the immediates run
/// past the end.
pub open spec fn decode_at(bytes: Seq<u8>, ip: int) -> Option<Instr> {
    if ip < 0 || ip >= bytes.len() {
        None
    } else if bytes[ip] > FINAL_ARG || ip + 1 + operand_len(bytes[ip]) > bytes.len() {
        None
    } else {
        Some(instr_of(bytes[ip], bytes, ip + 1))
    }
}

impl Instr {
    /// The opcode.
    pub open spec fn opcode(self) -> u8 {
        match self {
            Instr::CompareArg(_, _) => COMPARE_ARG,
            Instr::CompareVal(_, _) => COMPARE_VAL,
            Instr::Other => OTHER,
            Instr::Halt => HALT,
            Instr::Left => LEFT,
            Instr::Right => RIGHT,
            Instr::LeftN(_) => LEFT_N,
            Instr::RightN(_) => RIGHT_N,
            Instr::WriteArg(_) => WRITE_ARG,
            Instr::WriteVal(_) => WRITE_VAL,
            Instr::WriteBound => WRITE_BOUND,
            Instr::SymbolArg(_) => SYMBOL_ARG,
            Instr::SymbolVal(_) => SYMBOL_VAL,
            Instr::SymbolBound => SYMBOL_BOUND,
            Instr::TakeArg(_) => TAKE_ARG,
            Instr::CloneArg(_) => CLONE_ARG,
            Instr::FreeArg(_) => FREE_ARG,
            Instr::MakeState(_, _) => MAKE_STATE,
            Instr::FinalState(_) => FINAL_STATE,
            Instr::FinalArg(_) => FINAL_ARG,
        }
    }

    /// The immediates, encoded.
    pub open spec fn operands(self) -> Seq<u8> {
        match self {
            Instr::CompareArg(a, skip) => seq![a] + le16(skip),
            Instr::CompareVal(v, skip) => le16(v) + le16(skip),
            Instr::LeftN(n) => seq![n],
            Instr::RightN(n) => seq![n],
            Instr::WriteArg(a) => seq![a],
            Instr::WriteVal(v) => le16(v),
            Instr::SymbolArg(a) => seq![a],
            Instr::SymbolVal(v) => le16(v),
            Instr::TakeArg(a) => seq![a],
            Instr::CloneArg(a) => seq![a],
            Instr::FreeArg(a) => seq![a],
            Instr::MakeState(k, address) => seq![k] + le32(address),
            Instr::FinalState(address) => le32(address),
            Instr::FinalArg(a) => seq![a],
            _ => Seq::empty(),
        }
    }

    /// The bytes of this instruction.
    pub open spec fn encoding(self) -> Seq<u8> {
        seq![self.opcode()] + self.operands()
    }

    /// The number of bytes of this instruction.
    pub open spec fn size(self) -> int {
        1 + operand_len(self.opcode())
    }

    /// Whether this instruction opens an arm.
    pub open spec fn is_pattern(self) -> bool {
        self.opcode() <= OTHER
    }

    /// Whether this instruction ends an arm.
    pub open spec fn is_terminal(self) -> bool {
        self.opcode() == FINAL_STATE || self.opcode() == FINAL_ARG
    }

    /// The number of bytes of this instruction.
    pub fn len(&self) -> (n: usize)
        ensures
            n == self.size(),
            1 <= n <= 6,
    {
        match self {
            Instr::CompareArg(_, _) => 4,
            Instr::CompareVal(_, _) => 5,
            Instr::WriteVal(_) | Instr::SymbolVal(_) => 3,
            Instr::MakeState(_, _) => 6,
            Instr::FinalState(_) => 5,
            Instr::LeftN(_) | Instr::RightN(_) | Instr::WriteArg(_) | Instr::SymbolArg(_)
            | Instr::TakeArg(_) | Instr::CloneArg(_) | Instr::FreeArg(_) | Instr::FinalArg(_) => 2,
            _ => 1,
        }
    }
}

/// The two bytes of a 16-bit integer, read back.
pub proof fn lemma_le16(bytes: Seq<u8>, at: int, v: u16)
    requires
        0 <= at,
        at + 2 <= bytes.len(),
        bytes[at] == le16(v)[0],
        bytes[at + 1] == le16(v)[1],
    ensures
        u16_at(bytes, at) == v,
{
}

/// The four bytes of a 32-bit integer, read back.
pub proof fn lemma_le32(bytes: Seq<u8>, at: int, v: u32)
    requires
        0 <= at,
        at + 4 <= bytes.len(),
        bytes[at] == le32(v)[0],
        bytes[at + 1] == le32(v)[1],
        bytes[at + 2] == le32(v)[2],
        bytes[at + 3] == le32(v)[3],
    ensures
        u32_at(bytes, at) == v,
{
}

/// What is written is what is read: the bytes of an instruction, wherever
/// they stand, decode to that instruction.
pub proof fn lemma_decode_encoding(before: Seq<u8>, instr: Instr, after: Seq<u8>)
    ensures
        decode_at(before + instr.encoding() + after, before.len() as int) == Some(instr),
        instr.encoding().len() == instr.size(),
{
    let bytes = before + instr.encoding() + after;
    let at = before.len() as int;
    let code = instr.encoding();
    assert(code.len() == instr.size());
    assert forall|k: int| 0 <= k < code.len() implies bytes[at + k] == code[k] by {}
    assert(bytes[at] == instr.opcode());
    assert(instr_of(instr.opcode(), bytes, at + 1) == instr) by {
        match instr {
            Instr::CompareArg(a, skip) => {
                assert(bytes[at + 1] == code[1]);
                assert(bytes[at + 2] == code[2]);
                assert(bytes[at + 3] == code[3]);
                lemma_le16(bytes, at + 2, skip);
            },
            Instr::CompareVal(v, skip) => {
                assert(bytes[at + 1] == code[1]);
                assert(bytes[at + 2] == code[2]);
                assert(bytes[at + 3] == code[3]);
                assert(bytes[at + 4] == code[4]);
                lemma_le16(bytes, at + 1, v);
                lemma_le16(bytes, at + 3, skip);
            },
            Instr::WriteVal(v) => {
                assert(bytes[at + 1] == code[1]);
                assert(bytes[at + 2] == code[2]);
                lemma_le16(bytes, at + 1, v);
            },
            Instr::SymbolVal(v) => {
                assert(bytes[at + 1] == code[1]);
                assert(bytes[at + 2] == code[2]);
                lemma_le16(bytes, at + 1, v);
            },
            Instr::MakeState(k, address) => {
                assert(bytes[at + 1] == code[1]);
                assert(bytes[at + 2] == code[2]);
                assert(bytes[at + 3] == code[3]);
                assert(bytes[at + 4] == code[4]);
                assert(bytes[at + 5] == code[5]);
                lemma_le32(bytes, at + 2, address);
            },
            Instr::FinalState(address) => {
                assert(bytes[at + 1] == code[1]);
                assert(bytes[at + 2] == code[2]);
                assert(bytes[at + 3] == code[3]);
                assert(bytes[at + 4] == code[4]);
                lemma_le32(bytes, at + 1, address);
            },
            Instr::LeftN(n) => {
                assert(bytes[at + 1] == code[1]);
            },
            Instr::RightN(n) => {
                assert(bytes[at + 1] == code[1]);
            },
            Instr::WriteArg(n) => {
                assert(bytes[at + 1] == code[1]);
            },
            Instr::SymbolArg(n) => {
                assert(bytes[at + 1] == code[1]);
            },
            Instr::TakeArg(n) => {
                assert(bytes[at + 1] == code[1]);
            },
            Instr::CloneArg(n) => {
                assert(bytes[at + 1] == code[1]);
            },
            Instr::FreeArg(n) => {
                assert(bytes[at + 1] == code[1]);
            },
            Instr::FinalArg(n) => {
                assert(bytes[at + 1] == code[1]);
            },
            _ => {},
        }
    }
}

/// Reads the 16-bit integer at offset `i`.
pub fn read_u16(bytes: &[u8], i: usize) -> (v: u16)
    requires
        i + 2 <= bytes.len(),
    ensures
        v == u16_at(bytes@, i as int),
{
    let lo: u16 = bytes[i] as u16;
    let hi: u16 = bytes[i + 1] as u16;
    lo + 256 * hi
}

/// Reads the 32-bit integer at offset `i`.
pub fn read_u32(bytes: &[u8], i: usize) -> (v: u32)
    requires
        i + 4 <= bytes.len(),
    ensures
        v == u32_at(bytes@, i as int),
{
    let b0: u32 = bytes[i] as u32;
    let b1: u32 = bytes[i + 1] as u32;
    let b2: u32 = bytes[i + 2] as u32;
    let b3: u32 = bytes[i + 3] as u32;
    b0 + 256 * b1 + 65536 * b2 + 16777216 * b3
}

/// The number of immediate bytes that follow the opcode `op`.
pub fn operand_count(op: u8) -> (n: usize)
    ensures
        n == operand_len(op),
        n <= 5,
{
    if op == COMPARE_ARG {
        3
    } else if op == COMPARE_VAL {
        4
    } else if op == WRITE_VAL || op == SYMBOL_VAL {
        2
    } else if op == MAKE_STATE {
        5
    } else if op == FINAL_STATE {
        4
    } else if op == LEFT_N || op == RIGHT_N || op == WRITE_ARG || op == SYMBOL_ARG || op
        == TAKE_ARG || op == CLONE_ARG || op == FREE_ARG || op == FINAL_ARG {
        1
    } else {
        0
    }
}

/// Decodes the instruction that starts at offset `ip`.
pub fn decode(bytes: &[u8], ip: usize) -> (r: Option<Instr>)
    ensures
        r == decode_at(bytes@, ip as int),
        r is Some ==> ip + r->0.size() <= bytes.len(),
{
    if ip >= bytes.len() {
        return None;
    }
    let op: u8 = bytes[ip];
    if op > FINAL_ARG {
        return None;
    }
    let n: usize = operand_count(op);
    if n > bytes.len() - ip - 1 {
        return None;
    }
    let at: usize = ip + 1;
    let instr = if op == COMPARE_ARG {
        Instr::CompareArg(bytes[at], read_u16(bytes, at + 1))
    } else if op == COMPARE_VAL {
        Instr::CompareVal(read_u16(bytes, at), read_u16(bytes, at + 2))
    } else if op == OTHER {
        Instr::Other
    } else if op == HALT {
        Instr::Halt
    } else if op == LEFT {
        Instr::Left
    } else if op == RIGHT {
        Instr::Right
    } else if op == LEFT_N {
        Instr::LeftN(bytes[at])
    } else if op == RIGHT_N {
        Instr::RightN(bytes[at])
    } else if op == WRITE_ARG {
        Instr::WriteArg(bytes[at])
    } else if op == WRITE_VAL {
        Instr::WriteVal(read_u16(bytes, at))
    } else if op == WRITE_BOUND {
        Instr::WriteBound
    } else if op == SYMBOL_ARG {
        Instr::SymbolArg(bytes[at])
    } else if op == SYMBOL_VAL {
        Instr::SymbolVal(read_u16(bytes, at))
    } else if op == SYMBOL_BOUND {
        Instr::SymbolBound
    } else if op == TAKE_ARG {
        Instr::TakeArg(bytes[at])
    } else if op == CLONE_ARG {
        Instr::CloneArg(bytes[at])
    } else if op == FREE_ARG {
        Instr::FreeArg(bytes[at])
    } else if op == MAKE_STATE {
        Instr::MakeState(bytes[at], read_u32(bytes, at + 1))
    } else if op == FINAL_STATE {
        Instr::FinalState(read_u32(bytes, at))
    } else {
        Instr::FinalArg(bytes[at])
    };
    Some(instr)
}

} // verus!
