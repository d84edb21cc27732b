//! The low-level writer of a program: bytes, little-endian integers, and
//! slots that are reserved first and filled in later.

use vstd::prelude::*;
use crate::bytecode::{le16, le32, Instr};

verus! {

/// `bytes` with the 16-bit integer `v` stored at offset `at`, where it fits.
pub open spec fn patched16(bytes: Seq<u8>, at: int, v: u16) -> Seq<u8> {
    if 0 <= at && at + 2 <= bytes.len() {
        bytes.update(at, le16(v)[0]).update(at + 1, le16(v)[1])
    } else {
        bytes
    }
}

/// `bytes` with the 32-bit integer `v` stored at offset `at`, where it fits.
pub open spec fn patched32(bytes: Seq<u8>, at: int, v: u32) -> Seq<u8> {
    if 0 <= at && at + 4 <= bytes.len() {
        bytes.update(at, le32(v)[0]).update(at + 1, le32(v)[1]).update(at + 2, le32(v)[2]).update(
            at + 3,
            le32(v)[3],
        )
    } else {
        bytes
    }
}

/// A growing buffer of bytes.
#[derive(Debug)]
pub struct Encoder {
    pub bytes: Vec<u8>,
}

impl View for Encoder {
    type V = Seq<u8>;

    open spec fn view(&self) -> Seq<u8> {
        self.bytes@
    }
}

impl Encoder {
    /// An empty buffer.
    pub fn new() -> (e: Encoder)
        ensures
            e@ == Seq::<u8>::empty(),
    {
        Encoder { bytes: Vec::new() }
    }

    /// The offset at which the next byte will be written.
    pub fn position(&self) -> (n: usize)
        ensures
            n == self@.len(),
    {
        self.bytes.len()
    }

    pub fn emit_u8(&mut self, v: u8)
        ensures
            final(self)@ == old(self)@.push(v),
    {
        self.bytes.push(v);
    }

    pub fn emit_u16_le(&mut self, v: u16)
        ensures
            final(self)@ == old(self)@ + le16(v),
    {
        self.bytes.push((v % 256) as u8);
        self.bytes.push((v / 256) as u8);
        assert(self@ =~= old(self)@ + le16(v));
    }

    pub fn emit_u32_le(&mut self, v: u32)
        ensures
            final(self)@ == old(self)@ + le32(v),
    {
        self.bytes.push((v % 256) as u8);
        self.bytes.push((v / 256 % 256) as u8);
        self.bytes.push((v / 65536 % 256) as u8);
        self.bytes.push((v / 16777216) as u8);
        assert(self@ =~= old(self)@ + le32(v));
    }

    /// Writes a 16-bit slot to be filled in later and returns its offset.
    pub fn reserve_u16(&mut self) -> (at: usize)
        ensures
            at == old(self)@.len(),
            final(self)@ == old(self)@ + le16(u16::MAX),
    {
        let at: usize = self.bytes.len();
        self.emit_u16_le(u16::MAX);
        at
    }

    /// Writes a 32-bit slot to be filled in later and returns its offset.
    pub fn reserve_u32(&mut self) -> (at: usize)
        ensures
            at == old(self)@.len(),
            final(self)@ == old(self)@ + le32(u32::MAX),
    {
        let at: usize = self.bytes.len();
        self.emit_u32_le(u32::MAX);
        at
    }

    /// Stores `v` in the two bytes at offset `at`.
    pub fn patch_u16(&mut self, at: usize, v: u16)
        requires
            at + 2 <= old(self).bytes.len(),
        ensures
            final(self)@ == patched16(old(self)@, at as int, v),
    {
        self.bytes.set(at, (v % 256) as u8);
        self.bytes.set(at + 1, (v / 256) as u8);
    }

    /// Stores `v` in the four bytes at offset `at`.
    pub fn patch_u32(&mut self, at: usize, v: u32)
        requires
            at + 4 <= old(self).bytes.len(),
        ensures
            final(self)@ == patched32(old(self)@, at as int, v),
    {
        self.bytes.set(at, (v % 256) as u8);
        self.bytes.set(at + 1, (v / 256 % 256) as u8);
        self.bytes.set(at + 2, (v / 65536 % 256) as u8);
        self.bytes.set(at + 3, (v / 16777216) as u8);
    }

    /// Writes one instruction.
    pub fn emit(&mut self, instr: Instr)
        ensures
            final(self)@ == old(self)@ + instr.encoding(),
    {
        match instr {
            Instr::CompareArg(a, skip) => {
                self.emit_u8(crate::bytecode::COMPARE_ARG);
                self.emit_u8(a);
                self.emit_u16_le(skip);
            },
            Instr::CompareVal(v, skip) => {
                self.emit_u8(crate::bytecode::COMPARE_VAL);
                self.emit_u16_le(v);
                self.emit_u16_le(skip);
            },
            Instr::Other => self.emit_u8(crate::bytecode::OTHER),
            Instr::Halt => self.emit_u8(crate::bytecode::HALT),
            Instr::Left => self.emit_u8(crate::bytecode::LEFT),
            Instr::Right => self.emit_u8(crate::bytecode::RIGHT),
            Instr::LeftN(n) => {
                self.emit_u8(crate::bytecode::LEFT_N);
                self.emit_u8(n);
            },
            Instr::RightN(n) => {
                self.emit_u8(crate::bytecode::RIGHT_N);
                self.emit_u8(n);
            },
            Instr::WriteArg(a) => {
                self.emit_u8(crate::bytecode::WRITE_ARG);
                self.emit_u8(a);
            },
            Instr::WriteVal(v) => {
                self.emit_u8(crate::bytecode::WRITE_VAL);
                self.emit_u16_le(v);
            },
            Instr::WriteBound => self.emit_u8(crate::bytecode::WRITE_BOUND),
            Instr::SymbolArg(a) => {
                self.emit_u8(crate::bytecode::SYMBOL_ARG);
                self.emit_u8(a);
            },
            Instr::SymbolVal(v) => {
                self.emit_u8(crate::bytecode::SYMBOL_VAL);
                self.emit_u16_le(v);
            },
            Instr::SymbolBound => self.emit_u8(crate::bytecode::SYMBOL_BOUND),
            Instr::TakeArg(a) => {
                self.emit_u8(crate::bytecode::TAKE_ARG);
                self.emit_u8(a);
            },
            Instr::CloneArg(a) => {
                self.emit_u8(crate::bytecode::CLONE_ARG);
                self.emit_u8(a);
            },
            Instr::FreeArg(a) => {
                self.emit_u8(crate::bytecode::FREE_ARG);
                self.emit_u8(a);
            },
            Instr::MakeState(k, address) => {
                self.emit_u8(crate::bytecode::MAKE_STATE);
                self.emit_u8(k);
                self.emit_u32_le(address);
            },
            Instr::FinalState(address) => {
                self.emit_u8(crate::bytecode::FINAL_STATE);
                self.emit_u32_le(address);
            },
            Instr::FinalArg(a) => {
                self.emit_u8(crate::bytecode::FINAL_ARG);
                self.emit_u8(a);
            },
        }
        assert(self@ =~= old(self)@ + instr.encoding());
    }
}

} // verus!
