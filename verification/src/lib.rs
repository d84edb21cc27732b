//! A compiler and a virtual machine for Turing-machine programs whose states
//! may take other states and tape symbols as arguments.
//!
//! A source is read by [`lex`] and [`parse`], compiled by [`compile`] into
//! the instructions of [`bytecode`], and run by [`vm`]. [`lower`] says
//! what the compiler writes; [`linear`], [`layout`], [`shape`], [`calls`]
//! and [`halting`] prove what holds of every compiled program. [`dump`] reads a program back
//! into instructions. [`tape`], with [`integer`], [`decimal`] and
//! [`digit`], shows a final tape as a number.

pub mod bytecode;
pub mod calls;
pub mod compile;
pub mod decimal;
pub mod digit;
pub mod dump;
pub mod encoder;
pub mod error;
pub mod halting;
pub mod integer;
pub mod layout;
pub mod lex;
pub mod linear;
pub mod lower;
pub mod parse;
pub mod shape;
pub mod symbols;
pub mod tape;
pub mod text;
pub mod vm;
