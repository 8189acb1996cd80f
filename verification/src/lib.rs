//! A tick-counted reducer for a small combinator calculus over nouns.
//!
//! A noun is a natural number (an atom) or an ordered pair of nouns (a cell).
//! The modules, leaves first: `atom` relates numbers to little-endian bytes,
//! `noun` holds the data type, `axis` selects a part of a noun by a tree
//! address, `math` adds atoms, `serialize` and `deserialize` are the byte
//! encoding, `digest` is the hash, `opcode` numbers the operations,
//! `semantics` says what reduction means, `laws` proves what holds of it,
//! and `eval` is the reducer itself.

pub mod atom;
pub mod noun;
pub mod opcode;
pub mod eval;
pub mod axis;
pub mod math;
pub mod serialize;
pub mod deserialize;
pub mod digest;
pub mod semantics;
pub mod laws;
