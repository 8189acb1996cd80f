//! The numbers of the opcodes.

use vstd::prelude::*;

verus! {

pub const AXIS: u8 = 0;

pub const LITERAL: u8 = 1;

pub const RECURSE: u8 = 2;

pub const IS_CELL: u8 = 3;

pub const INCREMENT: u8 = 4;

pub const IS_EQUAL: u8 = 5;

pub const IF: u8 = 6;

pub const COMPOSE: u8 = 7;

pub const DEFINE: u8 = 8;

pub const CALL: u8 = 9;

pub const HASH: u8 = 10;

pub const STORE_BY_HASH: u8 = 11;

pub const RETRIEVE_BY_HASH: u8 = 12;

} // verus!
