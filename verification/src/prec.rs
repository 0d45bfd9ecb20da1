//! The precedence ladder of the expression parser, lowest first.
use vstd::prelude::*;

verus! {

pub const INITIAL: u8 = 0;

pub const ASSIGNMENT: u8 = 1;

pub const CONDITIONAL: u8 = 2;

pub const LOGICAL: u8 = 3;

pub const SUM: u8 = 4;

pub const PRODUCT: u8 = 5;

pub const PREFIX: u8 = 7;

pub const CALL: u8 = 9;

pub const SUBCRIPT: u8 = 10;

} // verus!
