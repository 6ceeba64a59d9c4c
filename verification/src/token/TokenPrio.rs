//! Precedence tags: a higher tag is reduced earlier.

use vstd::prelude::*;

verus! {

pub const NONE: i8 = 0;

pub const ADD: i8 = 1;

pub const SUB: i8 = 1;

pub const MUL: i8 = 2;

pub const DIV: i8 = 2;

pub const EXP: i8 = 3;

pub const PAR: i8 = 4;

pub const MAX: i8 = 4;

} // verus!
