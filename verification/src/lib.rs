//! A table-driven two-pass cross-assembler: expression evaluation, operand
//! matching against instruction tables, encoding rules, object formats and
//! listing layout, each stated and proved.

use vstd::prelude::*;

pub mod limits;
pub mod text;
pub mod fmt;
pub mod symbols;
pub mod errlog;
pub mod expr;
pub mod rules;
pub mod image;
pub mod cli;
pub mod object;
pub mod listing;
pub mod table;
pub mod table2;
pub mod matcher;
pub mod macros;
pub mod assembler;

verus! {

} // verus!
