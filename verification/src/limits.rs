//! Capacities, exit codes and the undefined-symbol sentinel.

use vstd::prelude::*;

verus! {

/// Assembly completed with no errors.
pub const EXIT_OK: i32 = 0;
/// Assembly completed with one or more errors.
pub const EXIT_ERRORS: i32 = 1;
/// Memory allocation failure.
pub const EXIT_NOMEM: i32 = 2;
/// File access failure.
pub const EXIT_FILE: i32 = 3;
/// Fatal internal error: a table or source limit was exceeded.
pub const EXIT_FATAL: i32 = 4;

/// The read buffer: 511 bytes of a line are seen.
pub const LINE_SIZE: usize = 512;
/// Symbols beyond this are dropped (not fatal).
pub const MAX_SYMBOLS: usize = 15000;
/// Usable characters in a label; a longer one is truncated.
pub const MAX_LABEL: usize = 31;
/// Instruction rows a table may hold.
pub const MAX_TABLE_ROWS: usize = 1200;
/// Register-set entries a table may hold.
pub const MAX_REGSETS: usize = 32;
/// Operands one instruction may capture.
pub const MAX_ARGS: usize = 128;
/// Macros that may be defined at once.
pub const MAX_MACROS: usize = 1000;
/// Parameters of one macro.
pub const MAX_MACRO_PARAMS: usize = 10;
/// Characters of one macro parameter name.
pub const MAX_MACRO_PARAM_LEN: usize = 16;
/// Conditional nesting (31 usable).
pub const MAX_CONDITIONALS: usize = 32;
/// Include nesting.
pub const MAX_INCLUDE_DEPTH: usize = 16;
/// Characters kept of the output base name.
pub const MAX_BASENAME: usize = 79;
/// Positional file names: source, object, listing, export, symbol.
pub const MAX_FILE_ARGS: usize = 5;

/// Bytes in the memory image.
pub const IMAGE_SIZE: usize = 0x10000;

/// The value of an undefined symbol: outside the 16-bit address space so the
/// shortening rules decline to shorten on a forward reference, with its low
/// 16 bits zero.
pub const UNDEFINED: i32 = 0x20000;

} // verus!
