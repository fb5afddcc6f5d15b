//! An untyped, stack-based, concatenative calculus with first-class
//! quotation, late-bound names and a canonical form for values.
//!
//! The modules, leaves first:
//!
//! - `term`: symbols, expressions, values, the value stack, and the
//!   mathematical views that the contracts speak of;
//! - `store`: the definitions, the reverse index from literals to names,
//!   and the interned names;
//! - `eval`: one primitive rewrite of a stack and a continuation;
//! - `canon`: literals on the stack folded back into names;
//! - `laws`: what holds of the evaluator and the canonicalizer on every
//!   input;
//! - `display`: expressions with their names written out, and their text;
//! - `parse`, `intern`: from text to expressions of a store;
//! - `command`, `builtin`, `listing`: the commands of a session, the
//!   definitions a session starts with, the list of defined names;
//! - `non_blocking_interp`: a session worked one unit of work at a time;
//! - `interp`: a session worked until it is done or a limit is reached.

pub mod builtin;
pub mod canon;
pub mod command;
pub mod display;
pub mod eval;
pub mod intern;
pub mod interp;
pub mod laws;
pub mod listing;
pub mod non_blocking_interp;
pub mod parse;
pub mod store;
pub mod term;
