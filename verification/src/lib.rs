//! Python-style unpacking of sequences: `a, *b, c = sequence`.
//!
//! A pattern is a list of named slots, at most one of which, the rest slot,
//! absorbs whatever the other slots leave. [`compile`] validates a slot list
//! once; [`unpack`] applies the pattern to a sequence of any length that it
//! accepts and binds each slot to one element, or the rest slot to a run of
//! them. [`let_unpack`] does both in one step.
//!
//! - [`pattern`]: slots, roles, and the pattern compiler.
//! - [`unpack`](mod@unpack): the positions that slots are bound to, the
//!   bindings, and the length policy.
//! - [`laws`]: what unpacking guarantees, proved over the models.
//! - [`token`] and [`syntax`]: the tokens and the grammar of the statement
//!   `a, *mut b, c = source`, for front ends that read it.
//! - [`tuple`] and [`split`]: tuples of one repeated value, and texts split
//!   into a known number of parts.

pub mod error;
pub mod laws;
pub mod pattern;
pub mod split;
pub mod syntax;
pub mod token;
pub mod tuple;
pub mod unpack;

pub use crate::error::UnpackError;
pub use crate::pattern::{compile, Pattern, Role, Slot, SlotSpec};
pub use crate::split::{take_parts, unpack_split};
pub use crate::syntax::{LetStatement, SyntaxError};
pub use crate::token::{classify, lex, punct_token, word_token, RawToken, Token};
pub use crate::tuple::{dynamic_tuple, tuple_text};
pub use crate::unpack::{
    let_unpack, unpack, unpack_slice, Access, Assignment, Binding, BindingResult, Bound,
};
