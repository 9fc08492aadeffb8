//! A static evaluator of ownership and borrowing rules.
//!
//! A program is seen as a sequence of operations on named bindings: creating
//! them, moving or copying their values, borrowing them, using them, and
//! leaving scopes. The evaluator decides which of those operations are
//! legal, without running anything.
//!
//! - `model`: bindings, borrows and the evaluator's state as mathematical
//!   sequences, with each operation as a function on that state.
//! - `checker`: the executable evaluator, one method per operation.
//! - `trace`: whole programs and the verdict on them, with the live range
//!   of each borrow read off the program text.
//! - `laws`: what holds of the rules in every state.
//! - `liveness`: what holds of every state that a program reaches.
//! - `words`: small functions on integers and text.

pub mod checker;
pub mod laws;
pub mod liveness;
pub mod model;
pub mod trace;
pub mod words;
