//! What the operations are for, stated of their results.
//!
//! Each law takes arguments and results of calls and says how they relate, in
//! terms of characters, bytes and positions. `call_ensures(f, args, r)` in a
//! `requires` clause reads: `r` is a result of `f` on `args`.

pub mod fixtures;
pub mod moving;
pub mod pages;
pub mod paths;
pub mod prompts;
pub mod requests;
pub mod settings;
pub mod texts;
pub mod walks;
