//! Triage for a directory of images: the decisions behind the tool, verified.
//!
//! Images are shown one at a time and moved to keep or trash by a rename. There
//! is no list of images: every search walks the source afresh. The library never
//! touches the file system. What needs it is a value that says what to do next
//! and is told what came of it, so that everything in between is verified.
//!
//! - [`config`] reads the settings, [`resolve`] resolves their directories,
//!   [`paths`] validates the names that clients send, and [`unix_path`], [`text`] and [`order`] hold what these need of paths
//!   and texts.
//! - [`walk`] finds the next image and counts the backlog; [`gallery`] lists and
//!   [`sample`] samples what was kept; [`tree`] states what all of them come to in
//!   a tree of files.
//! - [`moves`] moves files and takes moves back; [`server`] is what requests do.
//! - [`meta`] extracts prompts from images, over [`json`]; [`fixtures`] is a tree
//!   to try things on.
//! - [`laws`] states what all these operations are for.

pub mod config;
pub mod fixtures;
pub mod gallery;
pub mod json;
pub mod laws;
pub mod meta;
pub mod moves;
pub mod order;
pub mod paths;
pub mod resolve;
pub mod sample;
pub mod server;
pub mod text;
pub mod tree;
pub mod unix_path;
pub mod walk;
