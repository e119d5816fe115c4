//! Keeps a single aggregate text document in step with a fixed set of watched
//! source files.
//!
//! Each watched file owns one region of the document: the text between the
//! start token `<code NAME>` and the end token `</code NAME>` that follows
//! it, where `NAME` is the name of the file. Whenever a watched file is
//! modified, its content is written into its region and the rest of the
//! document is left as it is.
//!
//! This crate holds the decisions and the text handling and proves them. It
//! neither watches nor reads nor writes anything: the program around it
//! hands over what it saw and read, and stores what comes back.
//!
//! - [`search`] finds one byte sequence in another, [`splice`] exchanges a
//!   part of a text, and [`text`] relates strings to their bytes.
//! - [`marker`] builds the tokens and [`locator`] finds the region between
//!   them.
//! - [`document`] replaces and reads regions; [`laws`] states what holds of
//!   that across calls.
//! - [`path`] names a file after its path and [`watch`] holds the watch set.
//! - [`dispatch`] turns notifications into the list of files to synchronize,
//!   and [`sync`] runs one synchronization pass.
//! - [`error`] lists the failures.

pub mod dispatch;
pub mod document;
pub mod error;
pub mod laws;
pub mod locator;
pub mod marker;
pub mod path;
pub mod search;
pub mod splice;
pub mod sync;
pub mod text;
pub mod watch;
