//! Rule-driven clipboard rewriting: what clipmunge decides, apart from the
//! compositor and the file system that it decides about.
//!
//! - [`selection`] holds clipboard payloads by MIME type, in the order they are
//!   advertised in.
//! - [`config`] loads a Lua config into an [`config::Engine`], which rewrites
//!   selections by the [`rules`] of the config; [`reply`] makes replacements of
//!   what their handlers return, and [`api`], [`markup`] and [`urlclean`] are
//!   what a config can use.
//! - [`clipboard`] follows the compositor's events, [`transfer`] reads and sends
//!   payloads, and [`pump`] takes turns between events and everything else.
//! - [`watch`], [`startup`] and [`notify_ready`] are for starting up and
//!   reloading.
//!
//! [`state`] keeps a log of what is done with the Lua interpreter, which contracts
//! speak of; [`interpreter`] and [`pattern`] say what is expected of it and of
//! regular expressions. Times are nanoseconds on one monotonic clock;
//! paths are Unix paths as bytes.

pub mod api;
pub mod clipboard;
pub mod config;
pub mod interpreter;
pub mod limits;
pub mod markup;
pub mod notes;
pub mod notify_ready;
pub mod paths;
pub mod pattern;
pub mod pump;
pub mod reply;
pub mod rules;
pub mod selection;
pub mod startup;
pub mod state;
pub mod text;
pub mod transfer;
pub mod urlclean;
pub mod watch;
