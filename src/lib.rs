//! A streaming pretty-printer for structured text.
//!
//! The printer consumes a forward-only sequence of parse events (objects,
//! arrays and scalars) and emits the value as indented text, one member or
//! element per line, keeping only a small stack of open composites.
use vstd::prelude::*;

pub mod text;
pub mod printer;
pub mod laws;

pub use text::{escape_bytes, escape_str, spaces};

pub use printer::{Event, Frame, PrettyError, Prettifier, prettify};
