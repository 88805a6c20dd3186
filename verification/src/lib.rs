//! A human-readable duration codec.
//!
//! Parses strings such as `"1h30m"` or `"500ms"` into a non-negative time
//! interval, and formats an interval back into its canonical shortest string
//! form. Units are `d`, `h`, `m`, `s`, `ms`, and must appear in strictly
//! decreasing order of magnitude. The interval also converts to and from a
//! tagged whole-millisecond interchange value.

pub mod format;
pub mod interval;
pub mod laws;
pub mod lemmas;
pub mod model;
pub mod parse;

pub use interval::ConfigValue;
pub use interval::ReadableDuration;
pub use interval::duration_to_ms;
pub use interval::duration_to_nanos;
pub use model::ParseError;
