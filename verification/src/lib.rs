//! A small call-log library: a two-section configuration codec and the
//! form-state lifecycle of a call-log entry.
//!
//! The configuration document is UTF-8 text handled here as bytes: sections
//! are introduced by a `##` header line (`Categories`, `Projects`, `LogFile`,
//! case-insensitive), and each dash line below a recognized header contributes
//! one trimmed item to that section.

pub mod bytes;
pub mod clock;
pub mod config;
pub mod form;
