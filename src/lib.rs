//! A small in-process publish/subscribe engine: subjects and patterns with `*`
//! and `>` wildcards, a registry of subscribers, and the fan-out of a message to
//! every subscriber whose pattern matches.
pub mod subject;
pub mod registry;
pub mod fanout;
