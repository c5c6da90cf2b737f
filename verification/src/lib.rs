//! Verified core of a command-alias manager.
//!
//! An alias binds a name to a command template or to a chain of templates
//! joined by conditional operators.  This crate holds the verified logic:
//! the parameter-substitution micro-language, the preparation of a single
//! invocation (tokenization plus argument merging), the chain execution
//! engines (sequential, parallel, and the legacy `" && "` form), and the
//! alias registry.  Process spawning, persistent storage and remote sync
//! are capabilities supplied by the (unverified) caller.

pub mod chain;
pub mod config;
pub mod credentials;
pub mod executor;
pub mod invocation;
pub mod resolver;
pub mod text;
