//! A schema description language and validation engine for JSON-like values.
//!
//! Schemas may be self-referential: a named definition can reference itself,
//! directly or through a chain of other definitions. The resolver therefore
//! turns a declarative, reference-based schema document into a flat arena of
//! nodes linked by indices ([`resolve`]), and the validator walks a data
//! value against that graph, collecting path-qualified error strings
//! ([`validate`]). The data model lives in [`value`] and [`schema`];
//! [`assoc`] holds the insertion-ordered mappings both rest on, and [`text`]
//! renders paths and error messages. [`plugin`] holds a capability-based
//! greeter dispatch, a separate demonstration shipped with the crate.

pub mod assoc;
pub mod plugin;
pub mod resolve;
pub mod schema;
pub mod text;
pub mod validate;
pub mod value;
