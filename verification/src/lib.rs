//! A small declarative configuration language with prototype-based object
//! inheritance.
//!
//! Text such as `name: 'value'` and `button: { text: 'Ok' }` declares named
//! objects; a compound object may name a prototype whose properties it
//! inherits unless it overrides them.  The crate parses such text into an
//! abstract syntax tree ([`parse::NamedObjects`]) and flattens that tree into
//! an inheritance-free value tree ([`flat::FlatObject`]), following prototype
//! chains and dotted cross-references.
//!
//! Every executable function is specified against a mathematical model: the
//! datatypes and the flattening rules live in [`model`], the grammar in
//! [`grammar`], the character-level helpers in [`text`], and the laws that
//! relate parsing and flattening in [`laws`].

pub mod text;
pub mod model;
pub mod grammar;
pub mod parse;
pub mod flat;
pub mod laws;
