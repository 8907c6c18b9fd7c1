//! A compiler for the CSS Value Definition Syntax (VDS): parses textual
//! value grammars into grammar trees, lowers the trees into an intermediate
//! representation of named structs and enums, emits type declarations from
//! that representation, and interprets it as a recursive-descent parser over
//! CSS token streams.

pub mod decl;
pub mod grammar;
pub mod ir;
pub mod props;
pub mod registry;
pub mod runtime;
pub mod text;
pub mod tokens;
pub mod values;
pub mod vds;

pub use vds::VDS;
