//! Terms, annotations and statements of a language of rewrite rules, with the
//! check that every name of a statement plays one role, a canonical
//! s-expression form, structural transforms, and a parser for statements.

pub mod ast;
pub mod grammar;
pub mod parse_tools;
pub mod roundtrip;
pub mod scope;
