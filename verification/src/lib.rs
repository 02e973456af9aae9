//! Parser for annotated SQL files.
//!
//! An annotated SQL file mixes SQL statements with structured comments:
//! `name:` directives that name a statement and select its variant,
//! `param:` directives that declare typed parameters, and free-form
//! documentation. The parser splits such a file into an ordered catalog of
//! statements, each with its literal text fragments and its placeholders,
//! classified as scalar binds or IN-list binds and normalized to snake case.

pub mod chars;
pub mod conv;
pub mod err;
pub mod helper;
pub mod params;
pub mod positional;
pub mod scan;
pub mod sql;
