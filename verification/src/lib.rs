//! Verified preprocessing of PL/pgSQL function bodies.
//!
//! Reading a PL/pgSQL function body means knowing which bytes are live code and
//! which sit inside a string, a comment, or a dollar-quoted literal. Every
//! rewrite here shares one scanner that answers exactly that, so a keyword
//! inside a literal is never mistaken for a keyword.
//!
//! - [`Scanner`] classifies each byte and searches only the live parts.
//! - [`PlPgSqlPreprocessor`] rewrites a whole body into shapes a SQL parser
//!   accepts, and returns the declared variables as a [`PlPgSqlContext`].
//! - [`parse_body`] preprocesses, tokenizes, and parses a body.
//! - [`laws`] states what holds of all of them together.

pub mod body;
pub mod context;
pub mod error;
pub mod laws;
pub mod names;
pub mod offsets;
pub mod preprocessor;
pub mod scanner;
pub mod text;

pub use body::parse_body;
pub use context::{PlPgSqlContext, UuidFirstUse, VariableBinding, VariableDeclaration};
pub use error::Error;
pub use preprocessor::PlPgSqlPreprocessor;
pub use scanner::{Region, Scanner};
