//! A parser library for the Conventional Commit specification.
//!
//! A commit message such as `feat(parser)!: add lookahead` is split into a
//! type, an optional scope, a breaking-change marker, a description, an
//! optional free-text body and a list of `token separator value` footers.
//! The grammar is implemented as a verified recursive-descent parser whose
//! behaviour is pinned down by a specification-level model of the grammar.

pub mod commit;
pub mod component;
pub mod error;
pub mod parser;
pub mod roundtrip;

pub use commit::Commit;
pub use commit::Footer;
pub use commit::FooterSeparator;
pub use commit::FooterToken;
pub use commit::Scope;
pub use commit::Type;
pub use commit::simple::Simple;
pub use commit::typed::Typed;
pub use error::Error;
pub use error::ErrorKind;
