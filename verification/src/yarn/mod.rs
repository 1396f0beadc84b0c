//! Yarn classic lockfiles (`yarn.lock`, version 1).
//!
//! The format goes line by line. A block starts with a header in the first column:
//! one or more `name@range` specifiers, separated by commas and ended by a colon.
//! Its fields are indented by two spaces, and the entries of a nested section such
//! as `dependencies:` by four.
//!
//! ```text
//! # comment
//! "@scope/pkg@^1.0.0", "@scope/pkg@^1.1.0":
//!   version "1.2.3"
//!   integrity sha512-...
//!   dependencies:
//!     other-pkg "^2.0.0"
//! ```
//!
//! The file does not say which packages a project depends on directly, so reading
//! it takes the project's `package.json` as well. The YAML format of later
//! versions, which has a `__metadata:` header, is rejected.

pub mod lines;
pub mod plain;
pub mod read;
pub mod read_laws;
pub mod rewriting;
pub mod round_trip;
pub mod token_laws;
pub mod tokens;
pub mod write;
pub mod write_laws;
