//! One-way, content-addressed directory synchronizer core.
//!
//! The library reconciles a local file tree against a remote tree exposed by a
//! hosted version-control API.  Paths are compared by name and by a
//! content-addressed identifier (the git blob digest of the file bytes), and
//! the reconciliation honors a per-file "disabled" naming convention (a `-`
//! prefix on the file name) as well as a permanently excluded local subtree.

pub mod hash;
pub mod mapping;
pub mod paths;
pub mod plan;
pub mod remote;
pub mod scan;
pub mod state;
pub mod sync;
pub mod text;
