//! Import rewriting, repository listing and audit-link extraction for
//! collecting Solidity contracts of audit repositories and compiling them locally.

pub mod text;
pub mod imports;
pub mod listing;
pub mod repo_files;
pub mod audits;
pub mod contracts;
