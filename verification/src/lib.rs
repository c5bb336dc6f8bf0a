//! Workspace tooling for ZPR development: the Hermes configuration editor,
//! which adds a directory to `skills.external_dirs` by a verified text edit,
//! and the decisions and reports of the workspace commands.
//!
//! - `text`, `scan`: characters, lines, and the line scanner the editor uses.
//! - `yaml`: the parsed document as plain values, and its equality.
//! - `hermes`: reading `skills.external_dirs`, the edit, and its verification.
//! - `laws`: what holds of the edit across calls.
//! - `error`: the workspace commands' errors.
//! - `status`, `validate`, `references`, `agent`, `workspace`: the commands'
//!   decisions and the lines they report.
pub mod text;
pub mod scan;
pub mod yaml;
pub mod hermes;
pub mod laws;
pub mod error;
pub mod status;
pub mod validate;
pub mod references;
pub mod agent;
pub mod workspace;
