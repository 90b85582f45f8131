//! Verified core of a Windows junk cleaner and uninstaller.

pub mod admin;
pub mod categories;
pub mod clean;
pub mod deletion;
pub mod env;
pub mod junk;
pub mod large;
pub mod remove;
pub mod residue;
pub mod system;
pub mod text;
pub mod uninstall;
pub mod util;
