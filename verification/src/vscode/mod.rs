//! The debug configuration of VS Code.

pub mod installer;
pub mod jsonc;
