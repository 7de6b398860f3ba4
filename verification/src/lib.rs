//! A verified bridge between development environments and TRACE32 PowerView.

pub mod bytes;
pub mod cli;
pub mod config;
pub mod dap;
pub mod document;
pub mod errors;
pub mod flash;
pub mod init;
pub mod json;
pub mod laws;
pub mod paths;
pub mod powerview;
pub mod pycompat;
pub mod remote;
pub mod rtt;
pub mod rustrover;
pub mod t32config;
pub mod t32rcl;
pub mod target;
pub mod text;
pub mod vscode;
pub mod world;
