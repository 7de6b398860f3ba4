//! What the operations promise, in terms of what goes in and what comes out.

pub mod commands;
pub mod complaints;
pub mod config;
pub mod editor;
pub mod flash;
pub mod framing;
pub mod glob;
pub mod header;
pub mod json;
pub mod jsonc;
pub mod numbers;
pub mod paths;
pub mod powerview;
pub mod proxy;
pub mod report;
pub mod rtt;
pub mod split;
pub mod target;
pub mod text;
pub mod values;
pub mod wire;
pub mod words;
