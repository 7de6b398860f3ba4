//! The TRACE32 remote control protocol over TCP.

pub mod address;
pub mod api;
pub mod debugger;
pub mod error;
pub mod eval;
pub mod link;
pub mod symbol;
