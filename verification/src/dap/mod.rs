//! The Debug Adapter Protocol: framing, and the rules of the proxy.

pub mod protocol;
pub mod proxy;
