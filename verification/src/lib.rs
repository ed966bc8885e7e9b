//! Discovery of local network interface properties.
//!
//! The crate holds the logic of three independent probes:
//! a netlink address-dump driver (request construction, its byte-level
//! serialization, and the draining of the length-framed response stream up to
//! the terminal "Done" marker), a link-type classifier for the sysfs `type`
//! attribute, and a speed reader for the sysfs `speed` attribute.
//! Callers perform the socket and file reads and hand the raw bytes in.

pub mod iface;
pub mod netlink;
pub mod text;
