//! Resolution of zram device configuration: configuration fragments are
//! merged per device and per key, and each device is then activated and
//! sized against the host's memory.
//!
//! - `locate` orders the fragments; `resolve` merges them (the `ini` crate
//!   reads each one), collects `set!` directives, and finishes the devices.
//! - `device` holds a device's settings and applies one `key = value` line;
//!   `paths`, `algorithms` and `text` parse the values.
//! - `sizing` decides whether a device is enabled and how large it is. Size
//!   expressions are evaluated in double precision by the caller, whose
//!   answers arrive as IEEE-754 bit patterns.
//! - `sysfacts` reads total memory and kernel command-line flags from text.

pub mod text;
pub mod sysfacts;
pub mod error;
pub mod paths;
pub mod algorithms;
pub mod expr;
pub mod device;
pub mod sizing;
pub mod resolve;
pub mod locate;
