//! Container resource limits, expressed as typed unit properties for a
//! service manager that enforces them.

pub mod common;
pub mod systemd;
