//! Controllers that turn resource limits into unit properties.

pub mod controller;
pub mod dbus_native;
pub mod pids;
pub mod properties;
