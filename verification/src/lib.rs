//! Machine-identifier derivation from the raw system data of Linux and Windows hosts.

pub mod diagnostics;
pub mod encoding;
pub mod errors;
pub mod linux;
pub mod smbios;
pub mod text;
pub mod windows;
