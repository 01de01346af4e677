//! The second generation of the daemon (`xvcd-ng`): a strict six-byte command
//! prefix on the wire, a synchronous hardware interface, and single-transfer
//! backends.

pub mod backend;
pub mod backend_bitbang;
pub mod backend_mpsse;
pub mod cli;
pub mod xvc_server;
