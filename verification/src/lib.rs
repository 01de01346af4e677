//! Verified core of a Xilinx Virtual Cable (XVC) daemon.

pub mod bits;
pub mod cli;
pub mod backend_bitbang;
pub mod backend_mpsse;
pub mod codec;
pub mod xvc_server;
pub mod ng;
