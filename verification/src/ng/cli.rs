//! Command-line configuration of `xvcd-ng`: as the daemon's, without the
//! channel option.

use crate::cli::{arg_views, parse_cli_values, spec_cli_values, spec_parse_hex_u16, CliError, CliValues};
use vstd::prelude::*;

verus! {

/// Which engine drives the JTAG pins.
#[derive(Clone, Copy, Debug, PartialEq, Eq, Structural)]
pub enum BackendMode {
    Bitbang,
    Mpsse,
}

/// The `xvcd-ng` configuration.
#[derive(Clone, Copy, Debug)]
pub struct CliArgs {
    pub port: u16,
    pub vid: u16,
    pub pid: u16,
    pub mode: BackendMode,
}

/// The configuration for the given values, with the defaults for those left out.
pub open spec fn ng_args_from_values(v: CliValues) -> CliArgs {
    CliArgs {
        port: match v.port {
            Some(p) => p,
            None => crate::cli::DEFAULT_PORT,
        },
        vid: match v.vid {
            Some(x) => x,
            None => crate::cli::DEFAULT_VID,
        },
        pid: match v.pid {
            Some(x) => x,
            None => crate::cli::DEFAULT_PID,
        },
        mode: match v.mode {
            Some(crate::cli::BackendMode::Mpsse) => BackendMode::Mpsse,
            _ => BackendMode::Bitbang,
        },
    }
}

/// Reads a 16-bit hexadecimal field such as a USB vendor or product ID; a
/// leading `0x` is allowed.
pub fn parse_hex_u16(s: &str) -> (r: Result<u16, String>)
    ensures
        match (spec_parse_hex_u16(s@), r) {
            (Ok(a), Ok(b)) => a == b,
            (Err(a), Err(b)) => a == b@,
            _ => false,
        },
{
    crate::cli::parse_hex_u16(s)
}

impl CliArgs {
    /// Reads the configuration from a command line whose first element is the
    /// program's name.
    pub fn try_parse_from(args: &[&str]) -> (r: Result<CliArgs, CliError>)
        ensures
            match (spec_cli_values(arg_views(args@), false), r) {
                (Ok(v), Ok(a)) => a == ng_args_from_values(v),
                (Err(e), Err(e2)) => e == e2@,
                _ => false,
            },
    {
        match parse_cli_values(args, false) {
            Err(e) => Err(e),
            Ok(v) => Ok(CliArgs {
                port: match v.port {
                    Some(p) => p,
                    None => crate::cli::DEFAULT_PORT,
                },
                vid: match v.vid {
                    Some(x) => x,
                    None => crate::cli::DEFAULT_VID,
                },
                pid: match v.pid {
                    Some(x) => x,
                    None => crate::cli::DEFAULT_PID,
                },
                mode: match v.mode {
                    Some(crate::cli::BackendMode::Mpsse) => BackendMode::Mpsse,
                    _ => BackendMode::Bitbang,
                },
            }),
        }
    }
}

} // verus!
