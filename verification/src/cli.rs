//! What the command line asks for.

use vstd::prelude::*;
use crate::local::format_host_string;
use crate::local::host_string;

verus! {

/// The port of the remote shell where none is given.
pub const DEFAULT_PORT: i64 = 22;

/// The options of one run.
#[derive(Clone, Debug, PartialEq, Eq)]
pub struct Opts {
    /// Watch this directory.
    pub local_path: String,
    /// Sync to this host.
    pub host: String,
    /// Write to this directory on the remote host.
    pub host_path: String,
    /// Connect to this port on the host.
    pub port: i64,
}

impl Opts {
    /// The options for the given paths and host. A port that is not given is
    /// the default port.
    pub fn new(local_path: String, host: String, host_path: String, port: Option<i64>) -> (opts:
        Opts)
        ensures
            opts.local_path == local_path,
            opts.host == host,
            opts.host_path == host_path,
            opts.port == match port {
                Some(port) => port,
                None => DEFAULT_PORT,
            },
    {
        let port = match port {
            Some(port) => port,
            None => DEFAULT_PORT,
        };
        Opts { local_path, host, host_path, port }
    }

    /// The connection target: the host, a colon, the port in decimal.
    pub fn target(&self) -> (target: String)
        ensures
            target@ == host_string(self.host@, self.port as int),
    {
        format_host_string(self.host.as_str(), self.port)
    }
}

} // verus!
