//! The configuration record the process hands to the server core at
//! startup. Parsing of the command line happens outside the library;
//! the core consumes only this plain structure.

use vstd::prelude::*;

verus! {

/// Startup options.
///
/// `addr` is the listen address in server mode and the connect
/// address in client mode. `wal` is the path of the write-ahead-log
/// file. `replica` lists the peer addresses the replicator fans
/// mutations out to; it may be empty.
#[derive(Debug, Clone)]
pub struct Args {
    pub server: bool,
    pub test: bool,
    pub verbose: bool,
    pub addr: String,
    pub wal: String,
    pub replica: Vec<String>,
}

} // verus!
