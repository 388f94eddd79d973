//! Startup configuration: backend specifications of the form
//! `address=Name`, and the balancer's command-line options.

use vstd::prelude::*;
use vstd::string::{StrSliceExecFns, StringExecFns};
use crate::strutil::{find_char, first_where, spec_trim, trim_str};

verus! {

/// One configured backend: its address (also the upstream URL prefix) and
/// a human-readable name.
#[derive(Debug, Clone)]
pub struct ServerConfig {
    pub address: String,
    pub name: String,
}

impl ServerConfig {
    /// Parses `address=Name`, trimming whitespace around both parts. The
    /// name may itself contain `=`; only the first one separates.
    pub fn parse(s: &str) -> (r: Result<ServerConfig, String>)
        ensures
            match r {
                Ok(cfg) => {
                    let p = first_where(s@, |x: char| x == '=');
                    &&& 0 <= p < s@.len()
                    &&& s@[p] == '='
                    &&& cfg.address@ == spec_trim(s@.subrange(0, p))
                    &&& cfg.name@ == spec_trim(s@.subrange(p + 1, s@.len() as int))
                },
                Err(e) => {
                    &&& (forall|j: int| 0 <= j < s@.len() ==> s@[j] != '=')
                    &&& e@ == "Invalid server format. Use ip:port=Name"@
                },
            },
    {
        match find_char(s, '=') {
            None => Err("Invalid server format. Use ip:port=Name".to_owned()),
            Some(p) => {
                let n: usize = s.unicode_len();
                let head: &str = s.substring_char(0, p);
                let tail: &str = s.substring_char(p + 1, n);
                Ok(ServerConfig { address: trim_str(head), name: trim_str(tail) })
            },
        }
    }
}

impl core::str::FromStr for ServerConfig {
    type Err = String;

    fn from_str(s: &str) -> Result<ServerConfig, String> {
        ServerConfig::parse(s)
    }
}

/// The balancer's runtime options, as read from the command line.
#[derive(Debug)]
pub struct Args {
    /// Backend specifications, `address=Name` each.
    pub servers: Vec<ServerConfig>,
    /// Optional file with one backend specification per line.
    pub server_file: Option<String>,
    /// Timeout in seconds for common requests.
    pub timeout: u32,
    /// Maximum seconds to wait for a backend's first token.
    pub timeout_ft: u32,
    /// Seconds over which a backend's early throughput is measured.
    pub time_measure: u32,
    /// Listening address.
    pub listen: String,
}

impl Default for Args {
    /// The defaults: one-second requests, ten seconds to first token, a
    /// two-second measurement window, listening on every interface.
    fn default() -> (r: Args)
        ensures
            r.servers@.len() == 0,
            r.server_file is None,
            r.timeout == 1u32,
            r.timeout_ft == 10u32,
            r.time_measure == 2u32,
            r.listen@ == "0.0.0.0:11434"@,
    {
        Args {
            servers: Vec::new(),
            server_file: None,
            timeout: 1,
            timeout_ft: 10,
            time_measure: 2,
            listen: String::from_str("0.0.0.0:11434"),
        }
    }
}

/// A configuration-time error: fatal at startup.
#[derive(Debug, Clone, PartialEq, Eq, Structural)]
pub enum ConfigError {
    /// No backend was configured.
    NoServers,
    /// Two backend specifications share one address.
    DuplicateAddress,
}

/// Whether all configured addresses are pairwise distinct.
pub open spec fn distinct_addresses(cfgs: Seq<ServerConfig>) -> bool {
    forall|i: int, j: int| 0 <= i < j < cfgs.len() ==> cfgs[i].address@ != cfgs[j].address@
}

/// Validates the configured backends: at least one, all addresses
/// distinct.
pub fn validate_servers(cfgs: &Vec<ServerConfig>) -> (r: Result<(), ConfigError>)
    ensures
        r is Ok <==> (cfgs@.len() >= 1 && distinct_addresses(cfgs@)),
        r == Err::<(), ConfigError>(ConfigError::NoServers) <==> cfgs@.len() == 0,
        r == Err::<(), ConfigError>(ConfigError::DuplicateAddress) <==> (cfgs@.len() >= 1
            && !distinct_addresses(cfgs@)),
{
    if cfgs.len() == 0 {
        return Err(ConfigError::NoServers);
    }
    let mut i: usize = 0;
    while i < cfgs.len()
        invariant
            0 <= i <= cfgs@.len(),
            forall|a: int, b: int| 0 <= a < b < cfgs@.len() && a < i ==> cfgs@[a].address@
                != cfgs@[b].address@,
        decreases cfgs@.len() - i,
    {
        let mut j: usize = i + 1;
        while j < cfgs.len()
            invariant
                0 <= i < j <= cfgs@.len(),
                forall|b: int| i < b < j ==> cfgs@[i as int].address@ != cfgs@[b].address@,
            decreases cfgs@.len() - j,
        {
            if crate::strutil::str_eq(cfgs[i].address.as_str(), cfgs[j].address.as_str()) {
                return Err(ConfigError::DuplicateAddress);
            }
            j = j + 1;
        }
        i = i + 1;
    }
    Ok(())
}

} // verus!
