//! The deployment configuration: where the shared database lives and how
//! network paths map to drive letters.

use vstd::prelude::*;
use crate::text::{chars_of, string_of};

verus! {

pub struct NetworkConfig {
    pub server_ip: String,
    pub server_port: u16,
}

pub struct DatabaseConfig {
    pub mode: String,
    pub network_path: String,
    pub windows_drive: String,
}

pub struct PathsConfig {
    pub network_base: String,
    pub windows_mapped_drive: String,
}

pub struct Config {
    pub network: NetworkConfig,
    pub database: DatabaseConfig,
    pub paths: PathsConfig,
}

fn text(s: &str) -> (r: String)
    ensures
        r@ == s@,
{
    string_of(&chars_of(s))
}

/// The studio's standard deployment: a network database on the file server.
pub open spec fn is_default_config(c: Config) -> bool {
    &&& c.network.server_ip@ == "192.168.100.9"@
    &&& c.network.server_port == 8080
    &&& c.database.mode@ == "network"@
    &&& c.database.network_path@ == "//192.168.100.9/Naboo/DB"@
    &&& c.database.windows_drive@ == "U:"@
    &&& c.paths.network_base@ == "//192.168.100.9/Naboo"@
    &&& c.paths.windows_mapped_drive@ == "U:"@
}

impl Default for Config {
    fn default() -> (r: Config)
        ensures
            is_default_config(r),
    {
        Config {
            network: NetworkConfig { server_ip: text("192.168.100.9"), server_port: 8080 },
            database: DatabaseConfig {
                mode: text("network"),
                network_path: text("//192.168.100.9/Naboo/DB"),
                windows_drive: text("U:"),
            },
            paths: PathsConfig {
                network_base: text("//192.168.100.9/Naboo"),
                windows_mapped_drive: text("U:"),
            },
        }
    }
}

/// The configuration in force: the one read from the configuration file
/// where it could be read and parsed, else the default.
pub fn get_config(loaded: Option<Config>) -> (r: Config)
    ensures
        loaded is Some ==> r == loaded.unwrap(),
        loaded is None ==> is_default_config(r),
{
    match loaded {
        Some(c) => c,
        None => Config::default(),
    }
}

} // verus!
