//! Configuration of a unit, as read from its TOML file.

use vstd::prelude::*;

verus! {

/// `std::io::Error`, carried opaque in a configuration error.
#[verifier::external_type_specification]
#[verifier::external_body]
pub struct ExIoError(std::io::Error);

/// `toml::de::Error`, carried opaque in a configuration error.
#[verifier::external_type_specification]
#[verifier::external_body]
pub struct ExTomlDeError(toml::de::Error);

/// Configuration of a unit created from a TOML file.
#[derive(Debug, Clone)]
pub struct Config {
    pub cmd: String,
    pub description: Option<String>,
    pub args: Option<Vec<String>>,
    pub numprocs: Option<u8>,
    pub workingdir: Option<String>,
    pub autostart: Option<bool>,
    pub autorestart: Option<String>,
    pub exitcodes: Option<Vec<u8>>,
    pub startretries: Option<u8>,
    pub starttime: Option<u8>,
    pub stopsignal: Option<String>,
    pub stoptime: Option<u8>,
    pub stdout: Option<String>,
    pub stderr: Option<String>,
    pub env: Option<Vec<String>>,
}

/// Why a configuration could not be read.
#[derive(Debug)]
pub enum ConfigError {
    Io(std::io::Error),
    TOML(toml::de::Error),
}

/// Result of reading a configuration.
pub type ConfigResult<T> = Result<T, ConfigError>;

} // verus!
