//! Configuration values: which venues and pairs to follow, where to serve,
//! and how to log.
use vstd::prelude::*;

verus! {

/// How much to log.
#[derive(Clone, Copy, Debug, PartialEq, Eq, Structural)]
pub enum LogLevel {
    Error,
    Warning,
    Info,
    Debug,
}

#[verifier::external_type_specification]
pub struct ExLevelFilter(log::LevelFilter);

impl LogLevel {
    /// The log crate's filter for this level.
    pub fn to_level_filter(self) -> (r: log::LevelFilter)
        ensures
            r == match self {
                LogLevel::Error => log::LevelFilter::Error,
                LogLevel::Warning => log::LevelFilter::Warn,
                LogLevel::Info => log::LevelFilter::Info,
                LogLevel::Debug => log::LevelFilter::Debug,
            },
    {
        match self {
            LogLevel::Error => log::LevelFilter::Error,
            LogLevel::Warning => log::LevelFilter::Warn,
            LogLevel::Info => log::LevelFilter::Info,
            LogLevel::Debug => log::LevelFilter::Debug,
        }
    }
}

/// Streaming is the default way to follow a pair.
pub fn default_true() -> (r: bool)
    ensures
        r,
{
    true
}

/// Seconds between polls of a REST venue, by default.
pub fn default_three() -> (r: u64)
    ensures
        r == 3,
{
    3u64
}

/// One pair to follow on a venue.
#[derive(Clone, Debug, PartialEq)]
pub struct ExchangeSetting {
    pub pair: String,
    /// Stream the venue (`true`) or poll its REST book (`false`).
    pub ws_api: bool,
    /// Seconds between REST polls.
    pub wait_secs: u64,
}

/// The settings read from the configuration file.
#[derive(Clone, Debug, PartialEq)]
pub struct InnerConfig {
    /// Venue name with the pairs to follow there.
    pub exchange_pair_map: Vec<(String, Vec<ExchangeSetting>)>,
    /// Client side: the server to connect to.
    pub server_addr: Option<String>,
    /// Server side: the address to bind.
    pub bind_addr: Option<String>,
    pub server_port: u16,
    /// Log file; `None` logs to standard output only.
    pub log_path: Option<String>,
    pub log_level: LogLevel,
}

impl Default for InnerConfig {
    fn default() -> (r: InnerConfig)
        ensures
            r.exchange_pair_map@.len() == 0,
            r.server_addr matches Some(a) && a@ == "127.0.0.1"@,
            r.bind_addr matches Some(a) && a@ == "0.0.0.0"@,
            r.server_port == 50051,
            r.log_path matches Some(p) && p@ == "./test.log"@,
            r.log_level == LogLevel::Info,
    {
        InnerConfig {
            exchange_pair_map: Vec::new(),
            server_addr: Some("127.0.0.1".to_owned()),
            bind_addr: Some("0.0.0.0".to_owned()),
            server_port: 50051,
            log_path: Some("./test.log".to_owned()),
            log_level: LogLevel::Info,
        }
    }
}

/// The program's configuration: where the file is, and what it holds.
#[derive(Clone, Debug)]
pub struct Config {
    pub config_path: String,
    pub inner: InnerConfig,
}

} // verus!
