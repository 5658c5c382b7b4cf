//! The engine's settings.
use vstd::prelude::*;

verus! {

/// Where the engine reads orders from and writes its log and ledger to.
#[derive(Debug, Clone)]
pub struct Config {
    pub kafka_brokers: String,
    pub wal_path: String,
    pub db_url: String,
    pub batch_size: usize,
    pub service_name: String,
}

/// Why the settings could not be read.
#[derive(Debug, Clone)]
pub enum ConfigError {
    MissingEnv(String),
}

} // verus!
