//! Configuration assembly: settings gathered from the process environment,
//! dotenv text, JSON / TOML / YAML documents and programmatic values are merged
//! under an explicit precedence policy and materialized into typed values.

pub mod coerce;
pub mod config;
pub mod error;
pub mod materialize;
pub mod sources;
pub mod value;
