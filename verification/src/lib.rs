//! Caching of secrets resolved from a secret manager: the formats of the
//! secrets definition file, the cache file and its metadata, and the rules that
//! decide when the cache must be refreshed.
pub mod cache;
pub mod config;
pub mod number;
pub mod output;
pub mod resolve;
pub mod secrets;
pub mod text;
