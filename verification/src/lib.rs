//! Core logic of the Aplomado network vulnerability scanner: target
//! expansion, scan policy, banner and protocol fingerprinting, CVE matching,
//! scan history diffing, topology building and report rendering.

pub mod text;
pub mod history;
pub mod types;
pub mod address_text;
pub mod topology;
pub mod sanitize;
pub mod scanner;
pub mod host;
pub mod targets;
pub mod version;
pub mod cve;
pub mod sources;
pub mod fingerprint;
pub mod probes;
pub mod export;
pub mod server;
pub mod feeds;
pub mod traceroute;
