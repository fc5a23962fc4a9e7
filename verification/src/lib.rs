//! Scrutt: a local supply-chain firewall for Node.js projects.
//!
//! The library holds the decisions of the tool: which files an audit
//! scans, what it reports for each of them, how `.npmrc` is hardened,
//! and how results are rendered. Reading and writing the file system,
//! spawning `npm` and parsing command lines live in the program around it.

pub mod audit;
pub mod commands;
pub mod config_files;
pub mod error;
pub mod path;
pub mod pkg_json;
pub mod text;
