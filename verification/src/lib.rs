//! A Makefile-like build tool: the parsing, scheduling and fingerprinting rules.
pub mod cache;
pub mod cli;
pub mod collections;
pub mod executor;
pub mod expand;
pub mod fingerprint;
pub mod job;
pub mod model;
pub mod parser;
pub mod paths;
pub mod progress;
pub mod text;
