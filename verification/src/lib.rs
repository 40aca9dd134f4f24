//! Verified core of the QuelParti poll server: the matching of a
//! participant's answers against parliamentary groups, the screening of
//! client addresses against the configured filter lists, the grouping and
//! scoring of stored submissions for reports, and the classification of
//! the server's errors.

pub mod errors;
pub mod database;
pub mod dates;
pub mod config;
pub mod matching;
pub mod filters;
pub mod text;
pub mod reports;
pub mod stats;
pub mod global;
pub mod submit;
pub mod abuseipdb;
pub mod tweet;
pub mod tokens;
pub mod colors;
pub mod messages;
