//! Ingestion and analysis of auditd log lines received from rsyslog agents.
//!
//! The verified core of a small SOC pipeline: framing of the TCP stream into
//! lines, tokenisation of log lines, regrouping of the lines of one auditd
//! event, the construction of structured events, and their scoring.

pub mod text;
pub mod types;
pub mod groups;
pub mod outside;
pub mod parser;
pub mod auditd;
pub mod server;
pub mod analyzer;
