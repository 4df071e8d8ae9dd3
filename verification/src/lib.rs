//! Thread-policy engine for Linux and Android.
//!
//! Declarative rules say on which CPUs, with which scheduling class and with
//! which utilisation clamps the threads of a package run. This library holds
//! the decisions: parsing, matching, merging, state tracking and the plans
//! that a daemon carries out. It performs no system call itself; what the
//! kernel answered comes in as plain values, and what should happen next goes
//! out as plain values.

pub mod text;
pub mod topology;
pub mod ratio;
pub mod audit;
pub mod policy;
pub mod backend;
pub mod system_context;
pub mod decision;
pub mod event;
pub mod config;
pub mod profile;
pub mod kdl_parser;
pub mod merge;
pub mod ruleset;
pub mod warning;
pub mod tally;
pub mod tracker;
pub mod engine;
pub mod relock;
pub mod scene;
pub mod store;
pub mod proc;
pub mod observe;
pub mod capability;
pub mod caps;
pub mod debug;
pub mod i18n;
pub mod foreground;
pub mod tune;
pub mod ipc;
pub mod pending;
pub mod proc_source;
pub mod ebpf_filter;
pub mod ebpf_source;
pub mod pool;
pub mod daemon;
pub mod laws;
