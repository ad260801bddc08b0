//! Decision core of a command sandbox broker.

pub mod broker;
pub mod broker_laws;
pub mod bubblewrap;
pub mod command;
pub mod command_laws;
pub mod command_run;
pub mod denial_collector;
pub mod denial_laws;
pub mod denial_log;
pub mod environment;
pub mod executor;
pub mod expansion;
pub mod facts;
pub mod filter_laws;
pub mod framing;
pub mod globs;
pub mod guarantees;
pub mod hard_policy;
pub mod launch_laws;
pub mod launcher;
pub mod lifecycle;
pub mod linux;
pub mod mount_laws;
pub mod mount_order;
pub mod mounts;
pub mod numbers;
pub mod order;
pub mod output;
pub mod outside;
pub mod path_laws;
pub mod paths;
pub mod pid_tracker;
pub mod plan_laws;
pub mod policy_laws;
pub mod process_laws;
pub mod profile;
pub mod profile_laws;
pub mod protocol;
pub mod readiness;
pub mod refusal_laws;
pub mod request_laws;
pub mod resolution_laws;
pub mod run_laws;
pub mod scan;
pub mod scan_bounds;
pub mod scan_laws;
pub mod search_laws;
pub mod seatbelt;
pub mod seccomp;
pub mod stream_laws;
pub mod text;
pub mod validation;
pub mod words;
