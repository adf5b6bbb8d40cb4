//! Monitors local git repositories for divergence between tracked branches
//! and their configured remote counterparts.
//!
//! The crate holds the monitoring engine itself: the configuration model and
//! its text format, the interval grammar, branch reference resolution, the
//! ahead/behind divergence computation, status rendering, the scheduler state
//! machine, and the status-message wire format. All repository access (object
//! database, network fetch, working tree) is performed by the caller, which
//! hands the engine plain values.

pub mod branch;
pub mod codec;
pub mod config;
pub mod config_text;
pub mod divergence;
pub mod error;
pub mod message;
pub mod sched;
pub mod strmap;
pub mod strutil;

pub use branch::get_oid_by_branch_name;
pub use config::Branch;
pub use config::Remote;
pub use config::Repo;
pub use config::Repomon;
pub use config_text::read_toml;
pub use config_text::write_toml;
pub use error::Error;
pub use message::Message;
