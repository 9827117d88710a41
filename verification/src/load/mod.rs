//! The load generator: its settings, its bookkeeping and its decisions.

pub mod bench;
pub mod check;
pub mod config;
pub mod error;
pub mod fault;
pub mod http;
pub mod life;
pub mod measure;
pub mod pool;
pub mod probe;
pub mod report;
pub mod run;
pub mod seconds;
pub mod server;
pub mod wire;
