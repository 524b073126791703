//! The daemon that keeps indexes loaded: its messages, its rules, and how it
//! follows changes of files.
pub mod admission;
pub mod answer_laws;
pub mod cached;
pub mod change_laws;
pub mod client_windows;
pub mod control_unix;
pub mod daemon_core;
pub mod daemon_windows;
pub mod debouncer;
pub mod interval;
pub mod launcher_macos;
pub mod limit_laws;
pub mod pending;
pub mod pid;
pub mod protocol;
pub mod requests;
pub mod service_laws;
pub mod watcher;
