//! Indexed code search.
pub mod cli;
pub mod cli_laws;
pub mod order;
pub mod output;
pub mod output_laws;
pub mod path_laws;
pub mod paths;
pub mod print_laws;
pub mod query;
pub mod server;
pub mod text;
pub mod tui;
