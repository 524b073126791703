//! The interactive search: what keys do, and what is shown.
pub mod app;
pub mod highlighter;
pub mod keys;
pub mod preview;
pub mod preview_laws;
pub mod screen_laws;
pub mod ui;
