//! Queries: their structure, their grammar, and how they are answered.
pub mod alternative_laws;
pub mod ast;
pub mod bitmap;
pub mod boost;
pub mod boost_laws;
pub mod calendar;
pub mod calendar_laws;
pub mod content;
pub mod directive_laws;
pub mod executor;
pub mod filter;
pub mod filter_laws;
pub mod grammar;
pub mod grammar_laws;
pub mod index;
pub mod index_laws;
pub mod indexing;
pub mod laws;
pub mod line_laws;
pub mod lines;
pub mod listing_laws;
pub mod match_laws;
pub mod name_laws;
pub mod outside;
pub mod parse_laws;
pub mod parser;
pub mod pattern_laws;
pub mod plan;
pub mod plan_laws;
pub mod planner;
pub mod rank_laws;
pub mod ranking;
pub mod regex_laws;
pub mod regex_plan;
pub mod result_laws;
pub mod scan_laws;
pub mod search;
pub mod shape;
pub mod size_laws;
pub mod tree_laws;
pub mod validate;
pub mod wand;
pub mod word_laws;
