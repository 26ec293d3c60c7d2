//! Codebase context tracking: import graphs, symbol diffs, worker attribution
//! and the text handling they rest on.

pub mod text;
pub mod rate;
pub mod table;
pub mod seqs;
pub mod graph;
pub mod paths;
pub mod pathmodel;
pub mod trails;
pub mod parser;
pub mod differ;
pub mod resolver;
pub mod links;
pub mod config;
pub mod tsconfig;
pub mod decimal;
pub mod report;
pub mod nav;
pub mod touch;
pub mod brief;
pub mod schedule;
pub mod modules;
