//! Hyperlink validation for markdown files: finding the links of a markdown
//! text, judging the answers to their requests, reading the command line and
//! tallying a run.

pub mod connection;
pub mod files;
pub mod lookup;
pub mod parser;
pub mod runner;
pub mod squire;
pub mod text;
