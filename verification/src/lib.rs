//! Riff: highlights changes in diffs, down to the parts of lines that changed.

pub mod text;

pub mod constants;
pub mod ansi;
pub mod terminal;
pub mod tokenizer;
pub mod token_collector;
pub mod refiner;
pub mod line_counts;
pub mod hunk_header;
pub mod hunk_header_parser;
pub mod commit_line;
pub mod commit_lines;
pub mod string_future;
pub mod cli;
pub mod line_collector;
pub mod pager;
pub mod lines_highlighter;
pub mod rename_highlighter;
pub mod plusminus_header_highlighter;
pub mod conflicts_highlighter;
pub mod plusminus_lines_highlighter;
pub mod hunk_highlighter;
