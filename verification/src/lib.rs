//! A small Unix shell and a `cat` utility: tokenizing and parsing of command
//! lines, environment and `PATH` handling, the decisions of pipeline execution,
//! and the line transformations of `cat`, with their contracts.

pub mod text;
pub mod lexer;
pub mod commands;
pub mod parser;
pub mod config;
pub mod file;
pub mod executor;
pub mod builtin;
pub mod cat;
pub mod shell_core;
pub mod grammar;
pub mod fields;
