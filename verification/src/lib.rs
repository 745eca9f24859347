//! Picks file paths out of terminal scrollback.
//!
//! [`pipeline::run_harvest`] takes lines of terminal output and lists the paths in them that exist,
//! the latest first, as they are to be written in the present directory. The modules below it, from
//! the ground up: [`text`] works on sequences of characters, [`path`] reads and writes paths,
//! [`fs`] speaks of the disk, [`parse`] finds candidates in a line, [`prompt`] knows the lines of a
//! prompt, [`vars`] holds the environment, and [`cd`] follows and undoes changes of directory.
//! [`cli`] reads the command line.

pub mod cd;
pub mod cli;
pub mod fs;
pub mod parse;
pub mod path;
pub mod pipeline;
pub mod prompt;
pub mod text;
pub mod vars;
