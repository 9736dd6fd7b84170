//! Command-line front end: program identity, argument helpers, operation
//! modes, alias detection from the program name, and the argument parser.
//! Printing and the process environment are left to the binary.

pub mod constants;
pub mod help;
pub mod arg_utils;
pub mod op_mode;
pub mod init;
pub mod parse_model;
pub mod parse_state;
pub mod args;
