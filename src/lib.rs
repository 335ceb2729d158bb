//! A small command-line argument parser whose token classification is
//! verified: declarations name the accepted spellings and shapes of each
//! argument, and a parser classifies the raw tokens against them.

mod argument;
mod classify;
pub mod laws;
mod parser;
mod text;

pub use argument::{Argument, ArgumentType, ReceivedArgument, Shape};
pub use parser::{app, ArgParser, ArgParserBuilder, BuildOutcome};

