//! Harmonious colourings of small graphs.
//!
//! A harmonious colouring gives the two ends of every edge different colours,
//! and no two edges the same unordered pair of colours. [`graph`] reads graphs
//! from a text of lines; [`harmonious`] searches a graph for a harmonious
//! colouring with the fewest colours.

use vstd::prelude::*;

pub mod graph;
pub mod harmonious;

verus! {

/// What the command line asks for.
pub struct Config {
    /// The path of the file that holds the graphs.
    pub file_path: String,
}

impl Config {
    /// Reads the command line: the program's name, then the path of the input
    /// file. What follows the path is not looked at.
    pub fn build(args: Vec<String>) -> (config: Result<Config, &'static str>)
        ensures
            match config {
                Ok(c) => args@.len() >= 2 && c.file_path@ == args@[1]@,
                Err(message) => args@.len() < 2 && message@ == "Didn't get a file path"@,
            },
    {
        if args.len() < 2 {
            return Err("Didn't get a file path");
        }
        let file_path = args[1].clone();
        Ok(Config { file_path })
    }
}

} // verus!
