//! What a caller may ask for, and where the expression is then taken from.
use vstd::prelude::*;

verus! {

/// The options of one run.
pub struct Options {
    /// Input file path
    pub input: Option<String>,
    /// Output file path
    pub output: Option<String>,
    /// Expression in pieces, e.g. `1 + 2 * 3`
    pub expr: Vec<String>,
}

/// Where the text of the expression comes from.
#[derive(Clone, Copy, Debug, PartialEq, Eq, Structural)]
pub enum Source {
    /// The input file.
    File,
    /// The pieces given with the options, joined with nothing between them.
    Arguments,
    /// The standard input.
    StandardInput,
}

/// Where the result goes.
#[derive(Clone, Copy, Debug, PartialEq, Eq, Structural)]
pub enum Sink {
    /// The output file.
    File,
    /// The standard output.
    StandardOutput,
}

impl Options {
    /// An input file comes before pieces of an expression, and these before
    /// the standard input.
    pub fn source(&self) -> (r: Source)
        ensures
            r == if self.input.is_some() {
                Source::File
            } else if self.expr@.len() > 0 {
                Source::Arguments
            } else {
                Source::StandardInput
            },
    {
        if self.input.is_some() {
            Source::File
        } else if self.expr.len() > 0 {
            Source::Arguments
        } else {
            Source::StandardInput
        }
    }

    /// The result goes to the output file where one is named.
    pub fn sink(&self) -> (r: Sink)
        ensures
            r == if self.output.is_some() {
                Sink::File
            } else {
                Sink::StandardOutput
            },
    {
        if self.output.is_some() {
            Sink::File
        } else {
            Sink::StandardOutput
        }
    }
}

} // verus!
