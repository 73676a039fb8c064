//! Descriptions of external data sources.

use vstd::prelude::*;

verus! {

/// A source backed by a plain file of facts, one per line.
#[derive(Clone, Debug)]
pub struct PlainFile {
    /// Where the file lies.
    pub path: String,
}

/// Supported external data sources.
#[derive(Clone, Debug)]
pub enum Source {
    /// Plain files
    PlainFile(PlainFile),
}

impl Source {
    /// The location that the source reads from.
    pub fn location(&self) -> (r: &String)
        ensures
            match self {
                Source::PlainFile(f) => r == &f.path,
            },
    {
        match self {
            Source::PlainFile(f) => &f.path,
        }
    }
}

} // verus!
