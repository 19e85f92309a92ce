use vstd::prelude::*;

pub mod fetch;
pub mod game;
pub mod line_queue;
pub mod parse;
pub mod text;

verus! {

/// A line of source text together with the package it was taken from.
#[derive(Debug)]
pub struct SrcString {
    pub string: String,
    pub source: String,
}

impl Default for SrcString {
    /// The placeholder shown while no line has arrived yet.
    fn default() -> (r: Self)
        ensures
            r.string@ == "Waiting on line ..."@,
            r.source@ == Seq::<char>::empty(),
    {
        SrcString { string: "Waiting on line ...".to_owned(), source: String::new() }
    }
}

} // verus!
