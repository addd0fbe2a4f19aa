//! How a run is set up: where the initial state comes from, and the pause
//! between generations.

use vstd::prelude::*;

verus! {

/// The settings of one run.
#[derive(Debug)]
pub struct Config {
    filename: String,
    sleepmillis: u64,
}

impl Config {
    pub closed spec fn spec_filename(&self) -> Seq<char> {
        self.filename@
    }

    pub closed spec fn spec_sleepmillis(&self) -> u64 {
        self.sleepmillis
    }

    /// Settings that read `filename` (`-` for standard input) and pause
    /// `sleepmillis` milliseconds between generations.
    pub fn new(filename: String, sleepmillis: u64) -> (r: Self)
        ensures
            r.spec_filename() == filename@,
            r.spec_sleepmillis() == sleepmillis,
    {
        Self { filename, sleepmillis }
    }

    pub fn filename(&self) -> (r: &String)
        ensures
            r@ == self.spec_filename(),
    {
        &self.filename
    }

    pub fn sleepmillis(&self) -> (r: u64)
        ensures
            r == self.spec_sleepmillis(),
    {
        self.sleepmillis
    }
}

} // verus!
