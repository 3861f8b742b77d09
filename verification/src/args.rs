use vstd::prelude::*;

verus! {

/// The options of a run.
#[derive(Clone, Debug, Default)]
pub struct Args {
    /// input file name
    pub infile: String,
    /// output file name
    pub outfile: String,
    /// time limit in seconds
    pub sec: Option<usize>,
    /// time limit in minutes
    pub min: Option<usize>,
    /// time limit in hours
    pub hr: Option<usize>,
    /// move cells
    pub cell: bool,
    /// route nets
    pub net: bool,
}

} // verus!
