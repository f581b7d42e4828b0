//! Where a miner reads its transactions from.
use vstd::prelude::*;
use crate::types::RawTransaction;

verus! {

/// The input of a miner: a dataset file (by path) or transactions handed over directly.
pub enum DataSource {
    /// An SPMF-format dataset file.
    File(String),
    /// Transactions already parsed, in order.
    Stream(Vec<RawTransaction>),
}

impl DataSource {
    /// A file source for `path`.
    pub fn file(path: &str) -> (r: Self)
        ensures
            r matches DataSource::File(p) && p@ == path@,
    {
        DataSource::File(path.to_string())
    }

    /// The path of a file source, for the named algorithm; only file sources have one.
    pub fn expect_file(&self, _algorithm_name: &str) -> (r: &String)
        requires
            self is File,
        ensures
            self matches DataSource::File(p) && r == p,
    {
        match self {
            DataSource::File(p) => p,
            DataSource::Stream(_) => vstd::pervasive::unreached(),
        }
    }
}

} // verus!
