//! Results of autocompletion: a stored string with its prefix edit distance to the query.
use vstd::prelude::*;

verus! {

/// A stored string measured against a query by prefix edit distance.
#[derive(Debug, Clone, PartialEq, Eq)]
pub struct MeasuredPrefix {
    /// The stored string
    pub string: String,
    /// Prefix edit distance between the query and `string`
    pub prefix_distance: usize,
}

impl MeasuredPrefix {
    /// The result as a (distance, characters) pair, the form in which results are ordered.
    pub open spec fn key(&self) -> (nat, Seq<char>) {
        (self.prefix_distance as nat, self.string@)
    }
}

/// The keys of a sequence of results.
pub open spec fn measured_keys(results: Seq<MeasuredPrefix>) -> Seq<(nat, Seq<char>)> {
    results.map_values(|m: MeasuredPrefix| m.key())
}

} // verus!
