use crate::cluster::ClusterAlgo;
use vstd::prelude::*;

verus! {

/// The edit distance that `strsim::levenshtein` gives for `a` and `b`.
pub uninterp spec fn levenshtein_distance(a: Seq<char>, b: Seq<char>) -> usize;

/// The distance that `strsim::damerau_levenshtein` gives for `a` and `b`.
pub uninterp spec fn damerau_levenshtein_distance(a: Seq<char>, b: Seq<char>) -> usize;

/// Relies on `strsim::levenshtein`: the distance depends on the two strings alone.
#[verifier::external_body]
fn levenshtein(a: &str, b: &str) -> (r: usize)
    ensures
        r == levenshtein_distance(a@, b@),
{
    strsim::levenshtein(a, b)
}

/// Relies on `strsim::damerau_levenshtein`: the distance depends on the two
/// strings alone.
#[verifier::external_body]
fn damerau_levenshtein(a: &str, b: &str) -> (r: usize)
    ensures
        r == damerau_levenshtein_distance(a@, b@),
{
    strsim::damerau_levenshtein(a, b)
}

/// Accepts two records whose edit distance is below a threshold; the
/// Damerau variant also counts a swap of neighbours as one edit.
pub struct Levenshtein {
    pub threshold: usize,
    pub damerau: bool,
}

impl Levenshtein {
    pub fn new(threshold: usize, damerau: bool) -> (r: Levenshtein)
        ensures
            r.threshold == threshold,
            r.damerau == damerau,
    {
        Levenshtein { threshold, damerau }
    }
}

impl ClusterAlgo for Levenshtein {
    open spec fn accepts(&self, first: Seq<char>, second: Seq<char>) -> bool {
        let sim = if self.damerau {
            damerau_levenshtein_distance(first, second)
        } else {
            levenshtein_distance(first, second)
        };
        sim < self.threshold
    }

    fn accept(&self, first: &String, second: &String) -> (r: bool) {
        let sim = if self.damerau {
            damerau_levenshtein(first.as_str(), second.as_str())
        } else {
            levenshtein(first.as_str(), second.as_str())
        };
        sim < self.threshold
    }
}

} // verus!
