use crate::cluster::ClusterAlgo;
use vstd::prelude::*;

verus! {

/// The optimal string alignment distance that `strsim::osa_distance` gives
/// for `a` and `b`.
pub uninterp spec fn osa_distance_of(a: Seq<char>, b: Seq<char>) -> usize;

/// Relies on `strsim::osa_distance`: the distance depends on the two strings alone.
#[verifier::external_body]
fn osa_distance(a: &str, b: &str) -> (r: usize)
    ensures
        r == osa_distance_of(a@, b@),
{
    strsim::osa_distance(a, b)
}

/// Accepts two records whose optimal string alignment distance is below a
/// threshold.
pub struct OSA {
    pub threshold: usize,
}

impl OSA {
    pub fn new(threshold: usize) -> (r: OSA)
        ensures
            r.threshold == threshold,
    {
        OSA { threshold }
    }
}

impl ClusterAlgo for OSA {
    open spec fn accepts(&self, first: Seq<char>, second: Seq<char>) -> bool {
        osa_distance_of(first, second) < self.threshold
    }

    fn accept(&self, first: &String, second: &String) -> (r: bool) {
        osa_distance(first.as_str(), second.as_str()) < self.threshold
    }
}

} // verus!
