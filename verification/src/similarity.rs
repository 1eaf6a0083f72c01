//! How alike two descriptions are.

use vstd::prelude::*;
use vstd::string::*;

verus! {

/// The least number of characters to insert, delete or replace that turns
/// `a` into `b`, as `strsim::levenshtein` counts it.
pub uninterp spec fn levenshtein_distance(a: Seq<char>, b: Seq<char>) -> nat;

/// `strsim::levenshtein`: the edit distance of two strings, counted in
/// characters.
#[verifier::external_body]
fn levenshtein(a: &str, b: &str) -> (d: usize)
    ensures
        d as nat == levenshtein_distance(a@, b@),
{
    strsim::levenshtein(a, b)
}

/// The least similarity at which two descriptions count as alike, in
/// millionths: 1_000_000 asks for equal texts, 0 accepts any two.
#[derive(Debug, Clone, Copy, PartialEq, Eq, Structural)]
pub struct SimilarityBound {
    pub millionths: u32,
}

/// The bound for recovering a code when none is set: 0.93, which lets one
/// or two edits pass in a description of usual length.
pub const DEFAULT_INFERRING_MILLIONTHS: u32 = 930_000;

/// The bound for showing a failure beside an order when none is set: 0.7.
pub const DEFAULT_ERROR_OUTPUT_MILLIONTHS: u32 = 700_000;

/// Whether two texts of the given lengths, at the given edit distance, are
/// as alike as `bound` asks: their similarity is one minus the distance
/// divided by the greater length, and one where both are empty.
pub open spec fn within_bound(distance: nat, len_a: nat, len_b: nat, bound: SimilarityBound) -> bool {
    let longest = if len_a >= len_b {
        len_a
    } else {
        len_b
    };
    if longest == 0 {
        bound.millionths <= 1_000_000
    } else {
        (longest - distance) * 1_000_000 >= bound.millionths * longest
    }
}

/// Whether two texts are as alike as `bound` asks.
pub open spec fn similar(a: Seq<char>, b: Seq<char>, bound: SimilarityBound) -> bool {
    within_bound(levenshtein_distance(a, b), a.len(), b.len(), bound)
}

impl SimilarityBound {
    /// The bound of so many millionths.
    pub fn new(millionths: u32) -> (b: SimilarityBound)
        ensures
            b.millionths == millionths,
    {
        SimilarityBound { millionths }
    }
}

/// Whether two texts of the given lengths, at the given edit distance, are
/// as alike as `bound` asks.
pub fn is_within_bound(distance: usize, len_a: usize, len_b: usize, bound: SimilarityBound) -> (b:
    bool)
    ensures
        b == within_bound(distance as nat, len_a as nat, len_b as nat, bound),
{
    let longest: usize = if len_a >= len_b {
        len_a
    } else {
        len_b
    };
    if longest == 0 {
        return bound.millionths <= 1_000_000;
    }
    assert(0 <= bound.millionths * longest <= 0xffff_ffff * 0xffff_ffff_ffff_ffff)
        by (nonlinear_arith)
        requires
            0 <= bound.millionths <= 0xffff_ffff,
            0 <= longest <= 0xffff_ffff_ffff_ffff,
    ;
    if distance > longest {
        return false;
    }
    let left: u128 = ((longest - distance) as u128) * 1_000_000;
    let right: u128 = (bound.millionths as u128) * (longest as u128);
    left >= right
}

/// Whether two texts are as alike as `bound` asks.
pub fn are_similar(a: &str, b: &str, bound: SimilarityBound) -> (r: bool)
    ensures
        r == similar(a@, b@, bound),
{
    is_within_bound(levenshtein(a, b), a.unicode_len(), b.unicode_len(), bound)
}

} // verus!
