//! Stated assumptions attached to inferential results.
use vstd::prelude::*;

verus! {

/// The caveat attached to every power and sample-size figure.
pub fn planning_assumption_text() -> (r: &'static str)
    ensures
        r@ == "a power or sample-size figure is a probability under the stated planning assumptions, not a guarantee of the observed result"@,
{
    "a power or sample-size figure is a probability under the stated planning assumptions, not a guarantee of the observed result"
}

/// The assumptions of a stratified experiment analysis; a prospective
/// analysis adds that its additional data is hypothetical.
pub fn assumption_texts(prospective: bool) -> (r: Vec<&'static str>)
    ensures
        r.len() == if prospective {
            8usize
        } else {
            7usize
        },
        r@[0]@ == "treatment and control arms are independently assigned within each stratum"@,
        r@[1]@ == "the supplied target weights define the standardization mix and are not estimated from the data"@,
        r@[2]@ == "outcome values are complete and measured over comparable windows across arms unless the caller states otherwise"@,
        r@[3]@ == "the normal approximation is used for the sampling distribution of the standardized difference"@,
        r@[4]@ == "fixed_cost is treated as known and adds no sampling variance"@,
        r@[5]@ == "rollout_fraction scales the expected difference and its variance linearly; it is not a probabilistic guarantee"@,
        r@[6]@ == "a positive outcome rate difference is not the same as a positive contribution difference"@,
        prospective ==> r@[7]@ == "the additional data is hypothetical and the result is not an observed result"@,
{
    let mut texts: Vec<&'static str> = Vec::new();
    texts.push("treatment and control arms are independently assigned within each stratum");
    texts.push("the supplied target weights define the standardization mix and are not estimated from the data");
    texts.push("outcome values are complete and measured over comparable windows across arms unless the caller states otherwise");
    texts.push("the normal approximation is used for the sampling distribution of the standardized difference");
    texts.push("fixed_cost is treated as known and adds no sampling variance");
    texts.push("rollout_fraction scales the expected difference and its variance linearly; it is not a probabilistic guarantee");
    texts.push("a positive outcome rate difference is not the same as a positive contribution difference");
    if prospective {
        texts.push("the additional data is hypothetical and the result is not an observed result");
    }
    texts
}

} // verus!
