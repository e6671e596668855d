//! The width check of the rewrite rules' target matching.
use vstd::prelude::*;

verus! {

/// Whether a match covering `target_nodes` is as wide as the pattern's `pattern_len` nodes. A
/// bounded quantifier spanning a whole side is one node whatever its bounds, so such a pattern
/// never matches anything wider than one segment.
pub fn width_matches(target_nodes: &[usize], pattern_len: usize) -> (b: bool)
    ensures
        b == (target_nodes@.len() == pattern_len),
{
    target_nodes.len() == pattern_len
}

} // verus!
