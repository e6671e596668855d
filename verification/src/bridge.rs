//! The plain-value pieces of the pattern-to-transducer bridge: the unconstrained lane, the
//! alpha-variable occurrence record, and the identity-lane padding every compiled constraint gets.
use vstd::prelude::*;

verus! {

/// A lane allowing every symbol.
pub const UNCONSTRAINED: u64 = 0xffff_ffff_ffff_ffff;

/// One alpha-variable occurrence pinned to a pattern node: variable `var` governs feature
/// `feature`, with `plus` for agreement and not for disagreement.
#[derive(Clone, Debug, PartialEq, Eq, Structural)]
pub struct VarOccur {
    /// The flat index of the governed phonological feature.
    pub feature: usize,
    /// The rule-scoped alpha variable.
    pub var: u16,
    pub plus: bool,
}

/// Pad `lanes` with unconstrained lanes up to the identity-lane index `w`, then push the membership
/// bitset `bits` there. `lanes` may be shorter than `w` where trailing unconstrained feature lanes
/// were trimmed; padding keeps that meaning.
pub fn push_id_lane(lanes: &mut Vec<u64>, w: usize, bits: u64)
    requires
        old(lanes)@.len() <= w,
        w < usize::MAX,
    ensures
        final(lanes)@ == old(lanes)@ + Seq::new((w - old(lanes)@.len()) as nat, |i: int| UNCONSTRAINED).push(bits),
{
    let ghost start = lanes@;
    while lanes.len() < w
        invariant
            start.len() <= lanes@.len() <= w,
            lanes@ == start + Seq::new((lanes@.len() - start.len()) as nat, |i: int| UNCONSTRAINED),
        decreases w - lanes@.len(),
    {
        lanes.push(UNCONSTRAINED);
        assert(Seq::new((lanes@.len() - start.len()) as nat, |i: int| UNCONSTRAINED) =~= Seq::new(
            (lanes@.len() - 1 - start.len()) as nat,
            |i: int| UNCONSTRAINED,
        ).push(UNCONSTRAINED));
    }
    lanes.push(bits);
}

} // verus!
