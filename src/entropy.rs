//! Entropy of a cell's weight domain.  The Shannon value itself is a
//! floating-point quantity measured by the caller; here is the rule that a
//! domain with no positive weight has the `ENTROPY_MAX` sentinel entropy.
use vstd::prelude::*;
use crate::select::ENTROPY_MAX;

verus! {

/// Some weight of the domain is positive.
pub open spec fn has_positive_weight<V>(weights: Seq<(V, u32)>) -> bool {
    exists|i: int| 0 <= i < weights.len() && weights[i].1 > 0
}

/// The entropy of a domain whose Shannon entropy, as an `f32` bit pattern,
/// is `measured`: the sentinel where no weight is positive.
pub open spec fn entropy_of<V>(weights: Seq<(V, u32)>, measured: u32) -> u32 {
    if has_positive_weight(weights) { measured } else { ENTROPY_MAX }
}

/// The entropy of a weight domain: `measured` where some weight is positive,
/// `ENTROPY_MAX` for an empty or all-zero domain.
pub fn entropy_key<V>(weights: &Vec<(V, u32)>, measured: u32) -> (r: u32)
    ensures
        r == entropy_of(weights@, measured),
        !has_positive_weight(weights@) ==> r == ENTROPY_MAX,
        has_positive_weight(weights@) && measured < ENTROPY_MAX ==> r < ENTROPY_MAX,
{
    let mut i: usize = 0;
    while i < weights.len()
        invariant
            i <= weights@.len(),
            forall|j: int| 0 <= j < i ==> weights@[j].1 == 0,
        decreases weights@.len() - i,
    {
        if weights[i].1 > 0 {
            return measured;
        }
        i = i + 1;
    }
    ENTROPY_MAX
}

/// The sentinel decision does not depend on the order of the domain: two
/// orderings of the same weighted variants get the same entropy.
pub proof fn lemma_entropy_order_independent<V>(a: Seq<(V, u32)>, b: Seq<(V, u32)>, measured: u32)
    requires
        a.to_multiset() == b.to_multiset(),
    ensures
        entropy_of(a, measured) == entropy_of(b, measured),
{
    broadcast use vstd::seq_lib::group_to_multiset_ensures;
    if has_positive_weight(a) {
        let i = choose|i: int| 0 <= i < a.len() && a[i].1 > 0;
        assert(a.contains(a[i]));
        assert(a.to_multiset().count(a[i]) > 0);
        assert(b.to_multiset().count(a[i]) > 0);
        let j = choose|j: int| 0 <= j < b.len() && b[j] == a[i];
        assert(b[j].1 > 0);
    }
    if has_positive_weight(b) {
        let i = choose|i: int| 0 <= i < b.len() && b[i].1 > 0;
        assert(b.contains(b[i]));
        assert(b.to_multiset().count(b[i]) > 0);
        assert(a.to_multiset().count(b[i]) > 0);
        let j = choose|j: int| 0 <= j < a.len() && a[j] == b[i];
        assert(a[j].1 > 0);
    }
}

} // verus!
