//! The variant domain: the closed set of values that a cell may take, with
//! the weights and the adjacency and context rules of each value.
use vstd::prelude::*;

verus! {

/// A value of a finite domain, with its weight and the rules that decide
/// where it may stand.  Every predicate is a pure function of its inputs.
pub trait NodeVariants: Sized + Copy {
    /// Every member of the domain, in a fixed order.
    spec fn spec_domain() -> Seq<Self>;

    /// The name used to build compatibility-cache keys.
    spec fn spec_name(self) -> Seq<char>;

    /// The base weight of this value.
    spec fn spec_weight(self) -> u32;

    /// The value of a cell that has not been collapsed.
    spec fn spec_unset() -> Self;

    /// The sentinel given to a cell that no value fits.
    spec fn spec_invalid() -> Self;

    /// Whether a cell holding `self` lets `other` be placed beside it.
    spec fn spec_next_to(self, other: Self) -> bool;

    /// Whether `self` may stand among the given resolved neighbours.
    spec fn spec_can_spawn(self, neighbours: Seq<Self>) -> bool;

    /// The factor applied to this value's weight among the given neighbours.
    spec fn spec_multiplier(self, neighbours: Seq<Self>) -> u32;

    fn get_domain() -> (r: Vec<Self>)
        ensures
            r@ == Self::spec_domain(),
    ;

    fn get_name(&self) -> (r: String)
        ensures
            r@ == self.spec_name(),
    ;

    fn get_weight(&self) -> (r: u32)
        ensures
            r == self.spec_weight(),
    ;

    fn get_default_type() -> (r: Self)
        ensures
            r == Self::spec_unset(),
    ;

    fn get_invalid_type() -> (r: Self)
        ensures
            r == Self::spec_invalid(),
    ;

    fn is_invalid(&self) -> (r: bool)
        ensures
            r == (*self == Self::spec_invalid()),
    ;

    fn can_spawn_next_to(&self, node_type: Self) -> (r: bool)
        ensures
            r == self.spec_next_to(node_type),
    ;

    fn can_spawn(&self, node_types: &Vec<Self>) -> (r: bool)
        ensures
            r == self.spec_can_spawn(node_types@),
    ;

    fn get_weighting_multiplier(&self, nodes: &Vec<Self>) -> (r: u32)
        ensures
            r == self.spec_multiplier(nodes@),
    ;
}

/// Each member of the domain paired with its base weight, in domain order.
pub fn get_domain_weights<V: NodeVariants>() -> (r: Vec<(V, u32)>)
    ensures
        r@ == domain_weights::<V>(),
{
    let domain = V::get_domain();
    let mut weights: Vec<(V, u32)> = Vec::new();
    let mut i: usize = 0;
    while i < domain.len()
        invariant
            domain@ == V::spec_domain(),
            i <= domain@.len(),
            weights@ == domain_weights::<V>().take(i as int),
        decreases domain@.len() - i,
    {
        let v = domain[i];
        let w = v.get_weight();
        weights.push((v, w));
        i = i + 1;
        assert(weights@ =~= domain_weights::<V>().take(i as int));
    }
    assert(weights@ =~= domain_weights::<V>());
    weights
}

/// The domain paired with the base weights.
pub open spec fn domain_weights<V: NodeVariants>() -> Seq<(V, u32)> {
    V::spec_domain().map_values(|v: V| (v, v.spec_weight()))
}

} // verus!
