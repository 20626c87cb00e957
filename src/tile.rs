//! A terrain domain: sand, grass, water, deep water and trees, with the rules
//! that keep water away from grass and trees on land.
use vstd::prelude::*;
use crate::variant::NodeVariants;

verus! {

/// A terrain tile.  `Unset` is the value of a cell not yet collapsed and
/// `Invalid` the value of a cell that nothing fitted.
#[derive(Clone, Copy, PartialEq, Eq, Structural, Debug, Hash)]
pub enum TileType {
    Unset,
    Invalid,
    Sand,
    Grass,
    Water,
    Tree,
    DeepWater,
}

/// How many times `t` occurs in `s`.
pub open spec fn occurrences(s: Seq<TileType>, t: TileType) -> nat
    decreases s.len(),
{
    if s.len() == 0 {
        0
    } else {
        occurrences(s.drop_last(), t) + if s.last() == t { 1nat } else { 0nat }
    }
}

/// More than this many neighbours of a crowding kind forbid a tile.
pub const CROWD_LIMIT: usize = 5;

/// Counts the occurrences of `t` in `s`.
fn count_of(s: &Vec<TileType>, t: TileType) -> (r: usize)
    ensures
        r == occurrences(s@, t),
{
    let mut n: usize = 0;
    let mut i: usize = 0;
    while i < s.len()
        invariant
            i <= s@.len(),
            n == occurrences(s@.take(i as int), t),
            n <= i,
        decreases s@.len() - i,
    {
        assert(s@.take(i as int + 1).drop_last() =~= s@.take(i as int));
        if s[i] == t {
            n = n + 1;
        }
        i = i + 1;
    }
    assert(s@.take(i as int) =~= s@);
    n
}

impl NodeVariants for TileType {
    open spec fn spec_domain() -> Seq<TileType> {
        seq![TileType::Sand, TileType::Grass, TileType::Water, TileType::DeepWater, TileType::Tree]
    }

    open spec fn spec_name(self) -> Seq<char> {
        match self {
            TileType::Sand => "Sand"@,
            TileType::Water => "Water"@,
            TileType::Grass => "Grass"@,
            TileType::DeepWater => "DeepWater"@,
            TileType::Tree => "Tree"@,
            TileType::Invalid => "Invalid"@,
            TileType::Unset => "None"@,
        }
    }

    /// Weights in tenths: sand is rare, deep water and trees a little less
    /// common than grass and water.
    open spec fn spec_weight(self) -> u32 {
        match self {
            TileType::Sand => 1,
            TileType::DeepWater => 9,
            TileType::Tree => 9,
            _ => 10,
        }
    }

    open spec fn spec_unset() -> TileType {
        TileType::Unset
    }

    open spec fn spec_invalid() -> TileType {
        TileType::Invalid
    }

    open spec fn spec_next_to(self, other: TileType) -> bool {
        match self {
            TileType::Sand => matches!(other,
                TileType::Sand | TileType::Water | TileType::Grass | TileType::Unset | TileType::Invalid),
            TileType::Grass => matches!(other,
                TileType::Tree | TileType::Grass | TileType::Sand | TileType::Unset | TileType::Invalid),
            TileType::Water => matches!(other,
                TileType::DeepWater | TileType::Water | TileType::Sand | TileType::Unset | TileType::Invalid),
            TileType::DeepWater => matches!(other,
                TileType::Water | TileType::DeepWater | TileType::Unset | TileType::Invalid),
            TileType::Tree => matches!(other,
                TileType::Tree | TileType::Grass | TileType::Unset | TileType::Invalid),
            _ => true,
        }
    }

    open spec fn spec_can_spawn(self, neighbours: Seq<TileType>) -> bool {
        match self {
            TileType::Sand => occurrences(neighbours, TileType::Grass) <= CROWD_LIMIT
                && occurrences(neighbours, TileType::Water) <= CROWD_LIMIT,
            TileType::Water => occurrences(neighbours, TileType::DeepWater) <= CROWD_LIMIT,
            TileType::Grass => occurrences(neighbours, TileType::Tree) <= CROWD_LIMIT,
            _ => true,
        }
    }

    open spec fn spec_multiplier(self, neighbours: Seq<TileType>) -> u32 {
        1
    }

    fn get_domain() -> (r: Vec<TileType>) {
        let r = vec![TileType::Sand, TileType::Grass, TileType::Water, TileType::DeepWater, TileType::Tree];
        assert(r@ =~= Self::spec_domain());
        r
    }

    fn get_name(&self) -> (r: String) {
        let r = match self {
            TileType::Sand => String::from_str("Sand"),
            TileType::Water => String::from_str("Water"),
            TileType::Grass => String::from_str("Grass"),
            TileType::DeepWater => String::from_str("DeepWater"),
            TileType::Tree => String::from_str("Tree"),
            TileType::Invalid => String::from_str("Invalid"),
            TileType::Unset => String::from_str("None"),
        };
        r
    }

    fn get_weight(&self) -> (r: u32) {
        match self {
            TileType::Sand => 1,
            TileType::DeepWater => 9,
            TileType::Tree => 9,
            _ => 10,
        }
    }

    fn get_default_type() -> (r: TileType) {
        TileType::Unset
    }

    fn get_invalid_type() -> (r: TileType) {
        TileType::Invalid
    }

    fn is_invalid(&self) -> (r: bool) {
        matches!(self, TileType::Invalid)
    }

    fn can_spawn_next_to(&self, node_type: TileType) -> (r: bool) {
        match self {
            TileType::Sand => matches!(node_type,
                TileType::Sand | TileType::Water | TileType::Grass | TileType::Unset | TileType::Invalid),
            TileType::Grass => matches!(node_type,
                TileType::Tree | TileType::Grass | TileType::Sand | TileType::Unset | TileType::Invalid),
            TileType::Water => matches!(node_type,
                TileType::DeepWater | TileType::Water | TileType::Sand | TileType::Unset | TileType::Invalid),
            TileType::DeepWater => matches!(node_type,
                TileType::Water | TileType::DeepWater | TileType::Unset | TileType::Invalid),
            TileType::Tree => matches!(node_type,
                TileType::Tree | TileType::Grass | TileType::Unset | TileType::Invalid),
            _ => true,
        }
    }

    fn can_spawn(&self, node_types: &Vec<TileType>) -> (r: bool) {
        match self {
            TileType::Sand => {
                let grass = count_of(node_types, TileType::Grass);
                let water = count_of(node_types, TileType::Water);
                !(grass > CROWD_LIMIT || water > CROWD_LIMIT)
            },
            TileType::Water => count_of(node_types, TileType::DeepWater) <= CROWD_LIMIT,
            TileType::Grass => count_of(node_types, TileType::Tree) <= CROWD_LIMIT,
            _ => true,
        }
    }

    fn get_weighting_multiplier(&self, nodes: &Vec<TileType>) -> (r: u32) {
        1
    }
}

} // verus!
