use vstd::prelude::*;

verus! {

/// The contents of one grid cell. `Unknown` is legal only in a known map and
/// stands for a cell that no observation has reached yet.
#[derive(Clone, Copy, Debug, PartialEq, Eq, Structural)]
pub enum TypeCase {
    Void,
    Base,
    Wall,
    Energy,
    Ore,
    Science,
    Explorer,
    Collector,
    Unknown,
}

/// A cell that a collector can pick up.
pub open spec fn is_resource(c: TypeCase) -> bool {
    c == TypeCase::Energy || c == TypeCase::Ore || c == TypeCase::Science
}

/// A known-map cell that the pathfinder refuses to cross: walls, and
/// territory that no agent has observed yet.
pub open spec fn blocks_path(c: TypeCase) -> bool {
    c == TypeCase::Wall || c == TypeCase::Unknown
}

/// Executable test for `is_resource`.
pub fn is_resource_cell(c: TypeCase) -> (r: bool)
    ensures
        r == is_resource(c),
{
    matches!(c, TypeCase::Energy | TypeCase::Ore | TypeCase::Science)
}

/// Executable test for `blocks_path`.
pub fn blocks_path_cell(c: TypeCase) -> (r: bool)
    ensures
        r == blocks_path(c),
{
    matches!(c, TypeCase::Wall | TypeCase::Unknown)
}

} // verus!
