//! The graph's data model: nodes, errors, and the meaning of identifier
//! equality that every contract of this crate is stated over.

use vstd::prelude::*;
use vstd::std_specs::cmp::PartialEqSpec;

verus! {

/// One unit in the dependency graph: an identifier, the identifiers of its
/// direct dependencies (in visitation order), and a payload handed back to
/// the caller once the node is emitted.
#[derive(Debug, PartialEq)]
pub struct Node<Id, Item> where Id: Copy + Eq {
    /// identifier of this node; uniqueness is a caller contract
    pub id: Id,
    /// identifiers of the direct dependencies, visited in this order
    pub deps: Vec<Id>,
    /// payload returned to the caller in sorted order
    pub value: Item,
}

impl<Id, Item> Node<Id, Item> where Id: Copy + Eq {
    pub fn new(id: Id, deps: Vec<Id>, value: Item) -> (n: Self)
        ensures
            n.id == id,
            n.deps == deps,
            n.value == value,
    {
        Self { id, deps, value }
    }
}

/// The two ways a sort call can fail, each carrying the offending identifier.
#[derive(Debug, PartialEq)]
pub enum TopsortError<Id> {
    /// the identifier (the target itself, or a dependency of a visited node)
    /// resolves to no node of the graph
    TargetNotFound(Id),
    /// the identifier closes a dependency chain back onto a node that is
    /// still being resolved
    CyclicDependency(Id),
}

/// Identifier equality behaves as mathematical equality: the `PartialEq`
/// implementation of `Id` is total and decides exactly `a == b`.  Every
/// primitive integer, `char` and `bool` satisfies this; a caller-supplied
/// identifier type must as well for the contracts below to speak of it.
pub open spec fn ids_obey_eq<Id: PartialEq>() -> bool {
    &&& Id::obeys_eq_spec()
    &&& forall|a: Id, b: Id| (#[trigger] a.eq_spec(&b)) <==> a == b
}

} // verus!
