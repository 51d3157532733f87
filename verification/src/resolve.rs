//! Identifier resolution: mapping an identifier to the position of the first
//! node of the graph that carries it, and the well-formedness of the chain of
//! identifiers a traversal is currently resolving.

use vstd::prelude::*;
use vstd::set_lib::lemma_int_range;
use vstd::set_lib::lemma_len_subset;
use vstd::set_lib::set_int_range;
use crate::graph::Node;
use crate::graph::TopsortError;

verus! {

/// Position of the first node of `domain` whose identifier is `target`,
/// if any carries it.  The first occurrence wins when identifiers repeat.
pub open spec fn find_node<Id: Copy + Eq, Item>(
    domain: Seq<Node<Id, Item>>,
    target: Id,
) -> Option<int>
    decreases domain.len(),
{
    if domain.len() == 0 {
        None
    } else if domain[0].id == target {
        Some(0)
    } else {
        match find_node(domain.drop_first(), target) {
            Some(i) => Some(i + 1),
            None => None,
        }
    }
}

/// Some node of `domain` carries the identifier `target`.
pub open spec fn resolvable<Id: Copy + Eq, Item>(
    domain: Seq<Node<Id, Item>>,
    target: Id,
) -> bool {
    find_node(domain, target) is Some
}

/// `find_node` returns exactly the least position carrying the identifier,
/// and `None` exactly when no position carries it.
pub proof fn lemma_find_node<Id: Copy + Eq, Item>(domain: Seq<Node<Id, Item>>, target: Id)
    ensures
        match find_node(domain, target) {
            Some(i) => {
                &&& 0 <= i < domain.len()
                &&& domain[i].id == target
                &&& forall|j: int| 0 <= j < i ==> domain[j].id != target
            },
            None => forall|j: int| 0 <= j < domain.len() ==> domain[j].id != target,
        },
    decreases domain.len(),
{
    if domain.len() == 0 {
    } else if domain[0].id == target {
    } else {
        let rest = domain.drop_first();
        lemma_find_node(rest, target);
        assert(forall|j: int| 0 < j < domain.len() ==> domain[j] == #[trigger] rest[j - 1]);
        match find_node(rest, target) {
            Some(i) => {
                assert(domain[i + 1].id == target);
                assert forall|j: int| 0 <= j < i + 1 implies domain[j].id != target by {
                    if j > 0 {
                        assert(rest[j - 1].id != target);
                    }
                }
            },
            None => {
                assert forall|j: int| 0 <= j < domain.len() implies domain[j].id != target by {
                    if j > 0 {
                        assert(rest[j - 1].id != target);
                    }
                }
            },
        }
    }
}

/// A chain of identifiers under active resolution is well formed when its
/// entries are pairwise distinct and each resolves to a node of the graph.
pub open spec fn wf_path<Id: Copy + Eq, Item>(
    domain: Seq<Node<Id, Item>>,
    path: Seq<Id>,
) -> bool {
    &&& forall|k: int, l: int| 0 <= k < l < path.len() ==> path[k] != path[l]
    &&& forall|k: int| 0 <= k < path.len() ==> resolvable(domain, #[trigger] path[k])
}

/// Distinct resolvable identifiers occupy distinct positions, so a well
/// formed chain can never be longer than the graph itself.
pub proof fn lemma_path_bounded<Id: Copy + Eq, Item>(
    domain: Seq<Node<Id, Item>>,
    path: Seq<Id>,
)
    requires
        wf_path(domain, path),
    ensures
        path.len() <= domain.len(),
{
    let positions = Seq::new(path.len(), |k: int| find_node(domain, path[k]).unwrap());
    assert forall|k: int| 0 <= k < path.len() implies 0 <= #[trigger] positions[k]
        < domain.len() && domain[positions[k]].id == path[k] by {
        lemma_find_node(domain, path[k]);
    }
    assert forall|k: int, l: int| 0 <= k < l < path.len() implies #[trigger] positions[k]
        != #[trigger] positions[l] by {
        lemma_find_node(domain, path[k]);
        lemma_find_node(domain, path[l]);
    }
    assert(positions.no_duplicates());
    positions.unique_seq_to_set();
    assert(positions.to_set().subset_of(set_int_range(0, domain.len() as int)));
    lemma_int_range(0, domain.len() as int);
    lemma_len_subset(positions.to_set(), set_int_range(0, domain.len() as int));
}

/// Linear scan for the first node carrying `target`, as the resolver does
/// no indexing; the sole validation of referential integrity.
pub fn find_index<Id: Copy + Eq, Item>(
    domain: &[Node<Id, Item>],
    target: Id,
) -> (r: Result<usize, TopsortError<Id>>)
    requires
        crate::graph::ids_obey_eq::<Id>(),
    ensures
        match r {
            Ok(i) => find_node(domain@, target) == Some(i as int),
            Err(e) => {
                &&& find_node(domain@, target) is None
                &&& e == TopsortError::<Id>::TargetNotFound(target)
            },
        },
{
    proof {
        lemma_find_node(domain@, target);
    }
    let n = domain.len();
    let mut j: usize = 0;
    while j < n
        invariant
            crate::graph::ids_obey_eq::<Id>(),
            n == domain@.len(),
            0 <= j <= n,
            forall|q: int| 0 <= q < j ==> domain@[q].id != target,
        decreases n - j,
    {
        if domain[j].id == target {
            proof {
                lemma_find_node(domain@, target);
                if let Some(i) = find_node(domain@, target) {
                    assert(domain@[j as int].id == target);
                    assert(i <= j);
                    assert(j <= i);
                }
            }
            return Ok(j);
        }
        j += 1;
    }
    Err(TopsortError::TargetNotFound(target))
}

} // verus!
