//! The mathematical model of the depth-first visit: two mutually recursive
//! spec functions that say, for any graph, target and traversal state,
//! exactly which positions are emitted, in which order, and with which
//! result.  The executable engine is proved to follow this model step by
//! step, and the ordering laws are proved of the model itself.

use vstd::prelude::*;
use crate::graph::Node;
use crate::graph::TopsortError;
use crate::resolve::find_node;
use crate::resolve::wf_path;
use crate::resolve::lemma_path_bounded;

verus! {

/// The set of positions a vector of per-position marks declares visited.
pub open spec fn marks_set(marks: Seq<bool>) -> Set<int> {
    Set::new(|p: int| 0 <= p < marks.len() && marks[p])
}

/// Visit the node carrying `target` and, recursively, its dependencies.
/// Returns the positions emitted by this visit, in emission order, and the
/// result: `Ok` when the whole closure of `target` was emitted or had been
/// emitted before, the first error otherwise.
///
/// A node already in `visited` is passed over in success without any work;
/// an identifier already on `path` closes a cycle; otherwise the node's
/// dependencies are visited in declared order on the extended path and the
/// node itself is emitted last.
pub open spec fn visit_spec<Id: Copy + Eq, Item>(
    domain: Seq<Node<Id, Item>>,
    target: Id,
    visited: Set<int>,
    path: Seq<Id>,
) -> (Seq<int>, Result<(), TopsortError<Id>>)
    decreases domain.len() - path.len(), 0int,
        when wf_path(domain, path)
{
    match find_node(domain, target) {
        None => (Seq::empty(), Err(TopsortError::TargetNotFound(target))),
        Some(i) => {
            if visited.contains(i) {
                (Seq::empty(), Ok(()))
            } else if path.contains(target) {
                (Seq::empty(), Err(TopsortError::CyclicDependency(target)))
            } else {
                proof {
                    assert(wf_path(domain, path.push(target)));
                    lemma_path_bounded(domain, path.push(target));
                }
                let (em, res) = visit_deps_spec(
                    domain,
                    domain[i].deps@,
                    0,
                    visited,
                    path.push(target),
                );
                match res {
                    Ok(()) => (em.push(i), Ok(())),
                    Err(e) => (em, Err(e)),
                }
            }
        },
    }
}

/// Visit the dependencies `deps[k]`, `deps[k + 1]`, ... in order, each seeing
/// the positions the ones before it emitted as already visited, stopping at
/// the first error.  Returns the concatenation of what the visits emitted and
/// the first error, if any.
pub open spec fn visit_deps_spec<Id: Copy + Eq, Item>(
    domain: Seq<Node<Id, Item>>,
    deps: Seq<Id>,
    k: int,
    visited: Set<int>,
    path: Seq<Id>,
) -> (Seq<int>, Result<(), TopsortError<Id>>)
    decreases domain.len() - path.len(), deps.len() - k + 1,
{
    if k < 0 || k >= deps.len() {
        (Seq::empty(), Ok(()))
    } else {
        let (em_head, res_head) = visit_spec(domain, deps[k], visited, path);
        match res_head {
            Ok(()) => {
                let (em_tail, res_tail) = visit_deps_spec(
                    domain,
                    deps,
                    k + 1,
                    visited.union(em_head.to_set()),
                    path,
                );
                (em_head + em_tail, res_tail)
            },
            Err(e) => (em_head, Err(e)),
        }
    }
}

/// The outcome of a whole sort call: what a visit of `target` emits and
/// returns when nothing has been visited yet and no resolution is under way.
pub open spec fn sort_spec<Id: Copy + Eq, Item>(
    domain: Seq<Node<Id, Item>>,
    target: Id,
) -> (Seq<int>, Result<(), TopsortError<Id>>) {
    visit_spec(domain, target, Set::empty(), Seq::empty())
}

} // verus!
