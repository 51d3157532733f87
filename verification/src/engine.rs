//! The executable traversal engine and the two public entry points.  The
//! recursive visitor is proved to emit, mark and return exactly what the
//! model of `traversal` prescribes; the entry points run it on fresh state.

use vstd::prelude::*;
use crate::graph::Node;
use crate::graph::TopsortError;
use crate::graph::ids_obey_eq;
use crate::resolve::find_node;
use crate::resolve::find_index;
use crate::resolve::wf_path;
use crate::resolve::lemma_find_node;
use crate::resolve::lemma_path_bounded;
use crate::traversal::marks_set;
use crate::traversal::visit_spec;
use crate::traversal::visit_deps_spec;
use crate::traversal::sort_spec;
use crate::props::in_range;
use crate::props::deps_closed;
use crate::props::lemma_visit_props;
use crate::sink::Sink;
use crate::sink::ValueSink;
use vstd::seq_lib::seq_to_set_distributes_over_add;

verus! {

/// Whether `target` is one of the identifiers whose resolution is under way.
fn path_contains<Id: Copy + Eq>(path: &Vec<Id>, target: Id) -> (r: bool)
    requires
        ids_obey_eq::<Id>(),
    ensures
        r == path@.contains(target),
{
    let n = path.len();
    let mut j: usize = 0;
    while j < n
        invariant
            ids_obey_eq::<Id>(),
            n == path@.len(),
            0 <= j <= n,
            forall|q: int| 0 <= q < j ==> path@[q] != target,
        decreases n - j,
    {
        if path[j] == target {
            proof {
                assert(path@[j as int] == target);
            }
            return true;
        }
        j += 1;
    }
    false
}

/// One step of the depth-first visit: resolve `target`, pass it over if its
/// node is already visited, report a cycle if it is still being resolved,
/// and otherwise visit its dependencies in declared order, hand the node to
/// the sink, and mark it visited.  Does to the sink, the marks and the chain
/// exactly what `visit_spec` says, and returns its result.
#[verifier::loop_isolation(false)]
fn visit<Id: Copy + Eq, Item, S: Sink<Id, Item>>(
    domain: &[Node<Id, Item>],
    target: Id,
    sink: &mut S,
    visited: &mut Vec<bool>,
    current_path: &mut Vec<Id>,
) -> (r: Result<(), TopsortError<Id>>)
    requires
        ids_obey_eq::<Id>(),
        old(sink).inv(),
        old(visited)@.len() == domain@.len(),
        wf_path(domain@, old(current_path)@),
        deps_closed(domain@, marks_set(old(visited)@)),
    ensures
        final(sink).inv(),
        final(visited)@.len() == domain@.len(),
        ({
            let (em, res) = visit_spec(
                domain@,
                target,
                marks_set(old(visited)@),
                old(current_path)@,
            );
            &&& r == res
            &&& final(sink).log() == old(sink).log() + em.map_values(|p: int| domain@[p])
            &&& forall|q: int| 0 <= q < domain@.len() ==> (#[trigger] final(visited)@[q]) == (
            old(visited)@[q] || em.contains(q))
            &&& r is Ok ==> final(current_path)@ == old(current_path)@
            &&& r is Err ==> old(current_path)@.is_prefix_of(final(current_path)@)
        }),
    decreases domain@.len() - old(current_path)@.len(),
{
    let ghost v0 = marks_set(old(visited)@);
    let ghost path0 = old(current_path)@;
    let ghost log0 = old(sink).log();
    let ghost marks0 = old(visited)@;
    let ghost empty_nodes = Seq::<int>::empty().map_values(|p: int| domain@[p]);
    proof {
        assert(empty_nodes =~= Seq::<Node<Id, Item>>::empty());
        assert(log0 + empty_nodes =~= log0);
        assert(path0.is_prefix_of(path0)) by {
            assert(path0 =~= path0.subrange(0, path0.len() as int));
        }
    }
    let index = match find_index(domain, target) {
        Ok(i) => i,
        Err(e) => {
            return Err(e);
        },
    };
    proof {
        lemma_find_node(domain@, target);
    }
    if visited[index] {
        proof {
            assert(v0.contains(index as int));
        }
        return Ok(());
    }
    if path_contains(current_path, target) {
        return Err(TopsortError::CyclicDependency(target));
    }
    current_path.push(target);
    proof {
        assert(wf_path(domain@, current_path@));
        lemma_path_bounded(domain@, current_path@);
    }
    let ghost path1 = current_path@;
    let ghost deps_seq = domain@[index as int].deps@;
    let ghost mut em_acc = Seq::<int>::empty();
    proof {
        assert(v0.union(em_acc.to_set()) =~= v0);
        let (full_em, full_res) = visit_deps_spec(domain@, deps_seq, 0, v0, path1);
        assert(em_acc + full_em =~= full_em);
    }
    let num_deps = domain[index].deps.len();
    let mut k: usize = 0;
    while k < num_deps
        invariant
            ids_obey_eq::<Id>(),
            sink.inv(),
            visited@.len() == domain@.len(),
            current_path@ == path1,
            0 <= index < domain@.len(),
            find_node(domain@, target) == Some(index as int),
            domain@[index as int].id == target,
            num_deps == deps_seq.len(),
            deps_seq == domain@[index as int].deps@,
            path1 == path0.push(target),
            path1.len() <= domain@.len(),
            wf_path(domain@, path1),
            0 <= k <= num_deps,
            !v0.contains(index as int),
            !path0.contains(target),
            in_range(domain@, v0),
            deps_closed(domain@, v0),
            in_range(domain@, v0.union(em_acc.to_set())),
            deps_closed(domain@, v0.union(em_acc.to_set())),
            marks_set(visited@) == v0.union(em_acc.to_set()),
            sink.log() == log0 + em_acc.map_values(|p: int| domain@[p]),
            forall|q: int| 0 <= q < domain@.len() ==> visited@[q] == (marks0[q]
                || em_acc.contains(q)),
            ({
                let (full_em, full_res) = visit_deps_spec(domain@, deps_seq, 0, v0, path1);
                let (rest_em, rest_res) = visit_deps_spec(
                    domain@,
                    deps_seq,
                    k as int,
                    v0.union(em_acc.to_set()),
                    path1,
                );
                full_em == em_acc + rest_em && full_res == rest_res
            }),
        decreases num_deps - k,
    {
        let dep = domain[index].deps[k];
        let ghost vk = v0.union(em_acc.to_set());
        let ghost (e1, _r1) = visit_spec(domain@, dep, vk, path1);
        let res_head = visit(domain, dep, sink, visited, current_path);
        proof {
            lemma_visit_props(domain@, dep, vk, path1);
        }
        match res_head {
            Ok(()) => {
                proof {
                    let em_prev = em_acc;
                    em_acc = em_acc + e1;
                    seq_to_set_distributes_over_add(em_prev, e1);
                    assert(v0.union(em_acc.to_set()) =~= vk.union(e1.to_set()));
                    assert(sink.log() =~= log0 + em_acc.map_values(|p: int| domain@[p])) by {
                        assert(em_acc.map_values(|p: int| domain@[p]) =~= em_prev.map_values(
                            |p: int| domain@[p],
                        ) + e1.map_values(|p: int| domain@[p]));
                    }
                    assert forall|q: int| 0 <= q < domain@.len() implies visited@[q] == (
                    marks0[q] || em_acc.contains(q)) by {
                        assert(visited@[q] == (marks0[q] || em_prev.contains(q) || e1.contains(
                            q,
                        )));
                        if em_acc.contains(q) {
                            let x = choose|x: int| 0 <= x < em_acc.len() && em_acc[x] == q;
                            assert(em_prev.contains(q) || e1.contains(q)) by {
                                if x < em_prev.len() {
                                    assert(em_prev[x] == q);
                                } else {
                                    assert(e1[x - em_prev.len()] == q);
                                }
                            }
                        }
                        if em_prev.contains(q) {
                            let x = choose|x: int| 0 <= x < em_prev.len() && em_prev[x] == q;
                            assert(em_acc[x] == q);
                        }
                        if e1.contains(q) {
                            let x = choose|x: int| 0 <= x < e1.len() && e1[x] == q;
                            assert(em_acc[em_prev.len() + x] == q);
                        }
                    }
                }
            },
            Err(e) => {
                proof {
                    let (full_em, full_res) = visit_deps_spec(domain@, deps_seq, 0, v0, path1);
                    assert(full_em == em_acc + e1 && full_res == Err::<(), TopsortError<Id>>(
                        e,
                    ));
                    let (em, res) = visit_spec(domain@, target, v0, path0);
                    assert(em == full_em && res == full_res);
                    assert(sink.log() =~= log0 + em.map_values(|p: int| domain@[p])) by {
                        assert(em.map_values(|p: int| domain@[p]) =~= em_acc.map_values(
                            |p: int| domain@[p],
                        ) + e1.map_values(|p: int| domain@[p]));
                    }
                    assert forall|q: int| 0 <= q < domain@.len() implies visited@[q] == (
                    marks0[q] || em.contains(q)) by {
                        assert(visited@[q] == (marks0[q] || em_acc.contains(q) || e1.contains(
                            q,
                        )));
                        if em.contains(q) {
                            let x = choose|x: int| 0 <= x < em.len() && em[x] == q;
                            assert(em_acc.contains(q) || e1.contains(q)) by {
                                if x < em_acc.len() {
                                    assert(em_acc[x] == q);
                                } else {
                                    assert(e1[x - em_acc.len()] == q);
                                }
                            }
                        }
                        if em_acc.contains(q) {
                            let x = choose|x: int| 0 <= x < em_acc.len() && em_acc[x] == q;
                            assert(em[x] == q);
                        }
                        if e1.contains(q) {
                            let x = choose|x: int| 0 <= x < e1.len() && e1[x] == q;
                            assert(em[em_acc.len() + x] == q);
                        }
                    }
                    assert(path0.is_prefix_of(current_path@)) by {
                        assert(path1.is_prefix_of(current_path@));
                        assert forall|q: int| 0 <= q < path0.len() implies path0[q]
                            == current_path@.subrange(0, path0.len() as int)[q] by {
                            assert(path1[q] == current_path@.subrange(
                                0,
                                path1.len() as int,
                            )[q]);
                        }
                        assert(path0 =~= current_path@.subrange(0, path0.len() as int));
                    }
                }
                return Err(e);
            },
        }
        k += 1;
    }
    sink.accept(&domain[index]);
    visited[index] = true;
    let _ = current_path.pop();
    proof {
        let (full_em, full_res) = visit_deps_spec(domain@, deps_seq, 0, v0, path1);
        assert(visit_deps_spec(
            domain@,
            deps_seq,
            k as int,
            v0.union(em_acc.to_set()),
            path1,
        ) == (Seq::<int>::empty(), Ok::<(), TopsortError<Id>>(())));
        assert(full_em == em_acc) by {
            assert(em_acc + Seq::<int>::empty() =~= em_acc);
        }
        let (em, res) = visit_spec(domain@, target, v0, path0);
        assert(em == full_em.push(index as int) && res == Ok::<(), TopsortError<Id>>(()));
        assert(sink.log() =~= log0 + em.map_values(|p: int| domain@[p])) by {
            assert(em.map_values(|p: int| domain@[p]) =~= em_acc.map_values(
                |p: int| domain@[p],
            ).push(domain@[index as int]));
        }
        assert forall|q: int| 0 <= q < domain@.len() implies visited@[q] == (marks0[q]
            || em.contains(q)) by {
            if q == index as int {
                assert(em[em.len() - 1] == q);
                assert(em.contains(q));
            } else {
                if em.contains(q) {
                    let x = choose|x: int| 0 <= x < em.len() && em[x] == q;
                    assert(em_acc[x] == q);
                }
                if em_acc.contains(q) {
                    let x = choose|x: int| 0 <= x < em_acc.len() && em_acc[x] == q;
                    assert(em[x] == q);
                }
            }
        }
        assert(current_path@ =~= path0);
    }
    Ok(())
}

/// Calls the sink once per node of `target`'s dependency closure, every node
/// after its dependencies, the target's node last; returns the first
/// resolution failure or cycle instead.  The whole outcome — result, nodes
/// handed to the sink and their order — is `sort_spec(domain@, target)`.
pub fn sort_cb<Id: Copy + Eq, Item, S: Sink<Id, Item>>(
    domain: &[Node<Id, Item>],
    target: Id,
    sink: &mut S,
) -> (r: Result<(), TopsortError<Id>>)
    requires
        ids_obey_eq::<Id>(),
        old(sink).inv(),
    ensures
        final(sink).inv(),
        ({
            let (em, res) = sort_spec(domain@, target);
            &&& r == res
            &&& final(sink).log() == old(sink).log() + em.map_values(|p: int| domain@[p])
        }),
{
    let n = domain.len();
    let mut visited: Vec<bool> = Vec::new();
    while visited.len() < n
        invariant
            visited@.len() <= n,
            forall|q: int| 0 <= q < visited@.len() ==> !visited@[q],
        decreases n - visited@.len(),
    {
        visited.push(false);
    }
    let mut current_path: Vec<Id> = Vec::new();
    proof {
        assert(marks_set(visited@) =~= Set::<int>::empty());
        assert(wf_path(domain@, current_path@));
        assert(deps_closed(domain@, marks_set(visited@)));
    }
    visit(domain, target, sink, &mut visited, &mut current_path)
}

/// Returns the payloads of `target`'s dependency closure in the order the
/// nodes are visited — each node's dependencies before it, the target's
/// payload last — or the first resolution failure or cycle.  The values are
/// those of the positions `sort_spec(domain@, target)` emits, in that order.
pub fn sort<Id: Copy + Eq, Item: Copy>(
    domain: &[Node<Id, Item>],
    target: Id,
) -> (r: Result<Vec<Item>, TopsortError<Id>>)
    requires
        ids_obey_eq::<Id>(),
    ensures
        ({
            let (em, res) = sort_spec(domain@, target);
            match r {
                Ok(values) => res == Ok::<(), TopsortError<Id>>(()) && values@ == em.map_values(
                    |p: int| domain@[p].value,
                ),
                Err(e) => res == Err::<(), TopsortError<Id>>(e),
            }
        }),
{
    let mut sink: ValueSink<Id, Item> = ValueSink::new();
    match sort_cb(domain, target, &mut sink) {
        Ok(()) => {
            proof {
                let (em, _res) = sort_spec(domain@, target);
                assert(sink.log() =~= em.map_values(|p: int| domain@[p]));
                assert(sink.log().map_values(|n: Node<Id, Item>| n.value) =~= em.map_values(
                    |p: int| domain@[p].value,
                ));
            }
            Ok(sink.into_values())
        },
        Err(e) => Err(e),
    }
}

} // verus!
