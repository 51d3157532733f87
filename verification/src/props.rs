//! Properties of the traversal model: every emission is in range, unique,
//! comes after all of its dependencies, never names a node whose resolution
//! is still under way, and ends on the target.  Proved once, by mutual
//! induction over the model, and restated at the top level as the laws of
//! the public entry points.

use vstd::prelude::*;
use vstd::seq_lib::lemma_no_dup_in_concat;
use vstd::seq_lib::seq_to_set_distributes_over_add;
use crate::graph::Node;
use crate::graph::TopsortError;
use crate::resolve::find_node;
use crate::resolve::resolvable;
use crate::resolve::wf_path;
use crate::resolve::lemma_find_node;
use crate::resolve::lemma_path_bounded;
use crate::traversal::visit_spec;
use crate::traversal::visit_deps_spec;
use crate::traversal::sort_spec;

verus! {

/// Every position of `vs` is a position of `domain`.
pub open spec fn in_range<Id: Copy + Eq, Item>(
    domain: Seq<Node<Id, Item>>,
    vs: Set<int>,
) -> bool {
    forall|p: int| #[trigger] vs.contains(p) ==> 0 <= p < domain.len()
}

/// Every dependency of the node at position `p` resolves, to a position
/// inside `vs`.
pub open spec fn deps_resolved_in<Id: Copy + Eq, Item>(
    domain: Seq<Node<Id, Item>>,
    p: int,
    vs: Set<int>,
) -> bool {
    forall|dk: int| 0 <= dk < domain[p].deps@.len() ==> {
        &&& resolvable(domain, #[trigger] domain[p].deps@[dk])
        &&& vs.contains(find_node(domain, domain[p].deps@[dk]).unwrap())
    }
}

/// `vs` is closed under dependencies: every node in it has every dependency
/// resolved to a position in it.
pub open spec fn deps_closed<Id: Copy + Eq, Item>(
    domain: Seq<Node<Id, Item>>,
    vs: Set<int>,
) -> bool {
    forall|p: int| #[trigger] vs.contains(p) ==> deps_resolved_in(domain, p, vs)
}

/// What holds of a sequence of emissions made from the state `(visited,
/// path)`: positions of the graph, none emitted twice, none emitted that was
/// already visited or whose identifier is still being resolved, and each
/// only after all of its dependencies.
pub open spec fn sound_emission<Id: Copy + Eq, Item>(
    domain: Seq<Node<Id, Item>>,
    visited: Set<int>,
    path: Seq<Id>,
    em: Seq<int>,
) -> bool {
    &&& forall|x: int| 0 <= x < em.len() ==> 0 <= #[trigger] em[x] < domain.len()
    &&& forall|x: int| 0 <= x < em.len() ==> !visited.contains(#[trigger] em[x])
    &&& forall|x: int| 0 <= x < em.len() ==> !path.contains(domain[#[trigger] em[x]].id)
    &&& em.no_duplicates()
    &&& forall|x: int| 0 <= x < em.len() ==> deps_resolved_in(
        domain,
        #[trigger] em[x],
        visited.union(em.take(x).to_set()),
    )
}

proof fn lemma_deps_resolved_mono<Id: Copy + Eq, Item>(
    domain: Seq<Node<Id, Item>>,
    p: int,
    vs1: Set<int>,
    vs2: Set<int>,
)
    requires
        deps_resolved_in(domain, p, vs1),
        vs1.subset_of(vs2),
    ensures
        deps_resolved_in(domain, p, vs2),
{
}

/// An emission sound on a longer resolution chain is sound on any chain it
/// extends.
proof fn lemma_sound_emission_shorter_path<Id: Copy + Eq, Item>(
    domain: Seq<Node<Id, Item>>,
    visited: Set<int>,
    path: Seq<Id>,
    longer: Seq<Id>,
    em: Seq<int>,
)
    requires
        sound_emission(domain, visited, longer, em),
        forall|k: int| 0 <= k < path.len() ==> longer.contains(#[trigger] path[k]),
    ensures
        sound_emission(domain, visited, path, em),
{
    assert forall|x: int| 0 <= x < em.len() implies !path.contains(
        domain[#[trigger] em[x]].id,
    ) by {
        if path.contains(domain[em[x]].id) {
            let k = choose|k: int| 0 <= k < path.len() && path[k] == domain[em[x]].id;
            assert(longer.contains(path[k]));
        }
    }
}

/// Soundness composes: what a later visit emits on top of an earlier one is
/// sound for the state the earlier one started from.
proof fn lemma_sound_emission_concat<Id: Copy + Eq, Item>(
    domain: Seq<Node<Id, Item>>,
    visited: Set<int>,
    path: Seq<Id>,
    a: Seq<int>,
    b: Seq<int>,
)
    requires
        sound_emission(domain, visited, path, a),
        sound_emission(domain, visited.union(a.to_set()), path, b),
    ensures
        sound_emission(domain, visited, path, a + b),
{
    let ab = a + b;
    assert forall|i: int, j: int| 0 <= i < a.len() && 0 <= j < b.len() implies a[i]
        != b[j] by {
        assert(a.to_set().contains(a[i]));
        assert(!visited.union(a.to_set()).contains(b[j]));
    }
    lemma_no_dup_in_concat(a, b);
    assert forall|x: int| 0 <= x < ab.len() implies deps_resolved_in(
        domain,
        #[trigger] ab[x],
        visited.union(ab.take(x).to_set()),
    ) by {
        if x < a.len() {
            assert(ab.take(x) =~= a.take(x));
            assert(ab[x] == a[x]);
        } else {
            let y = x - a.len();
            assert(ab[x] == b[y]);
            assert(ab.take(x) =~= a + b.take(y));
            seq_to_set_distributes_over_add(a, b.take(y));
            assert(deps_resolved_in(
                domain,
                b[y],
                visited.union(a.to_set()).union(b.take(y).to_set()),
            ));
            lemma_deps_resolved_mono(
                domain,
                b[y],
                visited.union(a.to_set()).union(b.take(y).to_set()),
                visited.union(ab.take(x).to_set()),
            );
        }
    }
}

/// Main induction, visit side: whatever `visit_spec` emits from a sound
/// state is a sound emission, the visited region stays closed under
/// dependencies, and on success the target's node ends up visited — emitted
/// last, unless it had been visited before.
pub proof fn lemma_visit_props<Id: Copy + Eq, Item>(
    domain: Seq<Node<Id, Item>>,
    target: Id,
    visited: Set<int>,
    path: Seq<Id>,
)
    requires
        wf_path(domain, path),
        in_range(domain, visited),
        deps_closed(domain, visited),
    ensures
        ({
            let (em, res) = visit_spec(domain, target, visited, path);
            &&& sound_emission(domain, visited, path, em)
            &&& in_range(domain, visited.union(em.to_set()))
            &&& deps_closed(domain, visited.union(em.to_set()))
            &&& res is Ok ==> {
                &&& resolvable(domain, target)
                &&& visited.union(em.to_set()).contains(find_node(domain, target).unwrap())
                &&& !visited.contains(find_node(domain, target).unwrap()) ==> em.len() > 0
                    && em.last() == find_node(domain, target).unwrap()
            }
        }),
    decreases domain.len() - path.len(), 0int,
{
    let (em, res) = visit_spec(domain, target, visited, path);
    match find_node(domain, target) {
        None => {},
        Some(i) => {
            lemma_find_node(domain, target);
            if visited.contains(i) {
            } else if path.contains(target) {
            } else {
                let path1 = path.push(target);
                assert(wf_path(domain, path1));
                lemma_path_bounded(domain, path1);
                let deps = domain[i].deps@;
                let (em1, res1) = visit_deps_spec(domain, deps, 0, visited, path1);
                lemma_visit_deps_props(domain, deps, 0, visited, path1);
                assert(forall|k: int| 0 <= k < path.len() ==> path1.contains(
                    #[trigger] path[k],
                )) by {
                    assert(forall|k: int| 0 <= k < path.len() ==> path1[k] == #[trigger] path[k]);
                }
                lemma_sound_emission_shorter_path(domain, visited, path, path1, em1);
                match res1 {
                    Ok(()) => {
                        assert(em == em1.push(i));
                        // the node itself was never emitted while its own
                        // identifier was on the chain
                        assert forall|x: int| 0 <= x < em1.len() implies #[trigger] em1[x]
                            != i by {
                            assert(path1.contains(domain[i].id)) by {
                                assert(path1[path1.len() - 1] == target);
                            }
                            assert(!path1.contains(domain[em1[x]].id));
                        }
                        let single = seq![i];
                        assert(single[0] == i);
                        assert(single.contains(i));
                        assert(single.take(0) =~= Seq::<int>::empty());
                        assert(deps_resolved_in(
                            domain,
                            i,
                            visited.union(em1.to_set()),
                        ));
                        lemma_deps_resolved_mono(
                            domain,
                            i,
                            visited.union(em1.to_set()),
                            visited.union(em1.to_set()).union(single.take(0).to_set()),
                        );
                        assert(sound_emission(
                            domain,
                            visited.union(em1.to_set()),
                            path,
                            single,
                        )) by {
                            assert(forall|x: int| 0 <= x < single.len() ==> single[x] == i);
                        }
                        lemma_sound_emission_concat(domain, visited, path, em1, single);
                        assert(em =~= em1 + single);
                        // closedness and the target's membership
                        seq_to_set_distributes_over_add(em1, single);
                        assert(single.to_set().contains(i));
                        assert(em.to_set().contains(i));
                        assert forall|p: int|
                            #[trigger] visited.union(em.to_set()).contains(p) implies
                            deps_resolved_in(domain, p, visited.union(em.to_set())) by {
                            if p == i {
                                lemma_deps_resolved_mono(
                                    domain,
                                    p,
                                    visited.union(em1.to_set()),
                                    visited.union(em.to_set()),
                                );
                            } else {
                                assert(visited.union(em1.to_set()).contains(p)) by {
                                    if em.to_set().contains(p) {
                                        assert(em.contains(p));
                                        let x = choose|x: int|
                                            0 <= x < em.len() && em[x] == p;
                                        assert(em1[x] == p || p == i);
                                    }
                                }
                                lemma_deps_resolved_mono(
                                    domain,
                                    p,
                                    visited.union(em1.to_set()),
                                    visited.union(em.to_set()),
                                );
                            }
                        }
                        assert(em.last() == i);
                    },
                    Err(_) => {},
                }
            }
        },
    }
}

/// Main induction, dependency-list side: visiting `deps[k..]` in order from
/// a sound state gives a sound emission, keeps the visited region closed,
/// and on success leaves every one of those dependencies resolved into the
/// visited region.
pub proof fn lemma_visit_deps_props<Id: Copy + Eq, Item>(
    domain: Seq<Node<Id, Item>>,
    deps: Seq<Id>,
    k: int,
    visited: Set<int>,
    path: Seq<Id>,
)
    requires
        0 <= k,
        wf_path(domain, path),
        in_range(domain, visited),
        deps_closed(domain, visited),
    ensures
        ({
            let (em, res) = visit_deps_spec(domain, deps, k, visited, path);
            &&& sound_emission(domain, visited, path, em)
            &&& in_range(domain, visited.union(em.to_set()))
            &&& deps_closed(domain, visited.union(em.to_set()))
            &&& res is Ok ==> forall|dk: int| k <= dk < deps.len() ==> {
                &&& resolvable(domain, #[trigger] deps[dk])
                &&& visited.union(em.to_set()).contains(
                    find_node(domain, deps[dk]).unwrap(),
                )
            }
        }),
    decreases domain.len() - path.len(), deps.len() - k + 1,
{
    let (em, res) = visit_deps_spec(domain, deps, k, visited, path);
    if k < 0 || k >= deps.len() {
    } else {
        let (em_head, res_head) = visit_spec(domain, deps[k], visited, path);
        lemma_visit_props(domain, deps[k], visited, path);
        match res_head {
            Ok(()) => {
                let visited2 = visited.union(em_head.to_set());
                let (em_tail, res_tail) = visit_deps_spec(domain, deps, k + 1, visited2, path);
                lemma_visit_deps_props(domain, deps, k + 1, visited2, path);
                assert(em == em_head + em_tail);
                lemma_sound_emission_concat(domain, visited, path, em_head, em_tail);
                seq_to_set_distributes_over_add(em_head, em_tail);
                assert(visited2.union(em_tail.to_set()) =~= visited.union(em.to_set()));
                if res_tail is Ok {
                    assert forall|dk: int| k <= dk < deps.len() implies {
                        &&& resolvable(domain, #[trigger] deps[dk])
                        &&& visited.union(em.to_set()).contains(
                            find_node(domain, deps[dk]).unwrap(),
                        )
                    } by {
                        if dk == k {
                            assert(visited2.contains(find_node(domain, deps[k]).unwrap()));
                        }
                    }
                }
            },
            Err(_) => {},
        }
    }
}

/// The node at position `i` names, among its dependencies, an identifier
/// that resolves to position `j`.
pub open spec fn depends_on<Id: Copy + Eq, Item>(
    domain: Seq<Node<Id, Item>>,
    i: int,
    j: int,
) -> bool {
    exists|dk: int| 0 <= dk < domain[i].deps@.len() && find_node(
        domain,
        #[trigger] domain[i].deps@[dk],
    ) == Some(j)
}

/// `ch` walks positions of the graph along dependency edges.
pub open spec fn is_dep_chain<Id: Copy + Eq, Item>(
    domain: Seq<Node<Id, Item>>,
    ch: Seq<int>,
) -> bool {
    forall|x: int| 0 <= x < ch.len() - 1 ==> depends_on(domain, #[trigger] ch[x], ch[x + 1])
}

/// Position `p` lies in the dependency closure of position `start`: some
/// chain of dependency edges leads from `start` to `p` (the empty walk
/// included, so every position is in its own closure).
pub open spec fn in_closure_of<Id: Copy + Eq, Item>(
    domain: Seq<Node<Id, Item>>,
    start: int,
    p: int,
) -> bool {
    exists|ch: Seq<int>|
        {
            &&& ch.len() > 0
            &&& ch[0] == start
            &&& ch.last() == p
            &&& is_dep_chain(domain, ch)
        }
}

proof fn lemma_closure_here<Id: Copy + Eq, Item>(domain: Seq<Node<Id, Item>>, start: int)
    ensures
        in_closure_of(domain, start, start),
{
    let ch = seq![start];
    assert(ch[0] == start && ch.last() == start && is_dep_chain(domain, ch));
}

proof fn lemma_closure_step<Id: Copy + Eq, Item>(
    domain: Seq<Node<Id, Item>>,
    i: int,
    j: int,
    p: int,
)
    requires
        depends_on(domain, i, j),
        in_closure_of(domain, j, p),
    ensures
        in_closure_of(domain, i, p),
{
    let ch = choose|ch: Seq<int>|
        {
            &&& ch.len() > 0
            &&& ch[0] == j
            &&& ch.last() == p
            &&& is_dep_chain(domain, ch)
        };
    let ext = seq![i] + ch;
    assert(ext[0] == i && ext.last() == p);
    assert forall|x: int| 0 <= x < ext.len() - 1 implies depends_on(
        domain,
        #[trigger] ext[x],
        ext[x + 1],
    ) by {
        if x == 0 {
            assert(ext[0] == i && ext[1] == ch[0]);
        } else {
            assert(ext[x] == ch[x - 1] && ext[x + 1] == ch[x]);
        }
    }
    assert(in_closure_of(domain, i, p));
}

/// Scoping, visit side: whatever a visit of `target` emits lies in the
/// dependency closure of `target`'s own node.
pub proof fn lemma_visit_scoped<Id: Copy + Eq, Item>(
    domain: Seq<Node<Id, Item>>,
    target: Id,
    visited: Set<int>,
    path: Seq<Id>,
)
    requires
        wf_path(domain, path),
    ensures
        ({
            let (em, res) = visit_spec(domain, target, visited, path);
            forall|x: int| 0 <= x < em.len() ==> resolvable(domain, target) && in_closure_of(
                domain,
                find_node(domain, target).unwrap(),
                #[trigger] em[x],
            )
        }),
    decreases domain.len() - path.len(), 0int,
{
    let (em, res) = visit_spec(domain, target, visited, path);
    match find_node(domain, target) {
        None => {},
        Some(i) => {
            lemma_find_node(domain, target);
            if visited.contains(i) {
            } else if path.contains(target) {
            } else {
                let path1 = path.push(target);
                assert(wf_path(domain, path1));
                lemma_path_bounded(domain, path1);
                let deps = domain[i].deps@;
                let (em1, res1) = visit_deps_spec(domain, deps, 0, visited, path1);
                lemma_visit_deps_scoped(domain, deps, 0, visited, path1, i);
                assert forall|x: int| 0 <= x < em.len() implies in_closure_of(
                    domain,
                    i,
                    #[trigger] em[x],
                ) by {
                    if x < em1.len() {
                        assert(em[x] == em1[x]);
                    } else {
                        assert(em[x] == i);
                        lemma_closure_here(domain, i);
                    }
                }
            }
        },
    }
}

/// Scoping, dependency-list side: whatever visiting `deps[k..]` emits lies
/// in the dependency closure of the node at `holder`, provided `deps` are
/// that node's declared dependencies.
proof fn lemma_visit_deps_scoped<Id: Copy + Eq, Item>(
    domain: Seq<Node<Id, Item>>,
    deps: Seq<Id>,
    k: int,
    visited: Set<int>,
    path: Seq<Id>,
    holder: int,
)
    requires
        0 <= k,
        wf_path(domain, path),
        deps == domain[holder].deps@,
    ensures
        ({
            let (em, res) = visit_deps_spec(domain, deps, k, visited, path);
            forall|x: int| 0 <= x < em.len() ==> in_closure_of(domain, holder, #[trigger] em[x])
        }),
    decreases domain.len() - path.len(), deps.len() - k + 1,
{
    let (em, res) = visit_deps_spec(domain, deps, k, visited, path);
    if k >= deps.len() {
    } else {
        let (em_head, res_head) = visit_spec(domain, deps[k], visited, path);
        lemma_visit_scoped(domain, deps[k], visited, path);
        assert forall|x: int| 0 <= x < em_head.len() implies in_closure_of(
            domain,
            holder,
            #[trigger] em_head[x],
        ) by {
            let j = find_node(domain, deps[k]).unwrap();
            assert(depends_on(domain, holder, j)) by {
                assert(domain[holder].deps@[k] == deps[k]);
            }
            lemma_closure_step(domain, holder, j, em_head[x]);
        }
        match res_head {
            Ok(()) => {
                let visited2 = visited.union(em_head.to_set());
                let (em_tail, res_tail) = visit_deps_spec(domain, deps, k + 1, visited2, path);
                lemma_visit_deps_scoped(domain, deps, k + 1, visited2, path, holder);
                assert forall|x: int| 0 <= x < em.len() implies in_closure_of(
                    domain,
                    holder,
                    #[trigger] em[x],
                ) by {
                    if x < em_head.len() {
                        assert(em[x] == em_head[x]);
                    } else {
                        assert(em[x] == em_tail[x - em_head.len()]);
                    }
                }
            },
            Err(_) => {},
        }
    }
}

/// No duplicate emission: over one whole sort call, no position of the
/// graph is emitted to the sink more than once, and every emitted position
/// is a position of the graph.
pub proof fn lemma_sort_no_duplicate_emission<Id: Copy + Eq, Item>(
    domain: Seq<Node<Id, Item>>,
    target: Id,
)
    ensures
        ({
            let (em, res) = sort_spec(domain, target);
            &&& em.no_duplicates()
            &&& forall|x: int| 0 <= x < em.len() ==> 0 <= #[trigger] em[x] < domain.len()
        }),
{
    lemma_visit_props(domain, target, Set::empty(), Seq::empty());
}

/// Dependency-first order: over one whole sort call, every dependency of an
/// emitted node resolves, and resolves to a position emitted strictly
/// earlier.  A shared dependency is thus already emitted when its second
/// dependant comes, and is not emitted again.
pub proof fn lemma_sort_dependency_first<Id: Copy + Eq, Item>(
    domain: Seq<Node<Id, Item>>,
    target: Id,
)
    ensures
        ({
            let (em, res) = sort_spec(domain, target);
            forall|x: int, dk: int|
                0 <= x < em.len() && 0 <= dk < domain[em[x]].deps@.len() ==> {
                    &&& resolvable(domain, #[trigger] domain[#[trigger] em[x]].deps@[dk])
                    &&& exists|y: int|
                        0 <= y < x && em[y] == find_node(
                            domain,
                            domain[em[x]].deps@[dk],
                        ).unwrap()
                }
        }),
{
    lemma_visit_props(domain, target, Set::empty(), Seq::empty());
    let (em, res) = sort_spec(domain, target);
    assert forall|x: int, dk: int|
        0 <= x < em.len() && 0 <= dk < domain[em[x]].deps@.len() implies {
        &&& resolvable(domain, #[trigger] domain[#[trigger] em[x]].deps@[dk])
        &&& exists|y: int|
            0 <= y < x && em[y] == find_node(domain, domain[em[x]].deps@[dk]).unwrap()
    } by {
        assert(deps_resolved_in(
            domain,
            em[x],
            Set::empty().union(em.take(x).to_set()),
        ));
        let j = find_node(domain, domain[em[x]].deps@[dk]).unwrap();
        assert(Set::empty().union(em.take(x).to_set()).contains(j));
        assert(em.take(x).contains(j));
        let y = choose|y: int| 0 <= y < em.take(x).len() && em.take(x)[y] == j;
        assert(0 <= y < x && em[y] == j);
    }
}

/// The target comes last: when a sort call succeeds, something was emitted,
/// and the last emission is the target's own node.
pub proof fn lemma_sort_target_last<Id: Copy + Eq, Item>(
    domain: Seq<Node<Id, Item>>,
    target: Id,
)
    ensures
        ({
            let (em, res) = sort_spec(domain, target);
            res is Ok ==> {
                &&& resolvable(domain, target)
                &&& em.len() > 0
                &&& em.last() == find_node(domain, target).unwrap()
            }
        }),
{
    lemma_visit_props(domain, target, Set::empty(), Seq::empty());
}

/// Target scoping: over one whole sort call, only positions in the
/// dependency closure of the target's node are ever emitted; nodes the
/// target does not reach stay untouched.
pub proof fn lemma_sort_target_scoped<Id: Copy + Eq, Item>(
    domain: Seq<Node<Id, Item>>,
    target: Id,
)
    ensures
        ({
            let (em, res) = sort_spec(domain, target);
            forall|x: int| 0 <= x < em.len() ==> resolvable(domain, target) && in_closure_of(
                domain,
                find_node(domain, target).unwrap(),
                #[trigger] em[x],
            )
        }),
{
    lemma_visit_scoped(domain, target, Set::empty(), Seq::empty());
}

proof fn lemma_closed_set_absorbs_chains<Id: Copy + Eq, Item>(
    domain: Seq<Node<Id, Item>>,
    s: Set<int>,
    ch: Seq<int>,
)
    requires
        deps_closed(domain, s),
        ch.len() > 0,
        s.contains(ch[0]),
        is_dep_chain(domain, ch),
    ensures
        s.contains(ch.last()),
    decreases ch.len(),
{
    if ch.len() == 1 {
    } else {
        assert(depends_on(domain, ch[0], ch[1]));
        let dk = choose|dk: int|
            0 <= dk < domain[ch[0]].deps@.len() && find_node(
                domain,
                #[trigger] domain[ch[0]].deps@[dk],
            ) == Some(ch[1]);
        assert(deps_resolved_in(domain, ch[0], s));
        assert(s.contains(ch[1]));
        let tail = ch.drop_first();
        assert(tail[0] == ch[1] && tail.last() == ch.last());
        assert(is_dep_chain(domain, tail)) by {
            assert forall|x: int| 0 <= x < tail.len() - 1 implies depends_on(
                domain,
                #[trigger] tail[x],
                tail[x + 1],
            ) by {
                assert(tail[x] == ch[x + 1] && tail[x + 1] == ch[x + 2]);
            }
        }
        lemma_closed_set_absorbs_chains(domain, s, tail);
    }
}

/// Completeness: when a sort call succeeds, every position in the target's
/// dependency closure was emitted.  With the scoping and uniqueness laws,
/// the emissions of a successful call are exactly the closure, once each.
pub proof fn lemma_sort_complete<Id: Copy + Eq, Item>(
    domain: Seq<Node<Id, Item>>,
    target: Id,
)
    ensures
        ({
            let (em, res) = sort_spec(domain, target);
            res is Ok ==> forall|p: int|
                #[trigger] in_closure_of(domain, find_node(domain, target).unwrap(), p)
                    ==> em.contains(p)
        }),
{
    lemma_visit_props(domain, target, Set::empty(), Seq::empty());
    let (em, res) = sort_spec(domain, target);
    if res is Ok {
        let s = Set::empty().union(em.to_set());
        let start = find_node(domain, target).unwrap();
        assert forall|p: int| #[trigger] in_closure_of(domain, start, p) implies em.contains(
            p,
        ) by {
            let ch = choose|ch: Seq<int>|
                {
                    &&& ch.len() > 0
                    &&& ch[0] == start
                    &&& ch.last() == p
                    &&& is_dep_chain(domain, ch)
                };
            lemma_closed_set_absorbs_chains(domain, s, ch);
        }
    }
}

/// On the empty graph every sort call fails at once, reporting the target
/// itself as not found, whatever the target is.
pub proof fn lemma_sort_empty_graph<Id: Copy + Eq, Item>(
    domain: Seq<Node<Id, Item>>,
    target: Id,
)
    requires
        domain.len() == 0,
    ensures
        sort_spec(domain, target) == (
            Seq::<int>::empty(),
            Err::<(), TopsortError<Id>>(TopsortError::TargetNotFound(target)),
        ),
{
    assert(find_node(domain, target) is None);
}

/// Value/callback agreement: the payloads the value-collecting form returns
/// are exactly the `value` fields of the nodes the callback form hands to
/// its sink, in the same order.
pub proof fn lemma_sort_values_match_callback<Id: Copy + Eq, Item>(
    domain: Seq<Node<Id, Item>>,
    target: Id,
)
    ensures
        ({
            let (em, res) = sort_spec(domain, target);
            em.map_values(|p: int| domain[p].value) == em.map_values(
                |p: int| domain[p],
            ).map_values(|n: Node<Id, Item>| n.value)
        }),
{
    let (em, res) = sort_spec(domain, target);
    assert(em.map_values(|p: int| domain[p].value) =~= em.map_values(
        |p: int| domain[p],
    ).map_values(|n: Node<Id, Item>| n.value));
}

} // verus!
