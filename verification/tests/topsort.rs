use szyk::Node;
use szyk::TopsortError;
use szyk::ValueSink;
use szyk::sort;
use szyk::sort_cb;

#[test]
fn sort_cb_works() {
    let mut sink = ValueSink::new();
    let result = sort_cb(
        &[
            Node::new(1, vec![2, 3], "hello"),
            Node::new(2, vec![], "world"),
            Node::new(3, vec![2], "cat"),
        ],
        1,
        &mut sink,
    );
    assert_eq!(result, Ok(()));
    let out = sink.into_values();
    assert_eq!(out, vec!["world", "cat", "hello"]);
}

#[test]
fn sort_works() {
    let result = sort(
        &vec![
            Node::new(1, vec![2, 3], "hello"),
            Node::new(2, vec![], "world"),
            Node::new(3, vec![2], "cat"),
        ],
        1,
    );
    assert_eq!(result, Ok(vec!["world", "cat", "hello"]));
}

#[test]
fn target_not_found() {
    let result = sort(
        &vec![
            Node::new(1, vec![2, 3], "hello"),
            Node::new(2, vec![], "world"),
            Node::new(3, vec![2, 4], "cat"),
        ],
        1,
    );
    assert_eq!(result, Err(TopsortError::TargetNotFound(4)));
}

#[test]
fn cyclic_dependency() {
    let result = sort(
        &vec![
            Node::new(1, vec![2, 3], "hello"),
            Node::new(2, vec![1], "world"),
            Node::new(3, vec![2], "cat"),
        ],
        1,
    );
    assert_eq!(result, Err(TopsortError::CyclicDependency(1)));
}

#[test]
fn empty_domain() {
    let result = sort(&[] as &[Node<i32, i32>], 1);
    assert_eq!(result, Err(TopsortError::TargetNotFound(1)));
}

#[test]
fn diamond_emits_shared_once() {
    // a depends on b and c, which both depend on d: d comes once, before
    // b and c, and a comes last
    let result = sort(
        &[
            Node::new('a', vec!['b', 'c'], "a"),
            Node::new('b', vec!['d'], "b"),
            Node::new('c', vec!['d'], "c"),
            Node::new('d', vec![], "d"),
        ],
        'a',
    );
    assert_eq!(result, Ok(vec!["d", "b", "c", "a"]));
}

#[test]
fn crafting_order() {
    let result = sort(
        &[
            Node::new("wood", vec![], "wood"),
            Node::new("planks", vec!["wood"], "planks"),
            Node::new("sticks", vec!["planks"], "sticks"),
            Node::new("pickaxe", vec!["planks", "sticks"], "pickaxe"),
        ],
        "pickaxe",
    );
    assert_eq!(result, Ok(vec!["wood", "planks", "sticks", "pickaxe"]));
}

#[test]
fn missing_target_in_nonempty_domain() {
    let result = sort(&[Node::new(1, vec![], 10)], 5);
    assert_eq!(result, Err(TopsortError::TargetNotFound(5)));
}

#[test]
fn self_cycle() {
    let result = sort(&[Node::new(1, vec![1], 10)], 1);
    assert_eq!(result, Err(TopsortError::CyclicDependency(1)));
}

#[test]
fn unreachable_nodes_stay_out() {
    // node 2 is not reachable from the target; its dangling dependency on
    // 99 is never resolved and causes no error, and 2 is never emitted
    let result = sort(
        &[Node::new(1, vec![], "reached"), Node::new(2, vec![99], "stranded")],
        1,
    );
    assert_eq!(result, Ok(vec!["reached"]));
}

#[test]
fn duplicate_ids_first_match_wins() {
    let result = sort(
        &[Node::new(1, vec![], "first"), Node::new(1, vec![], "second")],
        1,
    );
    assert_eq!(result, Ok(vec!["first"]));
}

#[test]
fn values_match_callback_order() {
    let domain = [
        Node::new(1u64, vec![2, 3], 100u64),
        Node::new(2u64, vec![], 200u64),
        Node::new(3u64, vec![2], 300u64),
    ];
    let mut sink = ValueSink::new();
    let cb_result = sort_cb(&domain, 1, &mut sink);
    assert_eq!(cb_result, Ok(()));
    let via_callback = sink.into_values();
    let via_values = sort(&domain, 1);
    assert_eq!(via_values, Ok(via_callback));
}

#[test]
fn emissions_before_failure_reach_the_sink() {
    // dependency 2 is fully visited before the failing branch 3 is tried:
    // the callback form has handed 2's node over, and only that one
    let mut sink = ValueSink::new();
    let result = sort_cb(
        &[
            Node::new(1, vec![2, 3], "hello"),
            Node::new(2, vec![], "world"),
            Node::new(3, vec![4], "cat"),
        ],
        1,
        &mut sink,
    );
    assert_eq!(result, Err(TopsortError::TargetNotFound(4)));
    assert_eq!(sink.into_values(), vec!["world"]);
}

#[test]
fn node_new_keeps_fields() {
    let n = Node::new(7, vec![8, 9], "payload");
    assert_eq!(n.id, 7);
    assert_eq!(n.deps, vec![8, 9]);
    assert_eq!(n.value, "payload");
}

#[test]
fn deep_chain_sorts_in_order() {
    let result = sort(
        &[
            Node::new(4, vec![3], 40),
            Node::new(3, vec![2], 30),
            Node::new(2, vec![1], 20),
            Node::new(1, vec![], 10),
        ],
        4,
    );
    assert_eq!(result, Ok(vec![10, 20, 30, 40]));
}

#[test]
fn cycle_reports_the_closing_node() {
    // the chain 1 -> 2 -> 3 -> 2 closes on 2: the re-entered identifier is
    // the one reported
    let result = sort(
        &[
            Node::new(1, vec![2], "one"),
            Node::new(2, vec![3], "two"),
            Node::new(3, vec![2], "three"),
        ],
        1,
    );
    assert_eq!(result, Err(TopsortError::CyclicDependency(2)));
}

#[test]
fn target_alone_is_emitted() {
    let result = sort(&[Node::new(1, vec![], "only")], 1);
    assert_eq!(result, Ok(vec!["only"]));
}
