//! Sinks: the consumers that receive each visited node exactly once, in
//! dependency-first order.  A sink keeps a ghost log of the nodes it was
//! handed, so that a caller of the traversal knows, from the contract alone,
//! which nodes reached the sink and in which order.

use vstd::prelude::*;
use crate::graph::Node;

verus! {

/// A consumer of visited nodes.  `accept` is invoked once per emitted node;
/// the ghost `log` records the nodes accepted so far, oldest first, and
/// `inv` is whatever the sink maintains about its own state.
pub trait Sink<Id: Copy + Eq, Item>: Sized {
    /// the sink's own invariant, established at construction and kept by
    /// every `accept`
    spec fn inv(&self) -> bool;

    /// the nodes this sink has accepted, in the order it accepted them
    spec fn log(&self) -> Seq<Node<Id, Item>>;

    /// consume one visited node
    fn accept(&mut self, node: &Node<Id, Item>)
        requires
            old(self).inv(),
        ensures
            final(self).inv(),
            final(self).log() == old(self).log().push(*node),
    ;
}

/// The sink behind the value-collecting entry point: keeps the payload of
/// every accepted node, in acceptance order.
pub struct ValueSink<Id: Copy + Eq, Item> {
    values: Vec<Item>,
    nodes: Ghost<Seq<Node<Id, Item>>>,
}

impl<Id: Copy + Eq, Item: Copy> ValueSink<Id, Item> {
    /// A fresh sink that has accepted nothing.
    pub fn new() -> (s: Self)
        ensures
            s.inv(),
            s.log() == Seq::<Node<Id, Item>>::empty(),
    {
        let s = ValueSink { values: Vec::new(), nodes: Ghost(Seq::empty()) };
        proof {
            assert(s.values@ =~= s.nodes@.map_values(|n: Node<Id, Item>| n.value));
        }
        s
    }

    /// The collected payloads: the `value` of each accepted node, in
    /// acceptance order.
    pub fn into_values(self) -> (r: Vec<Item>)
        requires
            self.inv(),
        ensures
            r@ == self.log().map_values(|n: Node<Id, Item>| n.value),
    {
        let ValueSink { values, nodes: _ } = self;
        values
    }
}

impl<Id: Copy + Eq, Item: Copy> Sink<Id, Item> for ValueSink<Id, Item> {
    /// The payloads are exactly the values of the logged nodes.
    closed spec fn inv(&self) -> bool {
        self.values@ == self.nodes@.map_values(|n: Node<Id, Item>| n.value)
    }

    closed spec fn log(&self) -> Seq<Node<Id, Item>> {
        self.nodes@
    }

    fn accept(&mut self, node: &Node<Id, Item>) {
        self.values.push(node.value);
        proof {
            self.nodes@ = self.nodes@.push(*node);
            assert(self.values@ =~= self.nodes@.map_values(|n: Node<Id, Item>| n.value));
        }
    }
}

} // verus!
