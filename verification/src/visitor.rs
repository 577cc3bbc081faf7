//! The protocol by which a tree is walked: one pass, first node to last,
//! which the visitor may end early.

use crate::cst::{CstNode, NodeView};
use vstd::prelude::*;

verus! {

/// A visitor sees the nodes of a tree one by one, each with its place, and
/// says after each whether it wants the next.
///
/// What a visitor has learnt is its `State`. The two spec functions say how
/// a node changes the state and whether the walk goes on behind it; `visit`
/// has to do what they say.
pub trait CstVisitor {
    /// What the visitor has learnt so far.
    type State;

    /// The state of this visitor.
    spec fn state(&self) -> Self::State;

    /// The state after the visitor in state `s` has seen `node` at place `i`.
    spec fn next_state(s: Self::State, i: int, node: NodeView) -> Self::State;

    /// Whether the visitor in state `s`, shown `node` at place `i`, asks for
    /// the node behind it.
    spec fn goes_on(s: Self::State, i: int, node: NodeView) -> bool;

    /// Shows the visitor one node. `Some` asks for the next node, `None`
    /// ends the walk.
    fn visit(&mut self, i: usize, node: &CstNode) -> (r: Option<()>)
        requires
            i < usize::MAX,
        ensures
            final(self).state() == Self::next_state(old(self).state(), i as int, node@),
            r is Some <==> Self::goes_on(old(self).state(), i as int, node@),
    ;
}

/// The state in which a walk over `nodes` from place `from` on leaves a
/// visitor that starts in state `s`: every node is shown in order, up to
/// and including the first at which the visitor ends the walk.
pub open spec fn walk<V: CstVisitor>(s: V::State, nodes: Seq<NodeView>, from: int) -> V::State
    decreases nodes.len() - from,
{
    if from < 0 || from >= nodes.len() {
        s
    } else if V::goes_on(s, from, nodes[from]) {
        walk::<V>(V::next_state(s, from, nodes[from]), nodes, from + 1)
    } else {
        V::next_state(s, from, nodes[from])
    }
}

} // verus!
