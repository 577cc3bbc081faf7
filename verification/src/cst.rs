//! The concrete syntax tree: the nodes of a document in order, each of which
//! writes back the text it was read from.

use crate::address::{address_text, IpAddress};
use crate::tokens::{TokenView, Tokens};
use core::ops::{Range, RangeInclusive};
use smallvec::SmallVec;
use vstd::prelude::*;

verus! {

/// A node of the tree.
#[derive(Debug, PartialEq, Eq)]
pub enum CstNode {
    Host(String),
    IP(IpAddress),
    Comment(String),
    Space,
    Tab,
    CarriageReturn,
    NewLine,
}

/// What a node is to a contract.
pub enum NodeView {
    Host(Seq<char>),
    IP(IpAddress),
    Comment(Seq<char>),
    Space,
    Tab,
    CarriageReturn,
    NewLine,
}

impl View for CstNode {
    type V = NodeView;

    open spec fn view(&self) -> NodeView {
        match self {
            CstNode::Host(text) => NodeView::Host(text@),
            CstNode::IP(ip) => NodeView::IP(*ip),
            CstNode::Comment(text) => NodeView::Comment(text@),
            CstNode::Space => NodeView::Space,
            CstNode::Tab => NodeView::Tab,
            CstNode::CarriageReturn => NodeView::CarriageReturn,
            CstNode::NewLine => NodeView::NewLine,
        }
    }
}

/// The views of a sequence of nodes, in order.
pub open spec fn node_views(s: Seq<CstNode>) -> Seq<NodeView> {
    s.map_values(|n: CstNode| n@)
}

impl NodeView {
    /// The text that the node writes: the alias, the address in its usual
    /// form, the comment behind its `#`, or the one character that a marker
    /// stands for.
    pub open spec fn text(self) -> Seq<char> {
        match self {
            NodeView::Host(text) => text,
            NodeView::IP(ip) => address_text(ip),
            NodeView::Comment(text) => seq!['#'] + text,
            NodeView::Space => seq![' '],
            NodeView::Tab => seq!['\t'],
            NodeView::CarriageReturn => seq!['\r'],
            NodeView::NewLine => seq!['\n'],
        }
    }
}

/// The text that a sequence of nodes writes: the texts of the nodes, one
/// behind the other.
pub open spec fn render(s: Seq<NodeView>) -> Seq<char>
    decreases s.len(),
{
    if s.len() == 0 {
        Seq::<char>::empty()
    } else {
        render(s.drop_last()) + s.last().text()
    }
}

/// Rendering goes through concatenation.
pub proof fn lemma_render_concat(a: Seq<NodeView>, b: Seq<NodeView>)
    ensures
        render(a + b) == render(a) + render(b),
    decreases b.len(),
{
    if b.len() == 0 {
        assert(a + b =~= a);
        assert(render(a) + render(b) =~= render(a));
    } else {
        assert((a + b).drop_last() =~= a + b.drop_last());
        assert((a + b).last() == b.last());
        lemma_render_concat(a, b.drop_last());
        assert(render(a + b) =~= render(a) + render(b));
    }
}

/// The node that stands for a token as it is: a marker for a marker, a
/// comment for a comment, and for a word the alias with that text.
pub open spec fn node_of_token(t: TokenView) -> NodeView {
    match t {
        TokenView::HostOrIp(text) => NodeView::Host(text),
        TokenView::Comment(text) => NodeView::Comment(text),
        TokenView::Space => NodeView::Space,
        TokenView::Tab => NodeView::Tab,
        TokenView::CarriageReturn => NodeView::CarriageReturn,
        TokenView::NewLine => NodeView::NewLine,
    }
}

impl From<Tokens> for CstNode {
    fn from(token: Tokens) -> (node: CstNode)
        ensures
            node@ == node_of_token(token@),
    {
        match token {
            Tokens::HostOrIp(text) => CstNode::Host(text),
            Tokens::Comment(text) => CstNode::Comment(text),
            Tokens::Space => CstNode::Space,
            Tokens::Tab => CstNode::Tab,
            Tokens::CarriageReturn => CstNode::CarriageReturn,
            Tokens::NewLine => CstNode::NewLine,
        }
    }
}

impl vstd::std_specs::convert::FromSpecImpl<Tokens> for CstNode {
    open spec fn obeys_from_spec() -> bool {
        true
    }

    open spec fn from_spec(token: Tokens) -> CstNode {
        match token {
            Tokens::HostOrIp(text) => CstNode::Host(text),
            Tokens::Comment(text) => CstNode::Comment(text),
            Tokens::Space => CstNode::Space,
            Tokens::Tab => CstNode::Tab,
            Tokens::CarriageReturn => CstNode::CarriageReturn,
            Tokens::NewLine => CstNode::NewLine,
        }
    }
}

impl CstNode {
    /// The text that the node writes.
    pub fn to_string(&self) -> (r: String)
        ensures
            r@ == self@.text(),
    {
        let mut out = String::new();
        self.write_to(&mut out);
        assert(out@ =~= self@.text());
        out
    }

    /// Appends the text of the node to `out`.
    pub fn write_to(&self, out: &mut String)
        ensures
            final(out)@ == old(out)@ + self@.text(),
    {
        match self {
            CstNode::Host(text) => {
                out.append(text.as_str());
            },
            CstNode::IP(ip) => {
                let text = ip.to_text();
                out.append(text.as_str());
            },
            CstNode::Comment(text) => {
                let ghost before = out@;
                out.push('#');
                out.append(text.as_str());
                assert(out@ =~= before + (seq!['#'] + text@));
            },
            CstNode::Space => {
                out.push(' ');
            },
            CstNode::Tab => {
                out.push('\t');
            },
            CstNode::CarriageReturn => {
                out.push('\r');
            },
            CstNode::NewLine => {
                out.push('\n');
            },
        }
    }
}

/// The nodes of a tree: a small vector that holds a short fragment without
/// allocating.
#[verifier::external_body]
pub struct Nodes {
    inner: SmallVec<[CstNode; 6]>,
}

/// The nodes that a store holds, first to last.
pub uninterp spec fn nodes_of(s: Nodes) -> Seq<CstNode>;

/// `SmallVec::new`: a vector without items.
#[verifier::external_body]
fn nodes_new() -> (s: Nodes)
    ensures
        nodes_of(s) == Seq::<CstNode>::empty(),
{
    Nodes { inner: SmallVec::new() }
}

/// `SmallVec::try_reserve_exact`: asks for room for `additional` more items
/// and leaves the items as they are, whether or not the room was had.
#[verifier::external_body]
fn nodes_reserve(s: &mut Nodes, additional: usize)
    ensures
        nodes_of(*final(s)) == nodes_of(*old(s)),
{
    let _ = s.inner.try_reserve_exact(additional);
}

/// `SmallVec::push`: the item is added behind the others, which stay as
/// they are. As with `Vec::push`, running out of memory is not modelled.
#[verifier::external_body]
fn nodes_push(s: &mut Nodes, node: CstNode)
    ensures
        nodes_of(*final(s)) == nodes_of(*old(s)).push(node),
{
    s.inner.push(node)
}

/// `SmallVec::extend`: the items of `more` are added behind the others, in
/// their order.
#[verifier::external_body]
fn nodes_extend(s: &mut Nodes, more: Vec<CstNode>)
    ensures
        nodes_of(*final(s)) == nodes_of(*old(s)) + more@,
{
    s.inner.extend(more)
}

/// `SmallVec::drain`, with the iterator dropped at once: the items from
/// place `start` up to, not including, place `end` leave, and those
/// behind them move up. The call panics where `start` lies behind `end`
/// or `end` behind the last item.
#[verifier::external_body]
fn nodes_drain(s: &mut Nodes, start: usize, end: usize)
    requires
        start <= end <= nodes_of(*old(s)).len(),
    ensures
        nodes_of(*final(s)) == nodes_of(*old(s)).take(start as int) + nodes_of(*old(s)).skip(
            end as int,
        ),
{
    s.inner.drain(start..end);
}

/// `SmallVec::as_slice`: the items as a slice.
#[verifier::external_body]
fn nodes_as_slice(s: &Nodes) -> (r: &[CstNode])
    ensures
        r@ == nodes_of(*s),
{
    s.inner.as_slice()
}

/// `RangeInclusive::start`: the lower bound of the range, as long as the
/// range has not been iterated to its end.
pub assume_specification<Idx>[ RangeInclusive::<Idx>::start ](range: &RangeInclusive<Idx>) -> (r:
    &Idx)
    ensures
        !range@.exhausted ==> *r == range@.start,
;

/// `RangeInclusive::end`: the upper bound of the range, as long as the
/// range has not been iterated to its end.
pub assume_specification<Idx>[ RangeInclusive::<Idx>::end ](range: &RangeInclusive<Idx>) -> (r:
    &Idx)
    ensures
        !range@.exhausted ==> *r == range@.end,
;

/// A range of places in a tree.
pub trait NodeRange {
    /// The first place of the range.
    spec fn first(&self) -> int;

    /// The place behind the last place of the range.
    spec fn behind(&self) -> int;

    /// Whether the range can be read: an inclusive range can, as long as
    /// it has not been iterated to its end.
    spec fn is_whole(&self) -> bool;

    /// The first place and the place behind the last.
    fn bounds(&self) -> (r: (usize, usize))
        requires
            self.is_whole(),
            self.behind() <= usize::MAX,
        ensures
            r.0 == self.first(),
            r.1 == self.behind(),
    ;
}

impl NodeRange for Range<usize> {
    open spec fn first(&self) -> int {
        self.start as int
    }

    open spec fn behind(&self) -> int {
        self.end as int
    }

    open spec fn is_whole(&self) -> bool {
        true
    }

    fn bounds(&self) -> (r: (usize, usize)) {
        (self.start, self.end)
    }
}

impl NodeRange for RangeInclusive<usize> {
    open spec fn first(&self) -> int {
        self@.start as int
    }

    open spec fn behind(&self) -> int {
        self@.end + 1
    }

    open spec fn is_whole(&self) -> bool {
        !self@.exhausted
    }

    fn bounds(&self) -> (r: (usize, usize)) {
        (*self.start(), *self.end() + 1)
    }
}

/// A concrete syntax tree: the nodes of a document in order. `LENGTH` is
/// the number of nodes for which room is asked when the tree is made; the
/// tree grows as needed.
pub struct Cst<const LENGTH: usize> {
    pub nodes: Nodes,
}

impl<const LENGTH: usize> View for Cst<LENGTH> {
    type V = Seq<NodeView>;

    open spec fn view(&self) -> Seq<NodeView> {
        node_views(nodes_of(self.nodes))
    }
}

impl<const LENGTH: usize> Cst<LENGTH> {
    /// A tree without nodes.
    pub fn new() -> (r: Self)
        ensures
            r@ == Seq::<NodeView>::empty(),
    {
        let mut nodes = nodes_new();
        nodes_reserve(&mut nodes, LENGTH);
        let r = Cst { nodes };
        assert(r@ =~= Seq::<NodeView>::empty());
        r
    }

    /// The number of nodes.
    pub fn len(&self) -> (n: usize)
        ensures
            n == self@.len(),
    {
        nodes_as_slice(&self.nodes).len()
    }

    /// The nodes, in order.
    pub fn as_slice(&self) -> (s: &[CstNode])
        ensures
            node_views(s@) == self@,
    {
        nodes_as_slice(&self.nodes)
    }

    /// Removes the nodes at the places of `range`; the nodes behind them
    /// move up. The range is `first..behind` or `first..=last`, and has to
    /// lie within the tree.
    pub fn remove_nodes<R: NodeRange>(&mut self, range: R)
        requires
            range.is_whole(),
            0 <= range.first() <= range.behind() <= old(self)@.len(),
        ensures
            final(self)@ == old(self)@.take(range.first()) + old(self)@.skip(range.behind()),
    {
        let len = self.len();
        let (start, end) = range.bounds();
        nodes_drain(&mut self.nodes, start, end);
        assert(self@ =~= old(self)@.take(range.first()) + old(self)@.skip(range.behind()));
    }

    /// Adds `nodes` at the end, in their order.
    pub fn add_nodes(&mut self, nodes: Vec<CstNode>)
        ensures
            final(self)@ == old(self)@ + node_views(nodes@),
    {
        nodes_extend(&mut self.nodes, nodes);
        assert(self@ =~= old(self)@ + node_views(nodes@));
    }

    /// Adds `node` at the end.
    pub fn add_node(&mut self, node: CstNode)
        ensures
            final(self)@ == old(self)@.push(node@),
    {
        nodes_push(&mut self.nodes, node);
    }

    /// The text of the document: what its nodes write, in order.
    pub fn to_string(&self) -> (r: String)
        ensures
            r@ == render(self@),
    {
        let nodes = nodes_as_slice(&self.nodes);
        let mut out = String::new();
        let mut i: usize = 0;
        assert(self@.take(0) =~= Seq::<NodeView>::empty());
        while i < nodes.len()
            invariant
                i <= nodes.len(),
                node_views(nodes@) == self@,
                out@ == render(self@.take(i as int)),
            decreases nodes.len() - i,
        {
            nodes[i].write_to(&mut out);
            proof {
                let next = self@.take(i + 1);
                assert(next.drop_last() =~= self@.take(i as int));
                assert(next.last() == nodes@[i as int]@);
            }
            i = i + 1;
        }
        assert(self@.take(nodes.len() as int) =~= self@);
        out
    }
}

} // verus!
