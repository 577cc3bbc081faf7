//! Removing an alias from a document.

use crate::document::Error;
use crate::cst::{render, CstNode, NodeView};
use crate::parser::{parse_tokens, Parser};
use crate::tokenizer::{read_chunks, tokenize};
use crate::tokens::TokenView;
use crate::visitor::{walk, CstVisitor};
use vstd::prelude::*;
use vstd::slice::slice_to_vec;
use vstd::string::StrSliceExecFns;
use vstd::utf8::encode_utf8;

verus! {

/// What the visitor that looks for an alias has learnt.
pub struct Found {
    /// The place behind the last line end that was seen.
    pub start: int,
    /// The place of the line end that ended the walk, or 0.
    pub end: int,
    /// How many aliases were seen on the line, counted up to `u32::MAX`.
    pub hosts_on_line: int,
    /// The place of the first alias that is the one looked for.
    pub host_to_remove_pos: Option<int>,
    /// The alias looked for.
    pub host: Seq<char>,
}

/// Looks for the first alias with a given text and takes the measure of
/// its line.
#[derive(Debug)]
pub struct Visitor<'a> {
    start: usize,
    end: usize,
    hosts_on_line: u32,
    host_to_remove_pos: Option<usize>,
    host: &'a str,
}

impl<'a> View for Visitor<'a> {
    type V = Found;

    closed spec fn view(&self) -> Found {
        Found {
            start: self.start as int,
            end: self.end as int,
            hosts_on_line: self.hosts_on_line as int,
            host_to_remove_pos: match self.host_to_remove_pos {
                Some(pos) => Some(pos as int),
                None => None,
            },
            host: self.host@,
        }
    }
}

impl Found {
    /// Where the walk starts: nothing seen, nothing found.
    pub open spec fn new(host: Seq<char>) -> Found {
        Found { start: 0, end: 0, hosts_on_line: 0, host_to_remove_pos: None, host }
    }

    /// Whether `node` is the alias looked for.
    pub open spec fn is_target(self, node: NodeView) -> bool {
        node == NodeView::Host(self.host)
    }

    /// The state after `node` at place `i`. A line end behind a match ends
    /// the line of the match; any other line end starts a line. An alias
    /// is counted, and the first one that is the target is the match.
    pub open spec fn step(self, i: int, node: NodeView) -> Found {
        match node {
            NodeView::NewLine => if self.host_to_remove_pos is Some {
                Found { end: i, ..self }
            } else {
                Found { start: i + 1, hosts_on_line: 0, ..self }
            },
            NodeView::Host(_) => Found {
                host_to_remove_pos: if self.is_target(node) && self.host_to_remove_pos is None {
                    Some(i)
                } else {
                    self.host_to_remove_pos
                },
                hosts_on_line: if self.hosts_on_line < u32::MAX {
                    self.hosts_on_line + 1
                } else {
                    self.hosts_on_line
                },
                ..self
            },
            _ => self,
        }
    }

    /// The walk goes on until a line end stands behind a match.
    pub open spec fn goes_on(self, node: NodeView) -> bool {
        !(node is NewLine && self.host_to_remove_pos is Some)
    }

    /// The first place to remove: the match where its line has more than
    /// one alias, else the start of the line.
    pub open spec fn first(self) -> int {
        if self.hosts_on_line > 1 && self.host_to_remove_pos is Some {
            self.host_to_remove_pos->0
        } else {
            self.start
        }
    }

    /// The last place to remove: the match where its line has more than
    /// one alias, else the recorded end of the line.
    pub open spec fn last(self) -> int {
        if self.hosts_on_line > 1 && self.host_to_remove_pos is Some {
            self.host_to_remove_pos->0
        } else {
            self.end
        }
    }
}

impl<'a> Visitor<'a> {
    /// A visitor that looks for the alias `host`.
    pub fn new(host: &'a str) -> (r: Self)
        ensures
            r@ == Found::new(host@),
    {
        Self { start: 0, end: 0, host, hosts_on_line: 0, host_to_remove_pos: None }
    }

    /// The first place to remove.
    pub fn get_start(&self) -> (r: Option<usize>)
        ensures
            r matches Some(first) && first == self@.first(),
    {
        if self.hosts_on_line > 1 {
            match self.host_to_remove_pos {
                Some(pos) => Some(pos),
                None => Some(self.start),
            }
        } else {
            Some(self.start)
        }
    }

    /// The last place to remove.
    pub fn get_end(&self) -> (r: Option<usize>)
        ensures
            r matches Some(last) && last == self@.last(),
    {
        if self.hosts_on_line > 1 {
            match self.host_to_remove_pos {
                Some(pos) => Some(pos),
                None => Some(self.end),
            }
        } else {
            Some(self.end)
        }
    }

    /// Whether the alias was found.
    pub fn has_found(&self) -> (r: bool)
        ensures
            r == self@.host_to_remove_pos is Some,
    {
        self.host_to_remove_pos.is_some()
    }
}

impl<'a> CstVisitor for Visitor<'a> {
    type State = Found;

    open spec fn state(&self) -> Found {
        self@
    }

    open spec fn next_state(s: Found, i: int, node: NodeView) -> Found {
        s.step(i, node)
    }

    open spec fn goes_on(s: Found, i: int, node: NodeView) -> bool {
        s.goes_on(node)
    }

    fn visit(&mut self, idx: usize, node: &CstNode) -> (r: Option<()>) {
        if let CstNode::NewLine = node {
            if self.host_to_remove_pos.is_some() {
                self.end = idx;
                return None;
            }
            self.start = idx + 1;
            self.hosts_on_line = 0;
        }
        if let CstNode::Host(host) = node {
            if self.host_to_remove_pos.is_none() && host.as_str().eq(self.host) {
                self.host_to_remove_pos = Some(idx);
            }
            if self.hosts_on_line < u32::MAX {
                self.hosts_on_line += 1;
            }
        }
        Some(())
    }
}

// ---------------------------------------------------------------------------
// What is removed
// ---------------------------------------------------------------------------

/// The first place at or behind `from` where the alias `host` stands.
pub open spec fn first_match(nodes: Seq<NodeView>, host: Seq<char>, from: int) -> Option<int>
    decreases nodes.len() - from,
{
    if from < 0 || from >= nodes.len() {
        None
    } else if nodes[from] == NodeView::Host(host) {
        Some(from)
    } else {
        first_match(nodes, host, from + 1)
    }
}

/// Where the line of place `i` starts: behind the last line end before
/// `i`, or at 0.
pub open spec fn line_start(nodes: Seq<NodeView>, i: int) -> int
    decreases i,
{
    if i <= 0 {
        0
    } else if i <= nodes.len() && nodes[i - 1] is NewLine {
        i
    } else {
        line_start(nodes, i - 1)
    }
}

/// Where the line of place `i` ends: at the first line end at or behind
/// `i`, or at the last node where no line end follows.
pub open spec fn line_end(nodes: Seq<NodeView>, i: int) -> int
    decreases nodes.len() - i,
{
    if i < 0 || i >= nodes.len() {
        nodes.len() - 1
    } else if nodes[i] is NewLine {
        i
    } else {
        line_end(nodes, i + 1)
    }
}

/// How many aliases stand at the places from `from` up to, not
/// including, `to`.
pub open spec fn hosts_between(nodes: Seq<NodeView>, from: int, to: int) -> int
    decreases to - from,
{
    if to <= from || to > nodes.len() || from < 0 {
        0
    } else {
        hosts_between(nodes, from, to - 1) + if nodes[to - 1] is Host {
            1int
        } else {
            0int
        }
    }
}

/// The places to remove, first and last, where the alias `host` stands in
/// `nodes`: the first such alias alone where its line has other aliases,
/// else its whole line with the line end.
pub open spec fn removal(nodes: Seq<NodeView>, host: Seq<char>) -> Option<(int, int)> {
    match first_match(nodes, host, 0) {
        None => None,
        Some(m) => {
            let first = line_start(nodes, m);
            let last = line_end(nodes, m);
            if hosts_between(nodes, first, last + 1) > 1 {
                Some((m, m))
            } else {
                Some((first, last))
            }
        },
    }
}

/// The nodes without those to remove.
pub open spec fn without_host(nodes: Seq<NodeView>, host: Seq<char>) -> Seq<NodeView> {
    match removal(nodes, host) {
        None => nodes,
        Some((first, last)) => nodes.take(first) + nodes.skip(last + 1),
    }
}

/// What the walk keeps true from node to node.
spec fn walking(s: Found, nodes: Seq<NodeView>, host: Seq<char>, i: int) -> bool {
    &&& 0 <= i <= nodes.len()
    &&& s.host == host
    &&& s.start == line_start(nodes, i)
    &&& s.end == 0
    &&& s.hosts_on_line == capped(hosts_between(nodes, s.start, i))
    &&& match s.host_to_remove_pos {
        Some(m) => s.start <= m < i && first_match(nodes, host, 0) == Some(m),
        None => forall|j: int| 0 <= j < i ==> nodes[j] != NodeView::Host(host),
    }
}

spec fn capped(n: int) -> int {
    if n < u32::MAX {
        n
    } else {
        u32::MAX as int
    }
}

/// What the walk has found when it is over.
spec fn walked(s: Found, nodes: Seq<NodeView>, host: Seq<char>) -> bool {
    match first_match(nodes, host, 0) {
        None => s.host_to_remove_pos is None,
        Some(m) => {
            &&& s.host_to_remove_pos == Some(m)
            &&& 0 <= m < nodes.len()
            &&& s.start == line_start(nodes, m)
            &&& 0 <= s.start <= m <= line_end(nodes, m) < nodes.len()
            &&& s.hosts_on_line == capped(hosts_between(nodes, s.start, line_end(nodes, m) + 1))
            &&& s.end == 0 || s.end == line_end(nodes, m)
            &&& s.end == 0 ==> line_end(nodes, m) == nodes.len() - 1
        },
    }
}

proof fn lemma_line_start(nodes: Seq<NodeView>, i: int)
    requires
        0 <= i <= nodes.len(),
    ensures
        0 <= line_start(nodes, i) <= i,
        forall|j: int| line_start(nodes, i) <= j < i ==> !(#[trigger] nodes[j] is NewLine),
        forall|m: int| line_start(nodes, i) <= m <= i ==> line_start(nodes, m) == line_start(nodes, i),
    decreases i,
{
    if i > 0 && !(nodes[i - 1] is NewLine) {
        lemma_line_start(nodes, i - 1);
    }
}

proof fn lemma_line_end(nodes: Seq<NodeView>, m: int, e: int)
    requires
        0 <= m <= e < nodes.len(),
        forall|j: int| m <= j < e ==> !(#[trigger] nodes[j] is NewLine),
        nodes[e] is NewLine || e == nodes.len() - 1,
    ensures
        line_end(nodes, m) == e,
    decreases e - m,
{
    if m < e {
        assert(!(nodes[m] is NewLine));
        lemma_line_end(nodes, m + 1, e);
    } else if !(nodes[e] is NewLine) {
        assert(line_end(nodes, e + 1) == nodes.len() - 1);
    }
}

proof fn lemma_first_match(nodes: Seq<NodeView>, host: Seq<char>, from: int, to: int)
    requires
        0 <= from <= to <= nodes.len(),
        forall|j: int| from <= j < to ==> nodes[j] != NodeView::Host(host),
    ensures
        first_match(nodes, host, from) == first_match(nodes, host, to),
    decreases to - from,
{
    if from < to {
        lemma_first_match(nodes, host, from + 1, to);
    }
}

proof fn lemma_hosts_more(nodes: Seq<NodeView>, from: int, to: int)
    requires
        0 <= from <= to < nodes.len(),
    ensures
        hosts_between(nodes, from, to + 1) == hosts_between(nodes, from, to) + if nodes[to] is Host {
            1int
        } else {
            0int
        },
        hosts_between(nodes, from, to) >= 0,
    decreases to - from,
{
    if from < to {
        lemma_hosts_more(nodes, from, to - 1);
    }
}

/// The walk finds the first alias that is the target, and the measure of
/// its line.
proof fn lemma_walk(s: Found, nodes: Seq<NodeView>, host: Seq<char>, i: int)
    requires
        walking(s, nodes, host, i),
    ensures
        walked(walk::<Visitor>(s, nodes, i), nodes, host),
    decreases nodes.len() - i,
{
    lemma_line_start(nodes, i);
    if i >= nodes.len() {
        match s.host_to_remove_pos {
            Some(m) => {
                lemma_line_end(nodes, m, nodes.len() - 1);
            },
            None => {
                lemma_first_match(nodes, host, 0, nodes.len() as int);
            },
        }
    } else {
        let node = nodes[i];
        let next = s.step(i, node);
        lemma_hosts_more(nodes, s.start, i);
        if node is NewLine && s.host_to_remove_pos is Some {
            let m = s.host_to_remove_pos->0;
            lemma_line_end(nodes, m, i);
        } else {
            assert(walking(next, nodes, host, i + 1)) by {
                lemma_line_start(nodes, i + 1);
                if node is NewLine {
                } else if node is Host {
                    if s.is_target(node) && s.host_to_remove_pos is None {
                        lemma_first_match(nodes, host, 0, i);
                    }
                }
            }
            lemma_walk(next, nodes, host, i + 1);
        }
    }
}

/// What removing the alias `host` makes of the input `input` whose nodes
/// are `nodes`: the input as it is where the alias does not stand in it,
/// else the text of the nodes that are left.
pub open spec fn remove_output(input: Seq<u8>, nodes: Seq<NodeView>, host: Seq<char>) -> Seq<u8> {
    if first_match(nodes, host, 0) is None {
        input
    } else {
        encode_utf8(render(without_host(nodes, host)))
    }
}

/// A document in which the alias does not stand comes back unchanged.
pub proof fn lemma_absent_host(input: Seq<u8>, nodes: Seq<NodeView>, host: Seq<char>)
    requires
        forall|i: int| 0 <= i < nodes.len() ==> nodes[i] != NodeView::Host(host),
    ensures
        remove_output(input, nodes, host) == input,
        without_host(nodes, host) == nodes,
{
    lemma_first_match(nodes, host, 0, nodes.len() as int);
}

/// Removes the first alias `host` from the document `input` and returns
/// the document that is left. Where the line of the alias has other
/// aliases only the alias leaves, and the blanks around it stay; else the
/// whole line leaves, with its line end. A document without the alias
/// comes back as it is.
pub fn execute(input: &[u8], host: String) -> (r: Result<Vec<u8>, Error>)
    ensures
        match read_chunks(Seq::<TokenView>::empty(), input@, true) {
            None => r matches Err(Error::Tokenizer(_)),
            Some(tokens) => match parse_tokens(tokens) {
                Err(e) => r matches Err(Error::Parser(err)) && err@ == e,
                Ok(nodes) => r matches Ok(output) && output@ == remove_output(input@, nodes, host@),
            },
        },
{
    let tokens = match tokenize(input) {
        Ok(tokens) => tokens,
        Err(e) => {
            return Err(Error::Tokenizer(e));
        },
    };
    let mut parser = Parser::builder().visitor(Visitor::new(host.as_str())).build();
    let mut cst = match parser.parse::<1>(tokens) {
        Ok(cst) => cst,
        Err(e) => {
            return Err(Error::Parser(e));
        },
    };
    let ghost nodes = cst@;
    proof {
        lemma_walk(Found::new(host@), nodes, host@, 0);
    }
    parser.visit(&cst);
    let visitor = match parser.get_visitor() {
        Some(visitor) => visitor,
        None => {
            return Ok(slice_to_vec(input));
        },
    };
    if visitor.has_found() {
        let start = match visitor.get_start() {
            Some(start) => start,
            None => 0,
        };
        let end = match visitor.get_end() {
            Some(end) => end,
            None => 0,
        };
        let end = if visitor.hosts_on_line <= 1 && visitor.end == 0 {
            cst.len() - 1
        } else {
            end
        };
        cst.remove_nodes(start..=end);
        let text = cst.to_string();
        Ok(text.as_str().as_bytes_vec())
    } else {
        Ok(slice_to_vec(input))
    }
}

} // verus!
