//! Listing the entries of a document.

use crate::address::address_text;
use crate::document::Error;
use crate::cst::{CstNode, NodeView};
use crate::parser::{parse_tokens, Parser};
use crate::tokenizer::{read_chunks, tokenize};
use crate::tokens::TokenView;
use crate::visitor::{walk, CstVisitor};
use vstd::prelude::*;
use vstd::string::StrSliceExecFns;
use vstd::utf8::encode_utf8;

verus! {

/// The listing so far.
pub struct Listing {
    /// Whether the line that is being listed has an alias.
    pub print_new_line: bool,
    /// What has been written.
    pub output: Seq<char>,
}

impl Listing {
    /// The listing after `node`: an address is written as it is, an alias
    /// behind a tab, and a line end only behind a line that has an alias.
    pub open spec fn step(self, node: NodeView) -> Listing {
        match node {
            NodeView::Host(host) => Listing {
                print_new_line: true,
                output: self.output + seq!['\t'] + host,
            },
            NodeView::IP(ip) => Listing {
                print_new_line: false,
                output: self.output + address_text(ip),
            },
            NodeView::NewLine => if self.print_new_line {
                Listing { print_new_line: false, output: self.output + seq!['\n'] }
            } else {
                self
            },
            _ => self,
        }
    }
}

/// The listing of the first `n` of `nodes`.
pub open spec fn listing(nodes: Seq<NodeView>, n: int) -> Listing
    decreases n,
{
    if n <= 0 || n > nodes.len() {
        Listing { print_new_line: false, output: Seq::<char>::empty() }
    } else {
        listing(nodes, n - 1).step(nodes[n - 1])
    }
}

/// Writes the entries of a tree, one to a line.
#[derive(Debug)]
pub struct Visitor {
    print_new_line: bool,
    output: String,
}

impl View for Visitor {
    type V = Listing;

    closed spec fn view(&self) -> Listing {
        Listing { print_new_line: self.print_new_line, output: self.output@ }
    }
}

impl Visitor {
    /// A visitor that has written nothing yet.
    pub fn new() -> (r: Self)
        ensures
            r@ == (Listing { print_new_line: false, output: Seq::<char>::empty() }),
    {
        Visitor { print_new_line: false, output: String::new() }
    }

    /// What the visitor has written.
    pub fn into_output(self) -> (r: String)
        ensures
            r@ == self@.output,
    {
        self.output
    }
}

impl CstVisitor for Visitor {
    type State = Listing;

    open spec fn state(&self) -> Listing {
        self@
    }

    open spec fn next_state(s: Listing, i: int, node: NodeView) -> Listing {
        s.step(node)
    }

    open spec fn goes_on(s: Listing, i: int, node: NodeView) -> bool {
        true
    }

    fn visit(&mut self, _idx: usize, node: &CstNode) -> (r: Option<()>) {
        match node {
            CstNode::Host(host) => {
                self.print_new_line = true;
                self.output.push('\t');
                self.output.append(host.as_str());
                assert(self.output@ =~= old(self).output@ + seq!['\t'] + host@);
            },
            CstNode::IP(ip) => {
                let text = ip.to_text();
                self.output.append(text.as_str());
                self.print_new_line = false;
            },
            CstNode::NewLine => {
                if self.print_new_line {
                    self.print_new_line = false;
                    self.output.push('\n');
                }
            },
            _ => {},
        }
        assert(self@.output =~= old(self)@.step(node@).output);
        Some(())
    }
}

/// A walk from the listing of the first `i` nodes ends in the listing of
/// all of them.
proof fn lemma_walk(nodes: Seq<NodeView>, i: int)
    requires
        0 <= i <= nodes.len(),
    ensures
        walk::<Visitor>(listing(nodes, i), nodes, i) == listing(nodes, nodes.len() as int),
    decreases nodes.len() - i,
{
    if i < nodes.len() {
        lemma_walk(nodes, i + 1);
    }
}

/// The listing of the document `input`: for every entry its address and,
/// each behind a tab, its aliases.
pub fn execute(input: &[u8], _with_comments: bool) -> (r: Result<Vec<u8>, Error>)
    ensures
        match read_chunks(Seq::<TokenView>::empty(), input@, true) {
            None => r matches Err(Error::Tokenizer(_)),
            Some(tokens) => match parse_tokens(tokens) {
                Err(e) => r matches Err(Error::Parser(err)) && err@ == e,
                Ok(nodes) => r matches Ok(output) && output@ == encode_utf8(
                    listing(nodes, nodes.len() as int).output,
                ),
            },
        },
{
    let tokens = match tokenize(input) {
        Ok(tokens) => tokens,
        Err(e) => {
            return Err(Error::Tokenizer(e));
        },
    };
    let mut parser = Parser::builder().visitor(Visitor::new()).build();
    let cst = match parser.parse::<1>(tokens) {
        Ok(cst) => cst,
        Err(e) => {
            return Err(Error::Parser(e));
        },
    };
    proof {
        lemma_walk(cst@, 0);
    }
    parser.visit(&cst);
    match parser.visitor {
        Some(visitor) => Ok(visitor.into_output().as_str().as_bytes_vec()),
        None => Ok(Vec::new()),
    }
}

} // verus!
