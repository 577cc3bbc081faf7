//! Adding an entry to a document.

use crate::address::{address_value, IpAddress};
use crate::document::Error;
use crate::cst::{node_views, render, Cst, CstNode, NodeView};
use crate::parser::ErrorView;
use vstd::prelude::*;
use vstd::string::StrSliceExecFns;
use vstd::utf8::encode_utf8;

verus! {

/// The nodes of an entry: the comment on a line of its own, where there is
/// one, then the address, a space, the alias and a line end.
pub open spec fn entry_nodes(ip: IpAddress, host: Seq<char>, comment: Option<Seq<char>>) -> Seq<
    NodeView,
> {
    let line = seq![NodeView::IP(ip), NodeView::Space, NodeView::Host(host), NodeView::NewLine];
    match comment {
        Some(text) => seq![NodeView::Comment(text), NodeView::NewLine] + line,
        None => line,
    }
}

/// The view of a text that may be missing.
pub open spec fn text_of(comment: Option<String>) -> Option<Seq<char>> {
    match comment {
        Some(text) => Some(text@),
        None => None,
    }
}

/// The bytes to put behind a document so that it maps `host` to the
/// address `ip`, with `comment` on the line before. Where `ip` is not the
/// text of an address nothing is made.
pub fn execute(ip: String, host: String, comment: Option<String>) -> (r: Result<Vec<u8>, Error>)
    ensures
        match address_value(ip@) {
            Some(addr) => r matches Ok(output) && output@ == encode_utf8(
                render(entry_nodes(addr, host@, text_of(comment))),
            ),
            None => r matches Err(Error::Parser(e)) && e@ == ErrorView::InvalidIp(ip@),
        },
{
    let addr = match IpAddress::parse(ip.as_str()) {
        Some(addr) => addr,
        None => {
            return Err(Error::Parser(crate::parser::Error::InvalidIp(ip)));
        },
    };
    let mut nodes: Vec<CstNode> = Vec::new();
    if let Some(comment) = comment {
        nodes.push(CstNode::Comment(comment));
        nodes.push(CstNode::NewLine);
    }
    nodes.push(CstNode::IP(addr));
    nodes.push(CstNode::Space);
    nodes.push(CstNode::Host(host));
    nodes.push(CstNode::NewLine);
    assert(node_views(nodes@) =~= entry_nodes(addr, host@, text_of(comment)));
    let mut cst = Cst::<6>::new();
    cst.add_nodes(nodes);
    assert(cst@ =~= entry_nodes(addr, host@, text_of(comment)));
    let text = cst.to_string();
    Ok(text.as_str().as_bytes_vec())
}

} // verus!
