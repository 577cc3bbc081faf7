//! The parser: from tokens to the nodes of a tree.
//!
//! Every token gives one node. A word of a line is its address if it is
//! the first word of the line, and an alias otherwise. The parser carries
//! one flag from token to token, which says whether the line already has
//! its address, and looks one token ahead to see that a comment ends its
//! line and that a carriage return stands before a line end.

use crate::address::{address_text, address_value, IpAddress};
use crate::cst::{node_of_token, render, Cst, CstNode, NodeView};
use crate::lookahead::LookaheadIter;
use crate::tokens::{token_views, tokens_source, TokenView, Tokens};
use crate::visitor::{walk, CstVisitor};
use vstd::prelude::*;
use vstd::std_specs::iter::IteratorSpec;
use vstd::string::StringExecFns;

verus! {

/// Why a sequence of tokens is no document.
#[derive(Debug)]
pub enum Error {
    /// A token stands where the line grammar has no place for it. After a
    /// lone carriage return it is the node that was found, or a line end
    /// where the input ended.
    UnexpectedToken(CstNode),
    /// The word in the place of the address is not the text of one.
    InvalidIp(String),
    /// A token is missing.
    ExpectingToken(CstNode),
}

/// What an error is to a contract.
pub enum ErrorView {
    UnexpectedToken(NodeView),
    InvalidIp(Seq<char>),
    ExpectingToken(NodeView),
}

impl View for Error {
    type V = ErrorView;

    open spec fn view(&self) -> ErrorView {
        match self {
            Error::UnexpectedToken(node) => ErrorView::UnexpectedToken(node@),
            Error::InvalidIp(text) => ErrorView::InvalidIp(text@),
            Error::ExpectingToken(node) => ErrorView::ExpectingToken(node@),
        }
    }
}

impl ErrorView {
    /// The message of the error.
    pub open spec fn message(self) -> Seq<char> {
        match self {
            ErrorView::UnexpectedToken(node) => "unexpected token "@ + node.text(),
            ErrorView::InvalidIp(text) => "Invalid ip "@ + text,
            ErrorView::ExpectingToken(node) => "Expecting token: "@ + node.text(),
        }
    }
}

impl Error {
    /// The message of the error.
    pub fn to_string(&self) -> (r: String)
        ensures
            r@ == self@.message(),
    {
        match self {
            Error::UnexpectedToken(node) => {
                let mut out = String::from_str("unexpected token ");
                node.write_to(&mut out);
                out
            },
            Error::InvalidIp(text) => {
                let mut out = String::from_str("Invalid ip ");
                out.append(text.as_str());
                out
            },
            Error::ExpectingToken(node) => {
                let mut out = String::from_str("Expecting token: ");
                node.write_to(&mut out);
                out
            },
        }
    }
}

/// The node for a word: an alias where the line has its address already,
/// else the address that the word denotes.
pub open spec fn classify(text: Seq<char>, is_ip_parsed: bool) -> Result<NodeView, ErrorView> {
    if is_ip_parsed {
        Ok(NodeView::Host(text))
    } else {
        match address_value(text) {
            Some(ip) => Ok(NodeView::IP(ip)),
            None => Err(ErrorView::InvalidIp(text)),
        }
    }
}

/// Whether a line may end here: at a line end, at a carriage return, or
/// where the tokens end.
pub open spec fn ends_line(next: Option<TokenView>) -> bool {
    next is None || next == Some(TokenView::NewLine) || next == Some(TokenView::CarriageReturn)
}

/// The node for the token `token` with the token `next` behind it, and
/// whether the line has its address after it.
///
/// - A word is classified, and the line has its address from then on.
/// - A comment has to end its line, or it is the error.
/// - A carriage return has to stand before a line end, or what stands
///   behind it is the error: that token as a node, or a line end where
///   the tokens end.
/// - A line end starts a line, which has no address yet.
pub open spec fn parse_token(token: TokenView, next: Option<TokenView>, is_ip_parsed: bool) -> Result<
    (NodeView, bool),
    ErrorView,
> {
    match token {
        TokenView::HostOrIp(text) => match classify(text, is_ip_parsed) {
            Err(e) => Err(e),
            Ok(node) => Ok((node, true)),
        },
        TokenView::Comment(text) => if ends_line(next) {
            Ok((NodeView::Comment(text), is_ip_parsed))
        } else {
            Err(ErrorView::UnexpectedToken(NodeView::Comment(text)))
        },
        TokenView::Space => Ok((NodeView::Space, is_ip_parsed)),
        TokenView::Tab => Ok((NodeView::Tab, is_ip_parsed)),
        TokenView::CarriageReturn => match next {
            Some(TokenView::NewLine) => Ok((NodeView::CarriageReturn, is_ip_parsed)),
            Some(n) => Err(ErrorView::UnexpectedToken(node_of_token(n))),
            None => Err(ErrorView::UnexpectedToken(NodeView::NewLine)),
        },
        TokenView::NewLine => Ok((NodeView::NewLine, false)),
    }
}

/// The view of a token that may be missing.
pub open spec fn view_of(next: Option<Tokens>) -> Option<TokenView> {
    match next {
        Some(n) => Some(n@),
        None => None,
    }
}

/// The token behind the first, where there is one.
pub open spec fn second(tokens: Seq<TokenView>) -> Option<TokenView> {
    if tokens.len() >= 2 {
        Some(tokens[1])
    } else {
        None
    }
}

/// `nodes` in front of what `rest` gives, or the error of `rest`.
pub open spec fn and_then(nodes: Seq<NodeView>, rest: Result<Seq<NodeView>, ErrorView>) -> Result<
    Seq<NodeView>,
    ErrorView,
> {
    match rest {
        Ok(more) => Ok(nodes + more),
        Err(e) => Err(e),
    }
}

/// The nodes for `tokens`, read one by one with the next token in view, on
/// a line that has its address already if `is_ip_parsed` holds; or the
/// first error.
pub open spec fn parse_from(tokens: Seq<TokenView>, is_ip_parsed: bool) -> Result<
    Seq<NodeView>,
    ErrorView,
>
    decreases tokens.len(),
{
    if tokens.len() == 0 {
        Ok(Seq::<NodeView>::empty())
    } else {
        match parse_token(tokens[0], second(tokens), is_ip_parsed) {
            Err(e) => Err(e),
            Ok((node, flag)) => and_then(seq![node], parse_from(tokens.drop_first(), flag)),
        }
    }
}

/// The nodes of the document that `tokens` spell, or the first error.
pub open spec fn parse_tokens(tokens: Seq<TokenView>) -> Result<Seq<NodeView>, ErrorView> {
    parse_from(tokens, false)
}

/// Reads the word in the place of the address.
fn parse_ip(ip: String) -> (r: Result<IpAddress, Error>)
    ensures
        match address_value(ip@) {
            Some(addr) => r == Ok::<IpAddress, Error>(addr),
            None => r matches Err(e) && e@ == ErrorView::InvalidIp(ip@),
        },
{
    match IpAddress::parse(ip.as_str()) {
        Some(addr) => Ok(addr),
        None => Err(Error::InvalidIp(ip)),
    }
}

/// Gives a word its node and adds the node to the tree.
fn add_word<const LENGTH: usize>(cst: &mut Cst<LENGTH>, text: String, is_ip_parsed: bool) -> (r:
    Result<(), Error>)
    ensures
        match classify(text@, is_ip_parsed) {
            Ok(node) => r is Ok && final(cst)@ == old(cst)@.push(node),
            Err(e) => r matches Err(err) && err@ == e && final(cst)@ == old(cst)@,
        },
{
    if !is_ip_parsed {
        let ip = parse_ip(text)?;
        cst.add_node(CstNode::IP(ip));
    } else {
        cst.add_node(CstNode::Host(text));
    }
    Ok(())
}

/// Whether an exact copy of the token behind is a line end.
fn is_new_line(next: &Option<Tokens>) -> (r: bool)
    ensures
        r == (view_of(*next) == Some(TokenView::NewLine)),
{
    match next {
        Some(Tokens::NewLine) => true,
        _ => false,
    }
}

/// Whether a line may end at the token behind.
fn is_line_ending(next: &Option<Tokens>) -> (r: bool)
    ensures
        r == ends_line(view_of(*next)),
{
    match next {
        None => true,
        Some(Tokens::NewLine) => true,
        Some(Tokens::CarriageReturn) => true,
        Some(_) => false,
    }
}

/// Adds the node for one token, with the token behind it in view, and
/// returns the flag after it.
fn add_token<const LENGTH: usize>(
    cst: &mut Cst<LENGTH>,
    token: Tokens,
    next: Option<Tokens>,
    is_ip_parsed: bool,
) -> (r: Result<bool, Error>)
    ensures
        match parse_token(token@, view_of(next), is_ip_parsed) {
            Ok((node, flag)) => r == Ok::<bool, Error>(flag) && final(cst)@ == old(cst)@.push(node),
            Err(e) => r matches Err(err) && err@ == e,
        },
{
    match token {
        Tokens::HostOrIp(ip) => {
            add_word(cst, ip, is_ip_parsed)?;
            Ok(true)
        },
        Tokens::Comment(comment) => {
            if is_line_ending(&next) {
                cst.add_node(CstNode::Comment(comment));
                Ok(is_ip_parsed)
            } else {
                Err(Error::UnexpectedToken(CstNode::Comment(comment)))
            }
        },
        Tokens::Space => {
            cst.add_node(CstNode::Space);
            Ok(is_ip_parsed)
        },
        Tokens::Tab => {
            cst.add_node(CstNode::Tab);
            Ok(is_ip_parsed)
        },
        Tokens::CarriageReturn => {
            if is_new_line(&next) {
                cst.add_node(CstNode::CarriageReturn);
                Ok(is_ip_parsed)
            } else {
                match next {
                    Some(t) => Err(Error::UnexpectedToken(CstNode::from(t))),
                    None => Err(Error::UnexpectedToken(CstNode::NewLine)),
                }
            }
        },
        Tokens::NewLine => {
            cst.add_node(CstNode::NewLine);
            Ok(false)
        },
    }
}

/// One step of parsing: the node of the first token goes in front of the
/// nodes of the rest.
proof fn lemma_parse_step(rest: Seq<TokenView>, is_ip_parsed: bool, before: Seq<NodeView>)
    requires
        rest.len() > 0,
    ensures
        and_then(before, parse_from(rest, is_ip_parsed)) == match parse_token(
            rest[0],
            second(rest),
            is_ip_parsed,
        ) {
            Err(e) => Err(e),
            Ok((node, flag)) => and_then(before.push(node), parse_from(rest.drop_first(), flag)),
        },
{
    match parse_token(rest[0], second(rest), is_ip_parsed) {
        Err(_) => {},
        Ok((node, flag)) => {
            match parse_from(rest.drop_first(), flag) {
                Err(_) => {},
                Ok(more) => {
                    assert(before + (seq![node] + more) =~= before.push(node) + more);
                },
            }
        },
    }
}

/// Parses tokens into trees, and walks trees with a visitor of type `V`
/// where it has one.
#[derive(Debug)]
pub struct Parser<V> {
    pub visitor: Option<V>,
}

/// Makes a [`Parser`], with or without a visitor.
#[derive(Debug)]
pub struct ParserBuilder<V> {
    pub visitor: Option<V>,
}

impl<V> Default for ParserBuilder<V> {
    fn default() -> (r: Self)
        ensures
            r.visitor is None,
    {
        Self { visitor: None }
    }
}

impl<V> ParserBuilder<V> {
    /// Gives the parser that will be built the visitor `visitor`.
    pub fn visitor(self, visitor: V) -> (r: Self)
        ensures
            r.visitor == Some(visitor),
    {
        let mut builder = self;
        builder.visitor = Some(visitor);
        builder
    }

    /// The parser, with the visitor that the builder was given, if any.
    pub fn build(self) -> (r: Parser<V>)
        ensures
            r.visitor == self.visitor,
    {
        Parser { visitor: self.visitor }
    }
}

impl<V: CstVisitor> Parser<V> {
    /// Walks `cst` with the visitor, if there is one: shows it every node
    /// in order, with its place, until the visitor ends the walk or the
    /// nodes do.
    pub fn visit<const LENGTH: usize>(&mut self, cst: &Cst<LENGTH>)
        ensures
            match old(self).visitor {
                Some(v) => final(self).visitor matches Some(w) && w.state() == walk::<V>(
                    v.state(),
                    cst@,
                    0,
                ),
                None => final(self).visitor is None,
            },
    {
        let nodes = cst.as_slice();
        match &mut self.visitor {
            None => {},
            Some(visitor) => {
                let ghost start = visitor.state();
                let mut idx: usize = 0;
                while idx < nodes.len()
                    invariant_except_break
                        walk::<V>(start, cst@, 0) == walk::<V>(visitor.state(), cst@, idx as int),
                    invariant
                        idx <= nodes.len(),
                        crate::cst::node_views(nodes@) == cst@,
                    ensures
                        walk::<V>(start, cst@, 0) == visitor.state(),
                    decreases nodes.len() - idx,
                {
                    let r = visitor.visit(idx, &nodes[idx]);
                    if r.is_none() {
                        break;
                    }
                    idx = idx + 1;
                }
            },
        }
    }

    /// The visitor, if there is one.
    pub fn get_visitor(&self) -> (r: Option<&V>)
        ensures
            match self.visitor {
                Some(v) => r == Some(&v),
                None => r is None,
            },
    {
        self.visitor.as_ref()
    }
}

impl Default for Parser<()> {
    fn default() -> (r: Self)
        ensures
            r.visitor is None,
    {
        Self { visitor: None }
    }
}

impl<V> Parser<V> {
    /// A builder for a parser.
    pub fn builder() -> (r: ParserBuilder<V>)
        ensures
            r.visitor is None,
    {
        ParserBuilder { visitor: None }
    }

    /// The parser with the visitor `visitor` in place of its own.
    pub fn with_visitor(self, visitor: V) -> (r: Self)
        ensures
            r.visitor == Some(visitor),
    {
        Parser { visitor: Some(visitor) }
    }

    /// Parses `tokens` into a tree. Every token gives one node; the result
    /// is the tree of all the nodes, or the first error, with no tree.
    #[verifier::rlimit(40)]
    pub fn parse<const LENGTH: usize>(&self, tokens: Vec<Tokens>) -> (r: Result<Cst<LENGTH>, Error>)
        ensures
            match parse_tokens(token_views(tokens@)) {
                Ok(nodes) => r matches Ok(cst) && cst@ == nodes,
                Err(e) => r matches Err(err) && err@ == e,
            },
    {
        let ghost all = token_views(tokens@);
        let mut cst = Cst::<LENGTH>::new();
        let mut lookahead = LookaheadIter::new(tokens.into_iter());
        let mut is_ip_parsed = false;
        let ghost mut consumed: int = 0;
        assert(all.skip(0) =~= all);
        assert(tokens@.skip(0) =~= tokens@);
        assert(tokens@.len() > 0 ==> tokens@.drop_first() =~= tokens@.skip(1));
        assert(cst@ + Seq::<NodeView>::empty() =~= cst@);
        loop
            invariant
                lookahead.iter.obeys_prophetic_iter_laws(),
                0 <= consumed <= tokens.len(),
                all == token_views(tokens@),
                consumed < tokens.len() ==> lookahead.head == Some(tokens@[consumed])
                    && lookahead.iter.remaining() == tokens@.skip(consumed + 1),
                consumed == tokens.len() ==> lookahead.head is None,
                parse_tokens(all) == and_then(cst@, parse_from(all.skip(consumed), is_ip_parsed)),
            ensures
                parse_tokens(all) == Ok::<Seq<NodeView>, ErrorView>(cst@),
            decreases tokens.len() - consumed,
        {
            let ghost rest = all.skip(consumed);
            let ghost before = cst@;
            match lookahead.next() {
                None => {
                    assert(rest.len() == 0);
                    assert(before + Seq::<NodeView>::empty() =~= before);
                    break;
                },
                Some((token, next)) => {
                    assert(rest[0] == token@);
                    assert(second(rest) == view_of(next)) by {
                        if consumed + 1 < tokens.len() {
                            assert(tokens@.skip(consumed + 1)[0] == tokens@[consumed + 1]);
                            assert(rest[1] == tokens@[consumed + 1]@);
                        }
                    }
                    assert(rest.drop_first() =~= all.skip(consumed + 1));
                    assert(consumed + 1 < tokens.len() ==> tokens@.skip(consumed + 1).drop_first()
                        =~= tokens@.skip(consumed + 2));
                    proof {
                        lemma_parse_step(rest, is_ip_parsed, before);
                    }
                    match add_token(&mut cst, token, next, is_ip_parsed) {
                        Ok(flag) => {
                            proof {
                                consumed = consumed + 1;
                            }
                            is_ip_parsed = flag;
                        },
                        Err(e) => {
                            return Err(e);
                        },
                    }
                },
            }
        }
        Ok(cst)
    }
}

// ---------------------------------------------------------------------------
// What holds of every sequence of tokens
// ---------------------------------------------------------------------------

/// Whether the line of place `i` has its address before place `i`: a word
/// stands before `i` with no line end between it and `i`. At place 0 it is
/// `is_ip_parsed`.
pub open spec fn flag_at(tokens: Seq<TokenView>, i: int, is_ip_parsed: bool) -> bool
    decreases i,
{
    if i <= 0 || i > tokens.len() {
        is_ip_parsed
    } else {
        match tokens[i - 1] {
            TokenView::NewLine => false,
            TokenView::HostOrIp(_) => true,
            _ => flag_at(tokens, i - 1, is_ip_parsed),
        }
    }
}

/// The node of the token at place `i` of a document: a word is the
/// address of its line if the line has none yet, and an alias otherwise;
/// any other token has the node that stands for it.
pub open spec fn node_at(tokens: Seq<TokenView>, i: int, is_ip_parsed: bool) -> NodeView {
    match tokens[i] {
        TokenView::HostOrIp(text) => if flag_at(tokens, i, is_ip_parsed) {
            NodeView::Host(text)
        } else {
            NodeView::IP(address_value(text)->0)
        },
        other => node_of_token(other),
    }
}

proof fn lemma_flag_at_shift(tokens: Seq<TokenView>, i: int, is_ip_parsed: bool)
    requires
        1 <= i <= tokens.len(),
    ensures
        flag_at(tokens, i, is_ip_parsed) == flag_at(
            tokens.drop_first(),
            i - 1,
            flag_at(tokens, 1, is_ip_parsed),
        ),
    decreases i,
{
    let rest = tokens.drop_first();
    if i > 1 {
        assert(rest[i - 2] == tokens[i - 1]);
        lemma_flag_at_shift(tokens, i - 1, is_ip_parsed);
    }
}

/// A line has its address before place `i` exactly where a word stands
/// before `i` and no line end stands between the word and `i`.
#[verifier::rlimit(40)]
pub proof fn lemma_flag_at_means(tokens: Seq<TokenView>, i: int)
    requires
        0 <= i <= tokens.len(),
    ensures
        flag_at(tokens, i, false) <==> exists|j: int|
            0 <= j < i && (#[trigger] tokens[j]) is HostOrIp && forall|k: int|
                j < k < i ==> !((#[trigger] tokens[k]) is NewLine),
    decreases i,
{
    if i > 0 {
        lemma_flag_at_means(tokens, i - 1);
        let last = tokens[i - 1];
        if last is NewLine {
            assert forall|j: int| 0 <= j < i && (#[trigger] tokens[j]) is HostOrIp implies !(forall|
                k: int,
            |
                j < k < i ==> !((#[trigger] tokens[k]) is NewLine)) by {
                assert(tokens[i - 1] is NewLine);
            }
        } else if last is HostOrIp {
            assert(tokens[i - 1] is HostOrIp);
        } else {
            if flag_at(tokens, i - 1, false) {
                let j = choose|j: int|
                    0 <= j < i - 1 && (#[trigger] tokens[j]) is HostOrIp && forall|k: int|
                        j < k < i - 1 ==> !((#[trigger] tokens[k]) is NewLine);
                assert(tokens[j] is HostOrIp);
                assert forall|k: int| j < k < i implies !((#[trigger] tokens[k]) is NewLine) by {
                    if k == i - 1 {
                    }
                }
            }
            if exists|j: int|
                0 <= j < i && (#[trigger] tokens[j]) is HostOrIp && forall|k: int|
                    j < k < i ==> !((#[trigger] tokens[k]) is NewLine) {
                let j = choose|j: int|
                    0 <= j < i && (#[trigger] tokens[j]) is HostOrIp && forall|k: int|
                        j < k < i ==> !((#[trigger] tokens[k]) is NewLine);
                assert(j < i - 1);
                assert(tokens[j] is HostOrIp);
                assert forall|k: int| j < k < i - 1 implies !((#[trigger] tokens[k]) is NewLine) by {
                }
            }
        }
    }
}

proof fn lemma_first_token(tokens: Seq<TokenView>, is_ip_parsed: bool)
    requires
        tokens.len() > 0,
        parse_token(tokens[0], second(tokens), is_ip_parsed) is Ok,
    ensures
        parse_token(tokens[0], second(tokens), is_ip_parsed)->Ok_0.1 == flag_at(
            tokens,
            1,
            is_ip_parsed,
        ),
        parse_token(tokens[0], second(tokens), is_ip_parsed)->Ok_0.0 == node_at(
            tokens,
            0,
            is_ip_parsed,
        ),
        tokens[0] is HostOrIp && !is_ip_parsed ==> address_value(tokens[0]->HostOrIp_0) is Some,
{
    reveal_with_fuel(flag_at, 2);
    assert(flag_at(tokens, 0, is_ip_parsed) == is_ip_parsed);
    match tokens[0] {
        TokenView::HostOrIp(text) => {
            assert(flag_at(tokens, 1, is_ip_parsed));
        },
        TokenView::NewLine => {
            assert(!flag_at(tokens, 1, is_ip_parsed));
        },
        TokenView::Comment(text) => {
            assert(flag_at(tokens, 1, is_ip_parsed) == is_ip_parsed);
        },
        TokenView::Space => {
            assert(flag_at(tokens, 1, is_ip_parsed) == is_ip_parsed);
        },
        TokenView::Tab => {
            assert(flag_at(tokens, 1, is_ip_parsed) == is_ip_parsed);
        },
        TokenView::CarriageReturn => {
            assert(flag_at(tokens, 1, is_ip_parsed) == is_ip_parsed);
        },
    }
}

/// Parsing keeps every token: a document has one node for each token, in
/// order, and it is the node of that token on its line.
#[verifier::rlimit(40)]
pub proof fn lemma_parse_keeps_tokens(tokens: Seq<TokenView>, is_ip_parsed: bool)
    requires
        parse_from(tokens, is_ip_parsed) is Ok,
    ensures
        parse_from(tokens, is_ip_parsed)->Ok_0.len() == tokens.len(),
        forall|i: int|
            0 <= i < tokens.len() ==> (#[trigger] parse_from(tokens, is_ip_parsed)->Ok_0[i])
                == node_at(tokens, i, is_ip_parsed),
        forall|i: int|
            0 <= i < tokens.len() && tokens[i] is HostOrIp && !flag_at(tokens, i, is_ip_parsed)
                ==> address_value(#[trigger] tokens[i]->HostOrIp_0) is Some,
    decreases tokens.len(),
{
    if tokens.len() > 0 {
        let first = parse_token(tokens[0], second(tokens), is_ip_parsed)->Ok_0;
        let rest = tokens.drop_first();
        let flag = first.1;
        lemma_parse_keeps_tokens(rest, flag);
        let more = parse_from(rest, flag)->Ok_0;
        let nodes = parse_from(tokens, is_ip_parsed)->Ok_0;
        lemma_first_token(tokens, is_ip_parsed);
        assert(nodes == seq![first.0] + more);
        assert(nodes[0] == first.0);
        assert(flag_at(tokens, 0, is_ip_parsed) == is_ip_parsed);
        assert forall|i: int| 0 <= i < tokens.len() implies (#[trigger] nodes[i]) == node_at(
            tokens,
            i,
            is_ip_parsed,
        ) by {
            if i >= 1 {
                assert(nodes[i] == more[i - 1]);
                assert(tokens[i] == rest[i - 1]);
                lemma_flag_at_shift(tokens, i, is_ip_parsed);
                assert(more[i - 1] == node_at(rest, i - 1, flag));
            }
        }
        assert forall|i: int|
            0 <= i < tokens.len() && tokens[i] is HostOrIp && !flag_at(
                tokens,
                i,
                is_ip_parsed,
            ) implies address_value(#[trigger] tokens[i]->HostOrIp_0) is Some by {
            if i >= 1 {
                assert(tokens[i] == rest[i - 1]);
                lemma_flag_at_shift(tokens, i, is_ip_parsed);
                assert(address_value(rest[i - 1]->HostOrIp_0) is Some);
            }
        }
    }
}

/// Wherever a comment is followed by anything but a line end or a
/// carriage return, the tokens are no document: parsing fails, and the
/// comment is the error unless an earlier token is.
#[verifier::rlimit(40)]
pub proof fn lemma_comment_ends_line(
    before: Seq<TokenView>,
    text: Seq<char>,
    next: TokenView,
    after: Seq<TokenView>,
    is_ip_parsed: bool,
)
    requires
        !(next is NewLine),
        !(next is CarriageReturn),
    ensures
        parse_from(before + (seq![TokenView::Comment(text), next] + after), is_ip_parsed) is Err,
        parse_from(before + seq![TokenView::Comment(text)], is_ip_parsed) is Ok ==> parse_from(
            before + (seq![TokenView::Comment(text), next] + after),
            is_ip_parsed,
        ) == Err::<Seq<NodeView>, ErrorView>(ErrorView::UnexpectedToken(NodeView::Comment(text))),
    decreases before.len(),
{
    let tail = seq![TokenView::Comment(text), next] + after;
    let all = before + tail;
    let short = before + seq![TokenView::Comment(text)];
    if before.len() == 0 {
        assert(all =~= tail);
        assert(all[0] == TokenView::Comment(text));
        assert(all[1] == next);
        assert(second(all) == Some(next));
        assert(!ends_line(Some(next)));
    } else {
        assert(all[0] == before[0]);
        assert(short[0] == before[0]);
        assert(all[1] == short[1]);
        assert(second(all) == second(short));
        assert(all.drop_first() =~= before.drop_first() + tail);
        assert(short.drop_first() =~= before.drop_first() + seq![TokenView::Comment(text)]);
        match parse_token(before[0], second(all), is_ip_parsed) {
            Err(_) => {},
            Ok((_, flag)) => {
                lemma_comment_ends_line(before.drop_first(), text, next, after, flag);
            },
        }
    }
}

/// Wherever a carriage return is followed by anything but a line end, or
/// by nothing, the tokens are no document: parsing fails, and what stands
/// behind the carriage return is the error unless an earlier token is.
#[verifier::rlimit(40)]
pub proof fn lemma_return_needs_line_end(
    before: Seq<TokenView>,
    after: Seq<TokenView>,
    is_ip_parsed: bool,
)
    requires
        after.len() == 0 || !(after[0] is NewLine),
    ensures
        parse_from(before + (seq![TokenView::CarriageReturn] + after), is_ip_parsed) is Err,
        parse_from(before + seq![TokenView::CarriageReturn, TokenView::NewLine], is_ip_parsed)
            is Ok ==> parse_from(
            before + (seq![TokenView::CarriageReturn] + after),
            is_ip_parsed,
        ) == Err::<Seq<NodeView>, ErrorView>(
            ErrorView::UnexpectedToken(
                if after.len() == 0 {
                    NodeView::NewLine
                } else {
                    node_of_token(after[0])
                },
            ),
        ),
    decreases before.len(),
{
    let tail = seq![TokenView::CarriageReturn] + after;
    let all = before + tail;
    let paired = before + seq![TokenView::CarriageReturn, TokenView::NewLine];
    if before.len() == 0 {
        assert(all =~= tail);
        assert(all[0] == TokenView::CarriageReturn);
        if after.len() > 0 {
            assert(all[1] == after[0]);
            assert(second(all) == Some(after[0]));
        } else {
            assert(second(all) == None::<TokenView>);
        }
    } else {
        assert(all[0] == before[0]);
        assert(paired[0] == before[0]);
        assert(all[1] == paired[1]);
        assert(second(all) == second(paired));
        assert(all.drop_first() =~= before.drop_first() + tail);
        assert(paired.drop_first() =~= before.drop_first() + seq![
            TokenView::CarriageReturn,
            TokenView::NewLine,
        ]);
        match parse_token(before[0], second(all), is_ip_parsed) {
            Err(_) => {},
            Ok((_, flag)) => {
                lemma_return_needs_line_end(before.drop_first(), after, flag);
            },
        }
    }
}

/// Whether every address among `nodes` is written by its token as the
/// address is written back.
pub open spec fn in_usual_form(tokens: Seq<TokenView>, nodes: Seq<NodeView>) -> bool {
    forall|i: int|
        0 <= i < nodes.len() && i < tokens.len() ==> ((#[trigger] nodes[i]) matches NodeView::IP(ip)
            ==> address_text(ip) == tokens[i].source())
}

proof fn lemma_render_is_source(tokens: Seq<TokenView>, nodes: Seq<NodeView>)
    requires
        nodes.len() == tokens.len(),
        forall|i: int| 0 <= i < tokens.len() ==> (#[trigger] nodes[i]).text() == tokens[i].source(),
    ensures
        render(nodes) == tokens_source(tokens),
    decreases tokens.len(),
{
    if tokens.len() > 0 {
        let last = tokens.len() - 1;
        let t = tokens.drop_last();
        let n = nodes.drop_last();
        assert forall|i: int| 0 <= i < t.len() implies (#[trigger] n[i]).text()
            == t[i].source() by {
            assert(n[i] == nodes[i]);
            assert(t[i] == tokens[i]);
        }
        lemma_render_is_source(t, n);
        assert(nodes[last].text() == tokens[last].source());
    }
}

/// Where every address is written in its usual form, the text of a
/// document is the source of its tokens.
pub proof fn lemma_parse_is_lossless(tokens: Seq<TokenView>, nodes: Seq<NodeView>)
    requires
        parse_tokens(tokens) == Ok::<Seq<NodeView>, ErrorView>(nodes),
        in_usual_form(tokens, nodes),
    ensures
        nodes.len() == tokens.len(),
        render(nodes) == tokens_source(tokens),
{
    lemma_parse_keeps_tokens(tokens, false);
    assert forall|i: int| 0 <= i < tokens.len() implies (#[trigger] nodes[i]).text()
        == tokens[i].source() by {
        assert(nodes[i] == node_at(tokens, i, false));
        match tokens[i] {
            TokenView::HostOrIp(text) => {},
            TokenView::Comment(text) => {},
            _ => {},
        }
    }
    lemma_render_is_source(tokens, nodes);
}

} // verus!
