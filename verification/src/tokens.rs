//! The lexical tokens of a hosts document.

use vstd::prelude::*;

verus! {

/// A lexical token. `HostOrIp` and `Comment` carry their text, the comment
/// without its `#`; the others stand for one character each.
#[derive(Debug, PartialEq, Eq)]
pub enum Tokens {
    HostOrIp(String),
    Comment(String),
    Space,
    Tab,
    CarriageReturn,
    NewLine,
}

/// What a token is to a contract: the same variants over `Seq<char>`.
pub enum TokenView {
    HostOrIp(Seq<char>),
    Comment(Seq<char>),
    Space,
    Tab,
    CarriageReturn,
    NewLine,
}

impl Clone for Tokens {
    fn clone(&self) -> (r: Self)
        ensures
            r == *self,
    {
        match self {
            Tokens::HostOrIp(text) => Tokens::HostOrIp(text.clone()),
            Tokens::Comment(text) => Tokens::Comment(text.clone()),
            Tokens::Space => Tokens::Space,
            Tokens::Tab => Tokens::Tab,
            Tokens::CarriageReturn => Tokens::CarriageReturn,
            Tokens::NewLine => Tokens::NewLine,
        }
    }
}

impl View for Tokens {
    type V = TokenView;

    open spec fn view(&self) -> TokenView {
        match self {
            Tokens::HostOrIp(text) => TokenView::HostOrIp(text@),
            Tokens::Comment(text) => TokenView::Comment(text@),
            Tokens::Space => TokenView::Space,
            Tokens::Tab => TokenView::Tab,
            Tokens::CarriageReturn => TokenView::CarriageReturn,
            Tokens::NewLine => TokenView::NewLine,
        }
    }
}

/// The views of a sequence of tokens, in order.
pub open spec fn token_views(s: Seq<Tokens>) -> Seq<TokenView> {
    s.map_values(|t: Tokens| t@)
}

impl TokenView {
    /// The characters that the token was read from.
    pub open spec fn source(self) -> Seq<char> {
        match self {
            TokenView::HostOrIp(text) => text,
            TokenView::Comment(text) => seq!['#'] + text,
            TokenView::Space => seq![' '],
            TokenView::Tab => seq!['\t'],
            TokenView::CarriageReturn => seq!['\r'],
            TokenView::NewLine => seq!['\n'],
        }
    }

    /// The token as it is displayed: its source, except that a line end is
    /// displayed as nothing.
    pub open spec fn display(self) -> Seq<char> {
        match self {
            TokenView::NewLine => Seq::<char>::empty(),
            _ => self.source(),
        }
    }
}

/// The characters that a sequence of tokens was read from.
pub open spec fn tokens_source(s: Seq<TokenView>) -> Seq<char>
    decreases s.len(),
{
    if s.len() == 0 {
        Seq::<char>::empty()
    } else {
        tokens_source(s.drop_last()) + s.last().source()
    }
}

impl Tokens {
    /// The text that displays the token.
    pub fn to_text(&self) -> (r: String)
        ensures
            r@ == self@.display(),
    {
        let mut out = String::new();
        match self {
            Tokens::HostOrIp(text) => {
                out.append(text.as_str());
                assert(out@ =~= text@);
            },
            Tokens::Comment(text) => {
                out.push('#');
                out.append(text.as_str());
            },
            Tokens::Space => {
                out.push(' ');
            },
            Tokens::Tab => {
                out.push('\t');
            },
            Tokens::CarriageReturn => {
                out.push('\r');
            },
            Tokens::NewLine => {},
        }
        out
    }
}

} // verus!
