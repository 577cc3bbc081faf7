//! The tokenizer: from the bytes of a document, chunk by chunk, to tokens.

use crate::tokens::{token_views, tokens_source, TokenView, Tokens};
use vstd::prelude::*;
use vstd::utf8::*;

verus! {

/// A character that a word goes on with: anything but a blank or a line
/// ending.
pub open spec fn is_word_char(c: char) -> bool {
    c != ' ' && c != '\t' && c != '\n' && c != '\r'
}

/// A character that a comment goes on with: anything but a line ending.
pub open spec fn is_comment_char(c: char) -> bool {
    c != '\n' && c != '\r'
}

/// Which characters a token that is still open goes on with.
#[derive(Clone, Copy, Debug, PartialEq, Eq, Structural)]
pub enum CheckEnding {
    HostOrIp,
    Comment,
}

impl CheckEnding {
    /// Whether a token of this kind goes on with `c`.
    pub open spec fn accepts(self, c: char) -> bool {
        match self {
            CheckEnding::HostOrIp => is_word_char(c),
            CheckEnding::Comment => is_comment_char(c),
        }
    }
}

pub fn end_of_host_or_ip(c: &char) -> (r: bool)
    ensures
        r == is_word_char(*c),
{
    *c != ' ' && *c != '\t' && *c != '\n' && *c != '\r'
}

pub fn end_of_comment(c: &char) -> (r: bool)
    ensures
        r == is_comment_char(*c),
{
    *c != '\n' && *c != '\r'
}

impl CheckEnding {
    /// Whether a token of this kind goes on with `c`.
    pub fn check(&self, c: &char) -> (r: bool)
        ensures
            r == self.accepts(*c),
    {
        match self {
            CheckEnding::HostOrIp => end_of_host_or_ip(c),
            CheckEnding::Comment => end_of_comment(c),
        }
    }
}

/// The text of a token that is still open, and what it goes on with.
pub fn get_data_and_separator_fn(token: &mut Tokens) -> (r: Option<(&mut String, CheckEnding)>)
    ensures
        match *old(token) {
            Tokens::HostOrIp(text) => r matches Some((data, ending)) && *data == text && ending
                == CheckEnding::HostOrIp && *final(token) == Tokens::HostOrIp(*final(data)),
            Tokens::Comment(text) => r matches Some((data, ending)) && *data == text && ending
                == CheckEnding::Comment && *final(token) == Tokens::Comment(*final(data)),
            _ => r is None && *final(token) == *old(token),
        },
{
    match token {
        Tokens::HostOrIp(data) => Some((data, CheckEnding::HostOrIp)),
        Tokens::Comment(data) => Some((data, CheckEnding::Comment)),
        _ => None,
    }
}

/// The characters of the text `s` from its byte `start` on.
pub open spec fn chars_from(s: Seq<char>, start: int) -> Seq<char> {
    decode_utf8(encode_utf8(s).subrange(start, encode_utf8(s).len() as int))
}

/// The longest run of characters of `slice`, from its byte `start` on,
/// that `separator` accepts. `start` has to stand between two characters.
pub fn find_separator<'a, F>(separator: F, slice: &'a str, start: usize) -> (r: &'a str) where
    F: Fn(&char) -> bool,

    requires
        is_char_boundary(encode_utf8(slice@), start as int),
        forall|c: char| call_requires(separator, (&c,)),
    ensures
        r@.len() <= chars_from(slice@, start as int).len(),
        r@ == chars_from(slice@, start as int).take(r@.len() as int),
        forall|i: int| 0 <= i < r@.len() ==> call_ensures(separator, (&#[trigger] r@[i],), true),
        r@.len() < chars_from(slice@, start as int).len() ==> call_ensures(
            separator,
            (&chars_from(slice@, start as int)[r@.len() as int],),
            false,
        ),
{
    let (_, rest) = slice.split_at(start);
    proof {
        encode_utf8_decode_utf8(rest@);
        assert(encode_utf8(rest@) =~= encode_utf8(slice@).subrange(
            start as int,
            encode_utf8(slice@).len() as int,
        ));
        assert(rest@ == chars_from(slice@, start as int));
    }
    let chars = crate::text::chars_of(rest);
    let mut end: usize = 0;
    while end < chars.len()
        invariant
            end <= chars.len(),
            chars@ == rest@,
            forall|c: char| call_requires(separator, (&c,)),
            forall|i: int| 0 <= i < end ==> call_ensures(separator, (&#[trigger] chars@[i],), true),
        ensures
            end <= chars.len(),
            forall|i: int| 0 <= i < end ==> call_ensures(separator, (&#[trigger] chars@[i],), true),
            end < chars.len() ==> call_ensures(separator, (&chars@[end as int],), false),
        decreases chars.len() - end,
    {
        if !separator(&chars[end]) {
            break;
        }
        end = end + 1;
    }
    let r = rest.substring_char(0, end);
    assert(r@ =~= rest@.take(end as int));
    assert forall|i: int| 0 <= i < r@.len() implies call_ensures(
        separator,
        (&#[trigger] r@[i],),
        true,
    ) by {
        assert(r@[i] == chars@[i]);
    }
    r
}

/// The place up to which a token that is still open goes on.
pub open spec fn run_end(s: Seq<char>, from: int, ending: CheckEnding) -> int
    decreases s.len() - from,
{
    if 0 <= from < s.len() && ending.accepts(s[from]) {
        run_end(s, from + 1, ending)
    } else {
        from
    }
}

proof fn lemma_run_end(s: Seq<char>, from: int, ending: CheckEnding, end: int)
    requires
        0 <= from <= end <= s.len(),
        forall|i: int| from <= i < end ==> ending.accepts(#[trigger] s[i]),
        end < s.len() ==> !ending.accepts(s[end]),
    ensures
        run_end(s, from, ending) == end,
    decreases end - from,
{
    if from < end {
        assert(ending.accepts(s[from]));
        lemma_run_end(s, from + 1, ending, end);
    }
}

/// The last token, where it is still open, with `text` behind its own.
pub open spec fn extend_last(tokens: Seq<TokenView>, text: Seq<char>) -> Seq<TokenView> {
    if tokens.len() == 0 {
        tokens
    } else {
        match tokens.last() {
            TokenView::HostOrIp(own) => tokens.drop_last().push(TokenView::HostOrIp(own + text)),
            TokenView::Comment(own) => tokens.drop_last().push(TokenView::Comment(own + text)),
            _ => tokens,
        }
    }
}

/// What the last token goes on with, where it is still open.
pub open spec fn open_ending(tokens: Seq<TokenView>) -> Option<CheckEnding> {
    if tokens.len() == 0 {
        None
    } else {
        match tokens.last() {
            TokenView::HostOrIp(_) => Some(CheckEnding::HostOrIp),
            TokenView::Comment(_) => Some(CheckEnding::Comment),
            _ => None,
        }
    }
}

/// Between two texts that are each valid UTF-8 a character starts.
proof fn lemma_boundary_between(a: Seq<u8>, b: Seq<u8>)
    requires
        valid_utf8(a),
        valid_utf8(b),
    ensures
        valid_utf8(a + b),
        is_char_boundary(a + b, a.len() as int),
{
    valid_utf8_concat(a, b);
    if b.len() == 0 {
        assert(a + b =~= a);
        is_char_boundary_start_end_of_seq(a);
    } else {
        assert(valid_first_scalar(b));
        assert(!is_continuation_byte(b[0]));
        assert((a + b)[a.len() as int] == b[0]);
        is_char_boundary_iff_not_is_continuation_byte(a + b, a.len() as int);
    }
}

/// The bytes of a run of characters that starts between two characters
/// end between two characters, and what follows them is what follows the
/// run.
#[verifier::rlimit(40)]
pub proof fn lemma_run_bytes(s: Seq<char>, start: int, n: int)
    requires
        is_char_boundary(encode_utf8(s), start),
        0 <= n <= chars_from(s, start).len(),
    ensures
        0 <= start,
        start + encode_utf8(chars_from(s, start).take(n)).len() <= encode_utf8(s).len(),
        is_char_boundary(
            encode_utf8(s),
            start + encode_utf8(chars_from(s, start).take(n)).len(),
        ),
        chars_from(s, start + encode_utf8(chars_from(s, start).take(n)).len()) == chars_from(
            s,
            start,
        ).skip(n),
{
    let bytes = encode_utf8(s);
    encode_utf8_valid_utf8(s);
    assert(0 <= start <= bytes.len()) by {
        reveal_with_fuel(is_char_boundary, 1);
    }
    valid_utf8_split(bytes, start);
    let head = bytes.subrange(0, start);
    let tail = bytes.subrange(start, bytes.len() as int);
    let rest = chars_from(s, start);
    decode_utf8_encode_utf8(tail);
    let run = rest.take(n);
    let more = rest.skip(n);
    assert(rest =~= run + more);
    lemma_encode_concat(run, more);
    let p = encode_utf8(run);
    let q = encode_utf8(more);
    assert(tail == p + q);
    encode_utf8_valid_utf8(run);
    encode_utf8_valid_utf8(more);
    valid_utf8_concat(head, p);
    lemma_boundary_between(head + p, q);
    assert(head + tail =~= bytes);
    assert((head + p) + q =~= head + (p + q));
    assert((head + p) + q == bytes);
    assert((head + p).len() == start + p.len());
    assert(bytes.subrange(start + p.len(), bytes.len() as int) =~= q);
    encode_utf8_decode_utf8(more);
}

/// Lets the last token, where it is still open, go on with the characters
/// of `slice` from its byte `start` on, as far as they belong to it, and
/// returns the byte behind them. Where no token is open it changes nothing
/// and returns 0.
pub fn check_last_token(tokens: &mut Vec<Tokens>, slice: &str, start: usize) -> (r: usize)
    requires
        open_ending(token_views(old(tokens)@)) is Some ==> is_char_boundary(
            encode_utf8(slice@),
            start as int,
        ),
    ensures
        match open_ending(token_views(old(tokens)@)) {
            Some(ending) => {
                let rest = chars_from(slice@, start as int);
                let n = run_end(rest, 0, ending);
                &&& token_views(final(tokens)@) == extend_last(
                    token_views(old(tokens)@),
                    rest.take(n),
                )
                &&& r == start + encode_utf8(rest.take(n)).len()
                &&& is_char_boundary(encode_utf8(slice@), r as int)
                &&& chars_from(slice@, r as int) == rest.skip(n)
            },
            None => r == 0 && token_views(final(tokens)@) == token_views(old(tokens)@),
        },
{
    let ghost before = tokens@;
    if let Some(token) = tokens.as_mut_slice().last_mut() {
        if let Some((data, ending)) = get_data_and_separator_fn(token) {
            let s = match ending {
                CheckEnding::HostOrIp => find_separator(end_of_host_or_ip, slice, start),
                CheckEnding::Comment => find_separator(end_of_comment, slice, start),
            };
            let len = s.as_bytes().len();
            let total = slice.as_bytes().len();
            data.append(s);
            proof {
                let rest = chars_from(slice@, start as int);
                assert forall|i: int| 0 <= i < s@.len() implies ending.accepts(
                    #[trigger] rest[i],
                ) by {
                    assert(s@[i] == rest[i]);
                }
                lemma_run_end(rest, 0, ending, s@.len() as int);
                lemma_run_bytes(slice@, start as int, s@.len() as int);
                assert(len == encode_utf8(s@).len());
                assert(total == encode_utf8(slice@).len());
            }
            assert(token_views(tokens@) =~= extend_last(token_views(before), s@));
            return start + len;
        } else {
            assert(token_views(tokens@) =~= token_views(before));
            0
        }
    } else {
        0
    }
}

// ---------------------------------------------------------------------------
// What the tokens of a text are
// ---------------------------------------------------------------------------

/// The token that `c` starts.
pub open spec fn start_token(c: char) -> TokenView {
    if c == '#' {
        TokenView::Comment(Seq::<char>::empty())
    } else if c == '\t' {
        TokenView::Tab
    } else if c == ' ' {
        TokenView::Space
    } else if c == '\n' {
        TokenView::NewLine
    } else if c == '\r' {
        TokenView::CarriageReturn
    } else {
        TokenView::HostOrIp(seq![c])
    }
}

/// The tokens after one more character: the last token goes on with it if
/// it is still open and takes the character; else the character starts a
/// token of its own.
pub open spec fn lex_char(tokens: Seq<TokenView>, c: char) -> Seq<TokenView> {
    if open_ending(tokens) is Some && open_ending(tokens)->0.accepts(c) {
        extend_last(tokens, seq![c])
    } else {
        tokens.push(start_token(c))
    }
}

/// The tokens after the characters `chars`, read one by one behind the
/// tokens `tokens`. The last of `tokens` is the only thing that is carried
/// over from what was read before.
pub open spec fn lex(tokens: Seq<TokenView>, chars: Seq<char>) -> Seq<TokenView>
    decreases chars.len(),
{
    if chars.len() == 0 {
        tokens
    } else {
        lex_char(lex(tokens, chars.drop_last()), chars.last())
    }
}

/// Reading `a` and then `b` is reading `a + b`.
pub proof fn lemma_lex_concat(tokens: Seq<TokenView>, a: Seq<char>, b: Seq<char>)
    ensures
        lex(tokens, a + b) == lex(lex(tokens, a), b),
    decreases b.len(),
{
    if b.len() == 0 {
        assert(a + b =~= a);
    } else {
        assert((a + b).drop_last() =~= a + b.drop_last());
        assert((a + b).last() == b.last());
        lemma_lex_concat(tokens, a, b.drop_last());
    }
}

/// A token that is open goes on with a run of characters that it takes.
proof fn lemma_lex_run(tokens: Seq<TokenView>, run: Seq<char>, ending: CheckEnding)
    requires
        open_ending(tokens) == Some(ending),
        forall|i: int| 0 <= i < run.len() ==> ending.accepts(#[trigger] run[i]),
    ensures
        lex(tokens, run) == extend_last(tokens, run),
        open_ending(lex(tokens, run)) == Some(ending),
    decreases run.len(),
{
    if run.len() == 0 {
        match tokens.last() {
            TokenView::HostOrIp(own) => {
                assert(own + run =~= own);
                assert(extend_last(tokens, run) =~= tokens);
            },
            TokenView::Comment(own) => {
                assert(own + run =~= own);
                assert(extend_last(tokens, run) =~= tokens);
            },
            _ => {},
        }
    } else {
        let init = run.drop_last();
        assert forall|i: int| 0 <= i < init.len() implies ending.accepts(#[trigger] init[i]) by {
            assert(init[i] == run[i]);
        }
        lemma_lex_run(tokens, init, ending);
        assert(ending.accepts(run[run.len() - 1]));
        match tokens.last() {
            TokenView::HostOrIp(own) => {
                assert((own + init) + seq![run.last()] =~= own + run);
                assert(extend_last(extend_last(tokens, init), seq![run.last()]) =~= extend_last(
                    tokens,
                    run,
                ));
            },
            TokenView::Comment(own) => {
                assert((own + init) + seq![run.last()] =~= own + run);
                assert(extend_last(extend_last(tokens, init), seq![run.last()]) =~= extend_last(
                    tokens,
                    run,
                ));
            },
            _ => {},
        }
    }
}

/// Where a run ends, and what stands there.
proof fn lemma_run_end_is_end(s: Seq<char>, from: int, ending: CheckEnding)
    requires
        0 <= from <= s.len(),
    ensures
        from <= run_end(s, from, ending) <= s.len(),
        forall|i: int| from <= i < run_end(s, from, ending) ==> ending.accepts(#[trigger] s[i]),
        run_end(s, from, ending) < s.len() ==> !ending.accepts(s[run_end(s, from, ending)]),
    decreases s.len() - from,
{
    if from < s.len() && ending.accepts(s[from]) {
        lemma_run_end_is_end(s, from + 1, ending);
    }
}

/// Whether the character at place `at`, if there is one, starts a token
/// behind `tokens`, rather than going on with the last of them.
pub open spec fn starts_token(tokens: Seq<TokenView>, s: Seq<char>, at: int) -> bool {
    0 <= at < s.len() ==> !(open_ending(tokens) is Some && open_ending(tokens)->0.accepts(s[at]))
}

/// Collects the run of characters from place `from` on that a token with
/// the given ending takes.
fn take_run(chars: &Vec<char>, from: usize, ending: CheckEnding) -> (r: (String, usize))
    requires
        from <= chars.len(),
    ensures
        r.1 == run_end(chars@, from as int, ending),
        from <= r.1 <= chars.len(),
        r.0@ == chars@.subrange(from as int, r.1 as int),
{
    let mut text = String::new();
    let mut end: usize = from;
    proof {
        lemma_run_end_is_end(chars@, from as int, ending);
    }
    while end < chars.len() && ending.check(&chars[end])
        invariant
            from <= end <= chars.len(),
            text@ == chars@.subrange(from as int, end as int),
            run_end(chars@, from as int, ending) == run_end(chars@, end as int, ending),
        decreases chars.len() - end,
    {
        text.push(chars[end]);
        end = end + 1;
        assert(text@ =~= chars@.subrange(from as int, end as int));
    }
    (text, end)
}

// ---------------------------------------------------------------------------
// The tokenizer
// ---------------------------------------------------------------------------

/// `Utf8Error` of the standard library: why bytes are not UTF-8.
#[verifier::external_type_specification]
#[verifier::external_body]
pub struct ExUtf8Error(core::str::Utf8Error);

/// `core::str::from_utf8` gives the text exactly where the bytes are valid
/// UTF-8, and the text is what the bytes decode to.
pub assume_specification[ core::str::from_utf8 ](v: &[u8]) -> (r: Result<
    &str,
    core::str::Utf8Error,
>)
    ensures
        r is Ok <==> valid_utf8(v@),
        r matches Ok(s) ==> s@ == decode_utf8(v@),
;

/// Why bytes are no document.
#[derive(Debug)]
pub enum Error {
    /// A chunk is not valid UTF-8.
    Utf8Error(core::str::Utf8Error),
}

/// How many bytes are read at a time.
pub const READ_BUFFER_SIZE: usize = 32 * 1024;

/// Reads tokens from a source of bytes, chunk by chunk.
#[derive(Debug)]
pub struct Tokenizer<T> {
    input: T,
    tokens: Vec<Tokens>,
}

impl<T> View for Tokenizer<T> {
    type V = Seq<TokenView>;

    /// The tokens read so far.
    closed spec fn view(&self) -> Seq<TokenView> {
        token_views(self.tokens@)
    }
}

/// The tokens after one more chunk, or `None` where the chunk is not valid
/// UTF-8.
pub open spec fn feed(tokens: Seq<TokenView>, chunk: Seq<u8>) -> Option<Seq<TokenView>> {
    if valid_utf8(chunk) {
        Some(lex(tokens, decode_utf8(chunk)))
    } else {
        None
    }
}

impl<T> Tokenizer<T> {
    /// What the tokenizer reads from.
    pub closed spec fn source(&self) -> T {
        self.input
    }

    /// The tokens read so far.
    pub fn get_tokens(self) -> (r: Vec<Tokens>)
        ensures
            token_views(r@) == self@,
    {
        self.tokens
    }

    /// Reads one chunk. The chunk is decoded on its own, so it has to hold
    /// whole characters; a word or comment may go on from the chunk before.
    /// Where the chunk is not valid UTF-8 nothing is read.
    #[verifier::rlimit(40)]
    pub fn parse_slice(&mut self, slice: &[u8]) -> (r: Result<(), Error>)
        ensures
            final(self).source() == old(self).source(),
            match feed(old(self)@, slice@) {
                Some(tokens) => r is Ok && final(self)@ == tokens,
                None => r is Err && final(self)@ == old(self)@,
            },
    {
        let code_points = match core::str::from_utf8(slice) {
            Ok(s) => s,
            Err(e) => {
                return Err(Error::Utf8Error(e));
            },
        };
        let ghost first = token_views(self.tokens@);
        proof {
            encode_utf8_valid_utf8(code_points@);
            is_char_boundary_start_end_of_seq(encode_utf8(code_points@));
            encode_utf8_decode_utf8(code_points@);
            assert(encode_utf8(code_points@).subrange(0, encode_utf8(code_points@).len() as int)
                =~= encode_utf8(code_points@));
            assert(chars_from(code_points@, 0) == code_points@);
        }
        let skip = check_last_token(&mut self.tokens, code_points, 0);
        let (_, rest) = code_points.split_at(skip);
        let chars = crate::text::chars_of(rest);
        let ghost before = token_views(self.tokens@);
        let ghost run = code_points@.subrange(0, code_points@.len() - chars@.len());
        proof {
            encode_utf8_decode_utf8(rest@);
            assert(encode_utf8(rest@) =~= encode_utf8(code_points@).subrange(
                skip as int,
                encode_utf8(code_points@).len() as int,
            ));
            assert(rest@ == chars_from(code_points@, skip as int));
            match open_ending(first) {
                Some(ending) => {
                    let n = run_end(code_points@, 0, ending);
                    lemma_run_end_is_end(code_points@, 0, ending);
                    assert(run =~= code_points@.take(n));
                    lemma_lex_run(first, run, ending);
                    assert(chars@.len() > 0 ==> chars@[0] == code_points@[n]);
                },
                None => {
                    assert(encode_utf8(code_points@).subrange(
                        0,
                        encode_utf8(code_points@).len() as int,
                    ) =~= encode_utf8(code_points@));
                    assert(run =~= Seq::<char>::empty());
                },
            }
            assert(run + chars@ =~= code_points@);
            assert(before == lex(first, run));
            assert(chars@.take(0) =~= Seq::<char>::empty());
        }
        let mut advance: usize = 0;
        while advance < chars.len()
            invariant
                advance <= chars.len(),
                token_views(self.tokens@) == lex(before, chars@.take(advance as int)),
                starts_token(token_views(self.tokens@), chars@, advance as int),
                self.input == old(self).input,
            decreases chars.len() - advance,
        {
            let ghost cur = token_views(self.tokens@);
            let c = chars[advance];
            proof {
                let upto = chars@.take(advance + 1);
                assert(upto.drop_last() =~= chars@.take(advance as int));
                assert(upto.last() == c);
                assert(lex(before, upto) == cur.push(start_token(c)));
            }
            if c == '#' {
                let (comment, end) = take_run(&chars, advance + 1, CheckEnding::Comment);
                self.tokens.push(Tokens::Comment(comment));
                proof {
                    let run = chars@.subrange(advance + 1, end as int);
                    let opened = cur.push(start_token(c));
                    lemma_run_end_is_end(chars@, advance + 1, CheckEnding::Comment);
                    lemma_lex_run(opened, run, CheckEnding::Comment);
                    lemma_lex_concat(before, chars@.take(advance + 1), run);
                    assert(chars@.take(advance + 1) + run =~= chars@.take(end as int));
                    assert(Seq::<char>::empty() + run =~= run);
                    assert(token_views(self.tokens@) =~= extend_last(opened, run));
                }
                advance = end;
            } else if c == '\t' {
                self.tokens.push(Tokens::Tab);
                assert(token_views(self.tokens@) =~= cur.push(start_token(c)));
                advance = advance + 1;
            } else if c == ' ' {
                self.tokens.push(Tokens::Space);
                assert(token_views(self.tokens@) =~= cur.push(start_token(c)));
                advance = advance + 1;
            } else if c == '\n' {
                self.tokens.push(Tokens::NewLine);
                assert(token_views(self.tokens@) =~= cur.push(start_token(c)));
                advance = advance + 1;
            } else if c == '\r' {
                self.tokens.push(Tokens::CarriageReturn);
                assert(token_views(self.tokens@) =~= cur.push(start_token(c)));
                advance = advance + 1;
            } else {
                let (host_or_ip, end) = take_run(&chars, advance, CheckEnding::HostOrIp);
                self.tokens.push(Tokens::HostOrIp(host_or_ip));
                proof {
                    let run = chars@.subrange(advance + 1, end as int);
                    let opened = cur.push(start_token(c));
                    lemma_run_end_is_end(chars@, advance as int, CheckEnding::HostOrIp);
                    assert(end > advance);
                    lemma_lex_run(opened, run, CheckEnding::HostOrIp);
                    lemma_lex_concat(before, chars@.take(advance + 1), run);
                    assert(chars@.take(advance + 1) + run =~= chars@.take(end as int));
                    assert(seq![c] + run =~= chars@.subrange(advance as int, end as int));
                    assert(token_views(self.tokens@) =~= extend_last(opened, run));
                }
                advance = end;
            }
        }
        assert(chars@.take(chars.len() as int) =~= chars@);
        proof {
            lemma_lex_concat(first, run, chars@);
        }
        Ok(())
    }
}

/// Whether the bytes start with the byte-order mark of UTF-8.
pub open spec fn has_utf8_mark(buffer: Seq<u8>) -> bool {
    buffer.len() >= 3 && buffer[0] == 0xEF && buffer[1] == 0xBB && buffer[2] == 0xBF
}

/// Whether the bytes start with the byte-order mark of UTF-16.
pub open spec fn has_utf16_mark(buffer: Seq<u8>) -> bool {
    buffer.len() >= 2 && buffer[0] == 0xFE && buffer[1] == 0xFF
}

/// The bytes behind a leading byte-order mark, or all of them where there
/// is none.
pub open spec fn strip_mark(buffer: Seq<u8>) -> Seq<u8> {
    if has_utf8_mark(buffer) {
        buffer.skip(3)
    } else if has_utf16_mark(buffer) {
        buffer.skip(2)
    } else {
        buffer
    }
}

pub fn check_bom_bytes_utf8(buffer: &[u8]) -> (r: bool)
    ensures
        r == has_utf8_mark(buffer@),
{
    buffer.len() >= 3 && buffer[0] == 0xEF && buffer[1] == 0xBB && buffer[2] == 0xBF
}

pub fn check_bom_bytes_utf16(buffer: &[u8]) -> (r: bool)
    ensures
        r == has_utf16_mark(buffer@),
{
    buffer.len() >= 2 && buffer[0] == 0xFE && buffer[1] == 0xFF
}

/// How many bytes the next read takes from `input`: a full buffer, or
/// what is left.
pub open spec fn chunk_len(input: Seq<u8>) -> int {
    if input.len() < READ_BUFFER_SIZE {
        input.len() as int
    } else {
        READ_BUFFER_SIZE as int
    }
}

/// The tokens after all of `input` has been read in chunks of
/// [`READ_BUFFER_SIZE`] bytes, or `None` where a chunk is not valid UTF-8.
/// A byte-order mark is taken off the chunk that is `first`.
pub open spec fn read_chunks(tokens: Seq<TokenView>, input: Seq<u8>, first: bool) -> Option<
    Seq<TokenView>,
>
    decreases input.len(),
{
    if input.len() == 0 {
        Some(tokens)
    } else {
        let chunk = input.take(chunk_len(input));
        match feed(
            tokens,
            if first {
                strip_mark(chunk)
            } else {
                chunk
            },
        ) {
            None => None,
            Some(more) => read_chunks(more, input.skip(chunk_len(input)), false),
        }
    }
}

impl<'a> Tokenizer<&'a [u8]> {
    /// A tokenizer that will read `file`.
    pub fn new_with_reader(file: &'a [u8]) -> (r: Self)
        ensures
            r@ == Seq::<TokenView>::empty(),
            r.source() == file,
    {
        let r = Tokenizer { input: file, tokens: Vec::new() };
        assert(r@ =~= Seq::<TokenView>::empty());
        r
    }

    /// Reads all there is, a buffer at a time, and takes a byte-order mark
    /// off the first chunk. Fails at the first chunk that is not valid
    /// UTF-8.
    pub fn parse(self) -> (r: Result<Self, Error>)
        ensures
            match read_chunks(self@, self.source()@, true) {
                Some(tokens) => r matches Ok(done) && done@ == tokens && done.source()@.len() == 0,
                None => r is Err,
            },
    {
        let mut this = self;
        let mut first = true;
        loop
            invariant
                read_chunks(self@, self.source()@, true) == read_chunks(this@, this.input@, first),
            ensures
                read_chunks(self@, self.source()@, true) == Some(this@),
                this.input@.len() == 0,
            decreases this.input@.len(),
        {
            let input = this.input;
            let len = input.len();
            if len == 0 {
                break;
            }
            let n = if len < READ_BUFFER_SIZE {
                len
            } else {
                READ_BUFFER_SIZE
            };
            let chunk = vstd::slice::slice_subrange(input, 0, n);
            assert(chunk@ =~= input@.take(n as int));
            let buff = if first && check_bom_bytes_utf8(chunk) {
                vstd::slice::slice_subrange(chunk, 3, n)
            } else if first && check_bom_bytes_utf16(chunk) {
                vstd::slice::slice_subrange(chunk, 2, n)
            } else {
                chunk
            };
            assert(first ==> buff@ =~= strip_mark(chunk@));
            this.parse_slice(buff)?;
            this.input = vstd::slice::slice_subrange(input, n, len);
            assert(this.input@ =~= input@.skip(n as int));
            first = false;
        }
        Ok(this)
    }
}

/// The tokens of the document `input`, or the error of its first chunk
/// that is not valid UTF-8.
pub fn tokenize(input: &[u8]) -> (r: Result<Vec<Tokens>, Error>)
    ensures
        match read_chunks(Seq::<TokenView>::empty(), input@, true) {
            Some(tokens) => r matches Ok(v) && token_views(v@) == tokens,
            None => r is Err,
        },
{
    match Tokenizer::new_with_reader(input).parse() {
        Ok(done) => Ok(done.get_tokens()),
        Err(e) => Err(e),
    }
}

// ---------------------------------------------------------------------------
// What holds of every input
// ---------------------------------------------------------------------------

/// Encoding goes through concatenation.
pub proof fn lemma_encode_concat(a: Seq<char>, b: Seq<char>)
    ensures
        encode_utf8(a + b) == encode_utf8(a) + encode_utf8(b),
    decreases a.len(),
{
    if a.len() == 0 {
        assert(a + b =~= b);
        assert(encode_utf8(a) + encode_utf8(b) =~= encode_utf8(b));
    } else {
        assert((a + b).drop_first() =~= a.drop_first() + b);
        lemma_encode_concat(a.drop_first(), b);
        assert(encode_utf8(a + b) =~= encode_utf8(a) + encode_utf8(b));
    }
}

/// Two chunks of whole characters decode to what they decode to one by
/// one.
pub proof fn lemma_decode_concat(a: Seq<u8>, b: Seq<u8>)
    requires
        valid_utf8(a),
        valid_utf8(b),
    ensures
        valid_utf8(a + b),
        decode_utf8(a + b) == decode_utf8(a) + decode_utf8(b),
{
    valid_utf8_concat(a, b);
    decode_utf8_encode_utf8(a);
    decode_utf8_encode_utf8(b);
    lemma_encode_concat(decode_utf8(a), decode_utf8(b));
    encode_utf8_decode_utf8(decode_utf8(a) + decode_utf8(b));
}

/// Chunk boundaries do not show in the tokens: two chunks of whole
/// characters, read one after the other, give the tokens of the two read
/// as one.
pub proof fn lemma_feed_twice(tokens: Seq<TokenView>, a: Seq<u8>, b: Seq<u8>)
    requires
        valid_utf8(a),
        valid_utf8(b),
    ensures
        feed(tokens, a) is Some,
        feed(feed(tokens, a)->0, b) == feed(tokens, a + b),
{
    lemma_decode_concat(a, b);
    lemma_lex_concat(tokens, decode_utf8(a), decode_utf8(b));
}

/// The tokens after the chunks `chunks`, read in order, or `None` where
/// one of them is not valid UTF-8.
pub open spec fn feed_all(tokens: Seq<TokenView>, chunks: Seq<Seq<u8>>) -> Option<Seq<TokenView>>
    decreases chunks.len(),
{
    if chunks.len() == 0 {
        Some(tokens)
    } else {
        match feed_all(tokens, chunks.drop_last()) {
            None => None,
            Some(more) => feed(more, chunks.last()),
        }
    }
}

/// The chunks `chunks`, one behind the other.
pub open spec fn joined(chunks: Seq<Seq<u8>>) -> Seq<u8>
    decreases chunks.len(),
{
    if chunks.len() == 0 {
        Seq::<u8>::empty()
    } else {
        joined(chunks.drop_last()) + chunks.last()
    }
}

/// However a document is cut into chunks of whole characters, reading the
/// chunks in order gives the tokens of the document read as one chunk.
pub proof fn lemma_feed_chunks(tokens: Seq<TokenView>, chunks: Seq<Seq<u8>>)
    requires
        forall|i: int| 0 <= i < chunks.len() ==> valid_utf8(#[trigger] chunks[i]),
    ensures
        valid_utf8(joined(chunks)),
        feed_all(tokens, chunks) == feed(tokens, joined(chunks)),
    decreases chunks.len(),
{
    if chunks.len() == 0 {
        assert(decode_utf8(Seq::<u8>::empty()) =~= Seq::<char>::empty());
    } else {
        let init = chunks.drop_last();
        assert forall|i: int| 0 <= i < init.len() implies valid_utf8(#[trigger] init[i]) by {
            assert(init[i] == chunks[i]);
        }
        lemma_feed_chunks(tokens, init);
        assert(valid_utf8(chunks[chunks.len() - 1]));
        lemma_feed_twice(tokens, joined(init), chunks.last());
    }
}

/// Reading a document a buffer at a time, where that succeeds, gives the
/// tokens of the document read as one chunk.
pub proof fn lemma_read_chunks(tokens: Seq<TokenView>, input: Seq<u8>)
    requires
        read_chunks(tokens, input, false) is Some,
    ensures
        read_chunks(tokens, input, false) == feed(tokens, input),
    decreases input.len(),
{
    if input.len() == 0 {
        assert(decode_utf8(input) =~= Seq::<char>::empty());
    } else {
        let n = chunk_len(input);
        let chunk = input.take(n);
        let rest = input.skip(n);
        lemma_read_chunks(feed(tokens, chunk)->0, rest);
        lemma_feed_twice(tokens, chunk, rest);
        assert(chunk + rest =~= input);
    }
}

/// The tokens of a text hold every character of it, in order: the sources
/// of the tokens, one behind the other, are the text.
pub proof fn lemma_lex_source(tokens: Seq<TokenView>, chars: Seq<char>)
    ensures
        tokens_source(lex(tokens, chars)) == tokens_source(tokens) + chars,
    decreases chars.len(),
{
    if chars.len() == 0 {
        assert(tokens_source(tokens) + chars =~= tokens_source(tokens));
    } else {
        let init = chars.drop_last();
        let c = chars.last();
        lemma_lex_source(tokens, init);
        let before = lex(tokens, init);
        let after = lex_char(before, c);
        assert(chars =~= init.push(c));
        if open_ending(before) is Some && open_ending(before)->0.accepts(c) {
            assert(after.drop_last() =~= before.drop_last());
            match before.last() {
                TokenView::HostOrIp(own) => {
                    assert(after.last().source() =~= own + seq![c]);
                },
                TokenView::Comment(own) => {
                    assert(after.last().source() =~= (seq!['#'] + own) + seq![c]);
                },
                _ => {},
            }
            assert(tokens_source(after) =~= tokens_source(before) + seq![c]);
        } else {
            assert(after.drop_last() =~= before);
            assert(after.last() == start_token(c));
            assert(start_token(c).source() =~= seq![c]);
        }
        assert(tokens_source(after) =~= tokens_source(tokens) + chars);
    }
}

} // verus!
