//! Network addresses and the text form in which a hosts document writes them.
//!
//! The text form is described by spec functions over `Seq<char>`:
//! [`address_value`] says which address a text denotes, if any, and
//! [`address_text`] says how an address is written back. Many texts denote
//! one address; the text that is written back is its usual form.

use crate::text::chars_of;
use vstd::prelude::*;

verus! {

/// A network address: four octets, or eight groups of sixteen bits.
#[derive(Clone, Copy, Debug, PartialEq, Eq, Structural)]
pub enum IpAddress {
    V4(u8, u8, u8, u8),
    V6(u16, u16, u16, u16, u16, u16, u16, u16),
}

// ---------------------------------------------------------------------------
// Digits and numbers
// ---------------------------------------------------------------------------

pub open spec fn is_digit(c: char) -> bool {
    '0' <= c && c <= '9'
}

pub open spec fn is_hex_digit(c: char) -> bool {
    is_digit(c) || ('a' <= c && c <= 'f') || ('A' <= c && c <= 'F')
}

/// The value of one digit, in either case of the letters.
pub open spec fn digit_value(c: char) -> int {
    if is_digit(c) {
        c as int - '0' as int
    } else if 'a' <= c && c <= 'f' {
        c as int - 'a' as int + 10
    } else {
        c as int - 'A' as int + 10
    }
}

/// The number that the digits of `s` write in the given radix.
pub open spec fn number_value(s: Seq<char>, radix: int) -> int
    decreases s.len(),
{
    if s.len() == 0 {
        0
    } else {
        number_value(s.drop_last(), radix) * radix + digit_value(s.last())
    }
}

/// An octet is one to three decimal digits, without a leading zero unless
/// it is the single digit `0`, and at most 255.
pub open spec fn octet_value(f: Seq<char>) -> Option<u8> {
    if 1 <= f.len() <= 3 && (forall|i: int| 0 <= i < f.len() ==> is_digit(#[trigger] f[i])) && (f.len()
        > 1 ==> f[0] != '0') && number_value(f, 10) <= 255 {
        Some(number_value(f, 10) as u8)
    } else {
        None
    }
}

/// A group is one to four hexadecimal digits.
pub open spec fn group_value(f: Seq<char>) -> Option<u16> {
    if 1 <= f.len() <= 4 && (forall|i: int| 0 <= i < f.len() ==> is_hex_digit(#[trigger] f[i])) {
        Some(number_value(f, 16) as u16)
    } else {
        None
    }
}

/// The fields of `s` between occurrences of `sep`. A text without `sep` is
/// one field; `n` separators give `n + 1` fields, some of which may be empty.
pub open spec fn split(s: Seq<char>, sep: char) -> Seq<Seq<char>>
    decreases s.len(),
{
    if s.len() == 0 {
        seq![Seq::<char>::empty()]
    } else {
        let init = split(s.drop_last(), sep);
        if s.last() == sep {
            init.push(Seq::<char>::empty())
        } else {
            init.drop_last().push(init.last().push(s.last()))
        }
    }
}

proof fn lemma_number_bound(s: Seq<char>, radix: int)
    requires
        radix == 10 || radix == 16,
        forall|i: int| 0 <= i < s.len() ==> is_hex_digit(#[trigger] s[i]),
        radix == 10 ==> forall|i: int| 0 <= i < s.len() ==> is_digit(#[trigger] s[i]),
        s.len() <= 4,
    ensures
        0 <= number_value(s, radix),
        s.len() == 0 ==> number_value(s, radix) == 0,
        s.len() == 1 ==> number_value(s, radix) < radix,
        s.len() == 2 ==> number_value(s, radix) < radix * radix,
        s.len() == 3 ==> number_value(s, radix) < radix * radix * radix,
        s.len() == 4 ==> number_value(s, radix) < radix * radix * radix * radix,
    decreases s.len(),
{
    if s.len() > 0 {
        let t = s.drop_last();
        assert forall|i: int| 0 <= i < t.len() implies is_hex_digit(#[trigger] t[i]) by {
            assert(t[i] == s[i]);
        }
        if radix == 10 {
            assert forall|i: int| 0 <= i < t.len() implies is_digit(#[trigger] t[i]) by {
                assert(t[i] == s[i]);
            }
            assert(is_digit(s[s.len() - 1]));
        }
        assert(is_hex_digit(s[s.len() - 1]));
        lemma_number_bound(t, radix);
    }
}

/// The value of one hexadecimal digit.
fn hex_digit(c: char) -> (r: Option<u32>)
    ensures
        r is Some <==> is_hex_digit(c),
        r matches Some(d) ==> d == digit_value(c) && d < 16,
{
    if c >= '0' && c <= '9' {
        Some(c as u32 - '0' as u32)
    } else if c >= 'a' && c <= 'f' {
        Some(c as u32 - 'a' as u32 + 10)
    } else if c >= 'A' && c <= 'F' {
        Some(c as u32 - 'A' as u32 + 10)
    } else {
        None
    }
}

/// Reads the field `s[lo..hi]` as an octet.
fn parse_octet(s: &Vec<char>, lo: usize, hi: usize) -> (r: Option<u8>)
    requires
        lo <= hi <= s.len(),
    ensures
        r == octet_value(s@.subrange(lo as int, hi as int)),
{
    let ghost f = s@.subrange(lo as int, hi as int);
    if hi - lo < 1 || hi - lo > 3 {
        return None;
    }
    if hi - lo > 1 && s[lo] == '0' {
        assert(f[0] == '0');
        return None;
    }
    let mut acc: u32 = 0;
    let mut i: usize = lo;
    while i < hi
        invariant
            lo <= i <= hi <= s.len(),
            hi - lo <= 3,
            f == s@.subrange(lo as int, hi as int),
            forall|k: int| 0 <= k < i - lo ==> is_digit(#[trigger] f[k]),
            acc == number_value(f.take(i - lo), 10),
            acc < 1000,
        decreases hi - i,
    {
        let c = s[i];
        if !(c >= '0' && c <= '9') {
            assert(!is_digit(f[i - lo]));
            return None;
        }
        proof {
            let t = f.take(i - lo + 1);
            assert(t.drop_last() =~= f.take(i - lo));
            assert(t.last() == c);
            assert forall|k: int| 0 <= k < t.len() implies is_hex_digit(#[trigger] t[k]) by {
                assert(is_digit(f[k]));
            }
            assert forall|k: int| 0 <= k < t.len() implies is_digit(#[trigger] t[k]) by {
                assert(is_digit(f[k]));
            }
            lemma_number_bound(t, 10);
        }
        acc = acc * 10 + (c as u32 - '0' as u32);
        i = i + 1;
    }
    assert(f.take(hi - lo) =~= f);
    if acc > 255 {
        None
    } else {
        Some(acc as u8)
    }
}

/// Reads the field `s[lo..hi]` as a group.
fn parse_group(s: &Vec<char>, lo: usize, hi: usize) -> (r: Option<u16>)
    requires
        lo <= hi <= s.len(),
    ensures
        r == group_value(s@.subrange(lo as int, hi as int)),
{
    let ghost f = s@.subrange(lo as int, hi as int);
    if hi - lo < 1 || hi - lo > 4 {
        return None;
    }
    let mut acc: u32 = 0;
    let mut i: usize = lo;
    while i < hi
        invariant
            lo <= i <= hi <= s.len(),
            hi - lo <= 4,
            f == s@.subrange(lo as int, hi as int),
            forall|k: int| 0 <= k < i - lo ==> is_hex_digit(#[trigger] f[k]),
            acc == number_value(f.take(i - lo), 16),
            acc < 0x10000,
        decreases hi - i,
    {
        let c = s[i];
        match hex_digit(c) {
            None => {
                assert(!is_hex_digit(f[i - lo]));
                return None;
            },
            Some(d) => {
                proof {
                    let t = f.take(i - lo + 1);
                    assert(t.drop_last() =~= f.take(i - lo));
                    assert(t.last() == c);
                    assert forall|k: int| 0 <= k < t.len() implies is_hex_digit(#[trigger] t[k]) by {
                        assert(is_hex_digit(f[k]));
                    }
                    lemma_number_bound(t, 16);
                    lemma_number_bound(f.take(i - lo), 16);
                }
                acc = acc * 16 + d;
                i = i + 1;
            },
        }
    }
    assert(f.take(hi - lo) =~= f);
    Some(acc as u16)
}

/// Whether `r` lists, as index pairs into `s`, the fields of `s[lo..hi]`.
pub open spec fn fields_at(r: Seq<(usize, usize)>, s: Seq<char>, lo: int, hi: int, sep: char) -> bool {
    let f = split(s.subrange(lo, hi), sep);
    &&& r.len() == f.len()
    &&& forall|j: int|
        0 <= j < r.len() ==> lo <= (#[trigger] r[j]).0 <= r[j].1 <= hi && s.subrange(
            r[j].0 as int,
            r[j].1 as int,
        ) == f[j]
}

/// Splits `s[lo..hi]` at each `sep` and returns the bounds of the fields.
fn split_ranges(s: &Vec<char>, lo: usize, hi: usize, sep: char) -> (r: Vec<(usize, usize)>)
    requires
        lo <= hi <= s.len(),
    ensures
        fields_at(r@, s@, lo as int, hi as int, sep),
{
    let mut closed: Vec<(usize, usize)> = Vec::new();
    let mut start: usize = lo;
    let mut i: usize = lo;
    assert(s@.subrange(lo as int, lo as int) =~= Seq::<char>::empty());
    while i < hi
        invariant
            lo <= start <= i <= hi <= s.len(),
            split(s@.subrange(lo as int, i as int), sep).len() == closed.len() + 1,
            split(s@.subrange(lo as int, i as int), sep).last() == s@.subrange(
                start as int,
                i as int,
            ),
            forall|j: int|
                0 <= j < closed.len() ==> lo <= (#[trigger] closed[j]).0 <= closed[j].1 <= hi
                    && s@.subrange(closed[j].0 as int, closed[j].1 as int) == split(
                    s@.subrange(lo as int, i as int),
                    sep,
                )[j],
        decreases hi - i,
    {
        let ghost before = s@.subrange(lo as int, i as int);
        let ghost after = s@.subrange(lo as int, i + 1);
        assert(after.drop_last() =~= before);
        assert(after.last() == s[i as int]);
        if s[i] == sep {
            closed.push((start, i));
            start = i + 1;
            assert(s@.subrange(start as int, start as int) =~= Seq::<char>::empty());
        } else {
            assert(s@.subrange(start as int, i + 1) =~= s@.subrange(start as int, i as int).push(
                s[i as int],
            ));
        }
        i = i + 1;
    }
    closed.push((start, hi));
    closed
}


// ---------------------------------------------------------------------------
// The dotted form
// ---------------------------------------------------------------------------

/// The four octets that a dotted text denotes: exactly four fields between
/// dots, each of them an octet.
pub open spec fn dotted_value(s: Seq<char>) -> Option<(u8, u8, u8, u8)> {
    let f = split(s, '.');
    if f.len() == 4 && octet_value(f[0]) is Some && octet_value(f[1]) is Some && octet_value(
        f[2],
    ) is Some && octet_value(f[3]) is Some {
        Some((octet_value(f[0])->0, octet_value(f[1])->0, octet_value(f[2])->0, octet_value(f[3])->0))
    } else {
        None
    }
}

/// Reads `s[lo..hi]` as a dotted text.
fn parse_dotted(s: &Vec<char>, lo: usize, hi: usize) -> (r: Option<(u8, u8, u8, u8)>)
    requires
        lo <= hi <= s.len(),
    ensures
        r == dotted_value(s@.subrange(lo as int, hi as int)),
{
    let ranges = split_ranges(s, lo, hi, '.');
    if ranges.len() != 4 {
        return None;
    }
    let a = parse_octet(s, ranges[0].0, ranges[0].1);
    let b = parse_octet(s, ranges[1].0, ranges[1].1);
    let c = parse_octet(s, ranges[2].0, ranges[2].1);
    let d = parse_octet(s, ranges[3].0, ranges[3].1);
    match (a, b, c, d) {
        (Some(a), Some(b), Some(c), Some(d)) => Some((a, b, c, d)),
        _ => None,
    }
}

// ---------------------------------------------------------------------------
// The colon form
// ---------------------------------------------------------------------------

/// The groups that a run of colon-separated fields denotes. Every field is a
/// group; where `dotted_tail` holds, the last field may instead be a dotted
/// text, which stands for two groups. The empty text denotes no group.
pub open spec fn groups_value(s: Seq<char>, dotted_tail: bool) -> Option<Seq<u16>> {
    if s.len() == 0 {
        Some(Seq::<u16>::empty())
    } else {
        let f = split(s, ':');
        let init = f.drop_last();
        if forall|i: int| 0 <= i < init.len() ==> group_value(#[trigger] init[i]) is Some {
            let head = Seq::new(init.len(), |i: int| group_value(init[i])->0);
            if group_value(f.last()) is Some {
                Some(head.push(group_value(f.last())->0))
            } else if dotted_tail && dotted_value(f.last()) is Some {
                let q = dotted_value(f.last())->0;
                Some(head.push((q.0 * 256 + q.1) as u16).push((q.2 * 256 + q.3) as u16))
            } else {
                None
            }
        } else {
            None
        }
    }
}

/// Reads `s[lo..hi]` as a run of groups.
fn parse_groups(s: &Vec<char>, lo: usize, hi: usize, dotted_tail: bool) -> (r: Option<Vec<u16>>)
    requires
        lo <= hi <= s.len(),
    ensures
        r is Some <==> groups_value(s@.subrange(lo as int, hi as int), dotted_tail) is Some,
        r matches Some(v) ==> v@ == groups_value(s@.subrange(lo as int, hi as int), dotted_tail)->0,
{
    let mut out: Vec<u16> = Vec::new();
    if lo == hi {
        return Some(out);
    }
    let ghost f = split(s@.subrange(lo as int, hi as int), ':');
    let ghost init = f.drop_last();
    let ranges = split_ranges(s, lo, hi, ':');
    let n = ranges.len();
    let mut j: usize = 0;
    while j < n - 1
        invariant
            n == ranges.len(),
            n >= 1,
            j <= n - 1,
            lo <= hi <= s.len(),
            f == split(s@.subrange(lo as int, hi as int), ':'),
            init == f.drop_last(),
            fields_at(ranges@, s@, lo as int, hi as int, ':'),
            forall|i: int| 0 <= i < j ==> group_value(#[trigger] init[i]) is Some,
            out@ == Seq::new(j as nat, |i: int| group_value(init[i])->0),
        decreases n - 1 - j,
    {
        let (a, b) = ranges[j];
        assert(ranges@[j as int] == (a, b));
        match parse_group(s, a, b) {
            None => {
                assert(init[j as int] == f[j as int]);
                assert(!(group_value(init[j as int]) is Some));
                return None;
            },
            Some(v) => {
                assert(init[j as int] == f[j as int]);
                out.push(v);
                assert(out@ =~= Seq::new((j + 1) as nat, |i: int| group_value(init[i])->0));
            },
        }
        j = j + 1;
    }
    let (a, b) = ranges[n - 1];
    assert(ranges@[n - 1] == (a, b));
    assert(out@ =~= Seq::new(init.len(), |i: int| group_value(init[i])->0));
    match parse_group(s, a, b) {
        Some(v) => {
            out.push(v);
            Some(out)
        },
        None => {
            if dotted_tail {
                match parse_dotted(s, a, b) {
                    Some((q0, q1, q2, q3)) => {
                        out.push(q0 as u16 * 256 + q1 as u16);
                        out.push(q2 as u16 * 256 + q3 as u16);
                        Some(out)
                    },
                    None => None,
                }
            } else {
                None
            }
        },
    }
}

/// Whether two colons stand side by side at `p`.
pub open spec fn is_gap(s: Seq<char>, p: int) -> bool {
    0 <= p && p + 1 < s.len() && s[p] == ':' && s[p + 1] == ':'
}

/// The first place at or after `from` where two colons stand side by side.
pub open spec fn first_gap(s: Seq<char>, from: int) -> Option<int>
    decreases s.len() - from,
{
    if from < 0 || from + 1 >= s.len() {
        None
    } else if is_gap(s, from) {
        Some(from)
    } else {
        first_gap(s, from + 1)
    }
}

fn find_gap(s: &Vec<char>) -> (r: Option<usize>)
    ensures
        r is Some <==> first_gap(s@, 0) is Some,
        r matches Some(p) ==> first_gap(s@, 0) == Some(p as int) && p + 2 <= s.len(),
{
    if s.len() < 2 {
        return None;
    }
    let mut i: usize = 0;
    while i < s.len() - 1
        invariant
            s.len() >= 2,
            i <= s.len() - 1,
            first_gap(s@, 0) == first_gap(s@, i as int),
        decreases s.len() - i,
    {
        if s[i] == ':' && s[i + 1] == ':' {
            return Some(i);
        }
        i = i + 1;
    }
    None
}

/// The address whose eight groups are `g`.
pub open spec fn v6_of(g: Seq<u16>) -> IpAddress {
    IpAddress::V6(g[0], g[1], g[2], g[3], g[4], g[5], g[6], g[7])
}

/// The address that a colon text denotes. Without a gap of two colons the
/// text holds all eight groups. With a gap, the groups before it come first,
/// those after it come last, and zero groups, at least one, fill the rest.
/// A dotted text may only stand at the very end, for the last two groups.
pub open spec fn colon_value(s: Seq<char>) -> Option<IpAddress> {
    match first_gap(s, 0) {
        None => {
            let g = groups_value(s, true);
            if g is Some && g->0.len() == 8 {
                Some(v6_of(g->0))
            } else {
                None
            }
        },
        Some(p) => {
            let h = groups_value(s.take(p), false);
            let t = groups_value(s.skip(p + 2), true);
            if h is Some && t is Some && h->0.len() + t->0.len() <= 7 {
                let zeros = Seq::new((8 - h->0.len() - t->0.len()) as nat, |i: int| 0u16);
                Some(v6_of(h->0 + zeros + t->0))
            } else {
                None
            }
        },
    }
}

fn parse_colon(s: &Vec<char>) -> (r: Option<IpAddress>)
    ensures
        r == colon_value(s@),
{
    let len = s.len();
    match find_gap(s) {
        None => {
            assert(s@.subrange(0, len as int) =~= s@);
            match parse_groups(s, 0, len, true) {
                Some(g) => {
                    if g.len() == 8 {
                        Some(IpAddress::V6(g[0], g[1], g[2], g[3], g[4], g[5], g[6], g[7]))
                    } else {
                        None
                    }
                },
                None => None,
            }
        },
        Some(p) => {
            assert(s@.subrange(0, p as int) =~= s@.take(p as int));
            assert(s@.subrange(p + 2, len as int) =~= s@.skip(p + 2));
            let head = parse_groups(s, 0, p, false);
            let tail = parse_groups(s, p + 2, len, true);
            match (head, tail) {
                (Some(h), Some(t)) => {
                    if h.len() > 7 || t.len() > 7 - h.len() {
                        return None;
                    }
                    let ghost zeros = Seq::new((8 - h.len() - t.len()) as nat, |i: int| 0u16);
                    let mut g: Vec<u16> = Vec::new();
                    let mut i: usize = 0;
                    while i < 8
                        invariant
                            i <= 8,
                            h.len() + t.len() <= 7,
                            zeros == Seq::new((8 - h.len() - t.len()) as nat, |i: int| 0u16),
                            g@ == (h@ + zeros + t@).take(i as int),
                        decreases 8 - i,
                    {
                        let v = if i < h.len() {
                            h[i]
                        } else if i < 8 - t.len() {
                            0u16
                        } else {
                            t[i - (8 - t.len())]
                        };
                        g.push(v);
                        assert(g@ =~= (h@ + zeros + t@).take(i + 1));
                        i = i + 1;
                    }
                    assert(g@ =~= h@ + zeros + t@);
                    Some(IpAddress::V6(g[0], g[1], g[2], g[3], g[4], g[5], g[6], g[7]))
                },
                _ => None,
            }
        },
    }
}

// ---------------------------------------------------------------------------
// Either form
// ---------------------------------------------------------------------------

/// The address that `s` denotes, if it is the text of one: a dotted text
/// with four octets, or else a colon text.
pub open spec fn address_value(s: Seq<char>) -> Option<IpAddress> {
    match dotted_value(s) {
        Some(q) => Some(IpAddress::V4(q.0, q.1, q.2, q.3)),
        None => colon_value(s),
    }
}

impl IpAddress {
    /// Reads an address from its text. Returns `None` exactly when `text`
    /// is not the text of an address.
    pub fn parse(text: &str) -> (r: Option<IpAddress>)
        ensures
            r == address_value(text@),
    {
        let s = chars_of(text);
        assert(s@.subrange(0, s.len() as int) =~= s@);
        match parse_dotted(&s, 0, s.len()) {
            Some((a, b, c, d)) => Some(IpAddress::V4(a, b, c, d)),
            None => parse_colon(&s),
        }
    }
}


// ---------------------------------------------------------------------------
// Writing an address
// ---------------------------------------------------------------------------

/// The character that writes the digit `d`: letters in lower case.
pub open spec fn digit_char(d: int) -> char {
    if d < 10 {
        ('0' as int + d) as char
    } else {
        ('a' as int + d - 10) as char
    }
}

/// `n` in decimal, without leading zeros.
pub open spec fn dec_text(n: nat) -> Seq<char>
    decreases n,
{
    if n < 10 {
        seq![digit_char(n as int)]
    } else {
        dec_text(n / 10).push(digit_char((n % 10) as int))
    }
}

/// `n` in hexadecimal, without leading zeros.
pub open spec fn hex_text(n: nat) -> Seq<char>
    decreases n,
{
    if n < 16 {
        seq![digit_char(n as int)]
    } else {
        hex_text(n / 16).push(digit_char((n % 16) as int))
    }
}

/// Four octets with dots between them.
pub open spec fn dotted_text(a: u8, b: u8, c: u8, d: u8) -> Seq<char> {
    dec_text(a as nat) + seq!['.'] + dec_text(b as nat) + seq!['.'] + dec_text(c as nat) + seq!['.']
        + dec_text(d as nat)
}

/// Groups with single colons between them.
pub open spec fn groups_text(g: Seq<u16>) -> Seq<char>
    decreases g.len(),
{
    if g.len() == 0 {
        Seq::<char>::empty()
    } else if g.len() == 1 {
        hex_text(g[0] as nat)
    } else {
        groups_text(g.drop_last()) + seq![':'] + hex_text(g.last() as nat)
    }
}

/// How many zero groups stand in a row from `i` on.
pub open spec fn zero_run(g: Seq<u16>, i: int) -> nat
    decreases g.len() - i,
{
    if 0 <= i < g.len() && g[i] == 0 {
        1 + zero_run(g, i + 1)
    } else {
        0
    }
}

/// Among the places before `n`, the first one from which the longest run of
/// zero groups starts.
pub open spec fn longest_zero_run(g: Seq<u16>, n: int) -> int
    decreases n,
{
    if n <= 1 {
        0
    } else {
        let best = longest_zero_run(g, n - 1);
        if zero_run(g, n - 1) > zero_run(g, best) {
            n - 1
        } else {
            best
        }
    }
}

/// Whether the groups hold four octets behind the prefix `0:0:0:0:0:ffff`.
pub open spec fn is_mapped(g: Seq<u16>) -> bool {
    g[0] == 0 && g[1] == 0 && g[2] == 0 && g[3] == 0 && g[4] == 0 && g[5] == 0xffff
}

/// The text of eight groups. Mapped octets are written dotted behind
/// `::ffff:`. Otherwise the first longest run of two or more zero groups is
/// written as `::`, and what stands before and after it as groups.
pub open spec fn colon_text(g: Seq<u16>) -> Seq<char> {
    if is_mapped(g) {
        seq![':', ':', 'f', 'f', 'f', 'f', ':'] + dotted_text(
            (g[6] / 256) as u8,
            (g[6] % 256) as u8,
            (g[7] / 256) as u8,
            (g[7] % 256) as u8,
        )
    } else {
        let start = longest_zero_run(g, 8);
        let len = zero_run(g, start);
        if len > 1 {
            groups_text(g.take(start)) + seq![':', ':'] + groups_text(g.skip(start + len))
        } else {
            groups_text(g)
        }
    }
}

/// The text in which an address is written.
pub open spec fn address_text(ip: IpAddress) -> Seq<char> {
    match ip {
        IpAddress::V4(a, b, c, d) => dotted_text(a, b, c, d),
        IpAddress::V6(a, b, c, d, e, f, g, h) => colon_text(seq![a, b, c, d, e, f, g, h]),
    }
}

fn digit_of(d: u32) -> (c: char)
    requires
        d < 16,
    ensures
        c == digit_char(d as int),
{
    if d < 10 {
        (48u8 + d as u8) as char
    } else {
        (97u8 + (d as u8 - 10)) as char
    }
}

fn push_dec(out: &mut String, n: u8)
    ensures
        final(out)@ == old(out)@ + dec_text(n as nat),
{
    reveal_with_fuel(dec_text, 3);
    let ghost before = out@;
    let n = n as u32;
    if n >= 100 {
        out.push(digit_of(n / 100));
    }
    if n >= 10 {
        out.push(digit_of((n / 10) % 10));
    }
    out.push(digit_of(n % 10));
    assert(out@ =~= before + dec_text(n as nat));
}

fn push_hex(out: &mut String, n: u16)
    ensures
        final(out)@ == old(out)@ + hex_text(n as nat),
{
    reveal_with_fuel(hex_text, 4);
    let ghost before = out@;
    let n = n as u32;
    if n >= 0x1000 {
        out.push(digit_of(n / 0x1000));
    }
    if n >= 0x100 {
        out.push(digit_of((n / 0x100) % 16));
    }
    if n >= 0x10 {
        out.push(digit_of((n / 0x10) % 16));
    }
    out.push(digit_of(n % 16));
    assert(out@ =~= before + hex_text(n as nat));
}

fn push_dotted(out: &mut String, a: u8, b: u8, c: u8, d: u8)
    ensures
        final(out)@ == old(out)@ + dotted_text(a, b, c, d),
{
    let ghost before = out@;
    push_dec(out, a);
    out.push('.');
    push_dec(out, b);
    out.push('.');
    push_dec(out, c);
    out.push('.');
    push_dec(out, d);
    assert(out@ =~= before + dotted_text(a, b, c, d));
}

fn push_groups(out: &mut String, g: &Vec<u16>, lo: usize, hi: usize)
    requires
        lo <= hi <= g.len(),
    ensures
        final(out)@ == old(out)@ + groups_text(g@.subrange(lo as int, hi as int)),
{
    let ghost before = out@;
    let mut i: usize = lo;
    assert(g@.subrange(lo as int, lo as int) =~= Seq::<u16>::empty());
    while i < hi
        invariant
            lo <= i <= hi <= g.len(),
            out@ == before + groups_text(g@.subrange(lo as int, i as int)),
        decreases hi - i,
    {
        let ghost sofar = out@;
        if i > lo {
            out.push(':');
        }
        push_hex(out, g[i]);
        proof {
            let next = g@.subrange(lo as int, i + 1);
            assert(next.drop_last() =~= g@.subrange(lo as int, i as int));
            assert(next.last() == g[i as int]);
            assert(out@ =~= before + groups_text(next));
        }
        i = i + 1;
    }
}

fn run_at(g: &Vec<u16>, i: usize) -> (k: usize)
    requires
        i <= g.len(),
    ensures
        k == zero_run(g@, i as int),
        i + k <= g.len(),
{
    let mut k: usize = 0;
    while i + k < g.len() && g[i + k] == 0
        invariant
            i + k <= g.len(),
            zero_run(g@, i as int) == k + zero_run(g@, i + k),
        decreases g.len() - i - k,
    {
        k = k + 1;
    }
    k
}

impl IpAddress {
    /// Writes the address as text.
    pub fn to_text(&self) -> (r: String)
        ensures
            r@ == address_text(*self),
    {
        let mut out = String::new();
        match *self {
            IpAddress::V4(a, b, c, d) => {
                push_dotted(&mut out, a, b, c, d);
                assert(out@ =~= dotted_text(a, b, c, d));
            },
            IpAddress::V6(a, b, c, d, e, f, g, h) => {
                let mut v: Vec<u16> = Vec::new();
                v.push(a);
                v.push(b);
                v.push(c);
                v.push(d);
                v.push(e);
                v.push(f);
                v.push(g);
                v.push(h);
                assert(v@ =~= seq![a, b, c, d, e, f, g, h]);
                if a == 0 && b == 0 && c == 0 && d == 0 && e == 0 && f == 0xffff {
                    out.push(':');
                    out.push(':');
                    out.push('f');
                    out.push('f');
                    out.push('f');
                    out.push('f');
                    out.push(':');
                    assert(out@ =~= seq![':', ':', 'f', 'f', 'f', 'f', ':']);
                    push_dotted(&mut out, (g / 256) as u8, (g % 256) as u8, (h / 256) as u8, (h % 256) as u8);
                } else {
                    let mut best: usize = 0;
                    let mut best_len: usize = run_at(&v, 0);
                    let mut n: usize = 1;
                    while n < 8
                        invariant
                            1 <= n <= 8,
                            v.len() == 8,
                            best == longest_zero_run(v@, n as int),
                            best < n,
                            best_len == zero_run(v@, best as int),
                            best + best_len <= 8,
                        decreases 8 - n,
                    {
                        let k = run_at(&v, n);
                        if k > best_len {
                            best = n;
                            best_len = k;
                        }
                        n = n + 1;
                    }
                    if best_len > 1 {
                        assert(v@.subrange(0, best as int) =~= v@.take(best as int));
                        assert(v@.subrange(best + best_len, 8) =~= v@.skip(best + best_len));
                        push_groups(&mut out, &v, 0, best);
                        out.push(':');
                        out.push(':');
                        push_groups(&mut out, &v, best + best_len, 8);
                        assert(out@ =~= groups_text(v@.take(best as int)) + seq![':', ':']
                            + groups_text(v@.skip(best + best_len)));
                    } else {
                        assert(v@.subrange(0, 8) =~= v@);
                        push_groups(&mut out, &v, 0, 8);
                        assert(out@ =~= groups_text(v@));
                    }
                }
            },
        }
        out
    }
}

} // verus!
