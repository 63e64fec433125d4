//! The grammar of the reader, as functions on bytes.
//!
//! Every function here takes the whole input and an offset into it, and says
//! where the construct that starts at that offset ends, and what it denotes.
//! The first bytes of a token say which construct is to come, and nothing
//! else is tried where that construct does not follow: an unfinished list or
//! a quoted atom with an escape that is not allowed is no token at all. A
//! repetition takes as many items as it can.
use vstd::prelude::*;
use crate::error::ErrorKind;

verus! {

pub const SPACE: u8 = 0x20;

pub const TAB: u8 = 0x09;

pub const CARRIAGE_RETURN: u8 = 0x0d;

pub const LINE_FEED: u8 = 0x0a;

pub const OPEN_PAREN: u8 = 0x28;

pub const CLOSE_PAREN: u8 = 0x29;

pub const OPEN_BRACKET: u8 = 0x5b;

pub const CLOSE_BRACKET: u8 = 0x5d;

pub const QUOTE: u8 = 0x22;

pub const BACKSLASH: u8 = 0x5c;

pub const HASH: u8 = 0x23;

pub const LESS_THAN: u8 = 0x3c;

pub const GREATER_THAN: u8 = 0x3e;

pub const LOWER_N: u8 = 0x6e;

/// What a piece of input denotes: the shape of a token, with the bytes of its
/// atoms.
pub enum Sexp {
    /// A symbol, a quoted string with its quotes, or a `#<...>` literal, as written.
    Atom(Seq<u8>),
    /// The items between `(` and `)`.
    List(Seq<Sexp>),
    /// The quoted string of a `#(...)` literal, as written, and the items after it.
    Text(Seq<u8>, Seq<Sexp>),
    /// The items between `[` and `]`.
    Vector(Seq<Sexp>),
}

/// Space, tab, carriage return and line feed separate tokens.
pub open spec fn is_blank(b: u8) -> bool {
    b == SPACE || b == TAB || b == CARRIAGE_RETURN || b == LINE_FEED
}

/// `)` and `]` close a sequence.
pub open spec fn is_closer(b: u8) -> bool {
    b == CLOSE_PAREN || b == CLOSE_BRACKET
}

/// The bytes that end a bare atom, and with which no token starts.
pub open spec fn ends_bare(b: u8) -> bool {
    is_blank(b) || is_closer(b)
}

/// The bytes that may follow a backslash inside a quoted atom.
pub open spec fn is_escapable(b: u8) -> bool {
    b == QUOTE || b == LOWER_N || b == BACKSLASH
}

/// The first offset at or after `pos` that holds no blank.
pub open spec fn blanks_end(s: Seq<u8>, pos: int) -> int
    decreases s.len() - pos,
{
    if 0 <= pos < s.len() && is_blank(s[pos]) {
        blanks_end(s, pos + 1)
    } else {
        pos
    }
}

/// Skipping blanks never goes back, stops inside the input or at its end, and
/// stops at a byte that is no blank.
pub proof fn lemma_blanks_end_bounds(s: Seq<u8>, pos: int)
    ensures
        pos <= blanks_end(s, pos),
        0 <= pos <= s.len() ==> blanks_end(s, pos) <= s.len(),
        0 <= blanks_end(s, pos) < s.len() ==> !is_blank(s[blanks_end(s, pos)]),
    decreases s.len() - pos,
{
    if 0 <= pos < s.len() && is_blank(s[pos]) {
        lemma_blanks_end_bounds(s, pos + 1);
    }
}

/// The first offset at or after `pos` that holds a blank or a closer.
pub open spec fn bare_end(s: Seq<u8>, pos: int) -> int
    decreases s.len() - pos,
{
    if 0 <= pos < s.len() && !ends_bare(s[pos]) {
        bare_end(s, pos + 1)
    } else {
        pos
    }
}

/// A bare atom never goes back, ends inside the input or at its end, and ends
/// at a blank or a closer.
pub proof fn lemma_bare_end_bounds(s: Seq<u8>, pos: int)
    ensures
        pos <= bare_end(s, pos),
        0 <= pos <= s.len() ==> bare_end(s, pos) <= s.len(),
        0 <= bare_end(s, pos) < s.len() ==> ends_bare(s[bare_end(s, pos)]),
    decreases s.len() - pos,
{
    if 0 <= pos < s.len() && !ends_bare(s[pos]) {
        lemma_bare_end_bounds(s, pos + 1);
    }
}

/// Where the quoted atom ends whose interior goes on at `pos`: just after the
/// first quote that no backslash escapes. There is none if the input ends
/// first, or if a backslash stands before anything but `"`, `n` or `\`.
pub open spec fn quoted_end(s: Seq<u8>, pos: int) -> Option<int>
    decreases s.len() - pos,
{
    if pos < 0 || pos >= s.len() {
        None
    } else if s[pos] == QUOTE {
        Some(pos + 1)
    } else if s[pos] == BACKSLASH {
        if pos + 1 < s.len() && is_escapable(s[pos + 1]) {
            quoted_end(s, pos + 2)
        } else {
            None
        }
    } else {
        quoted_end(s, pos + 1)
    }
}

/// A quoted atom ends after the offset at which its interior is entered, and
/// within the input.
pub proof fn lemma_quoted_end_bounds(s: Seq<u8>, pos: int)
    ensures
        quoted_end(s, pos) matches Some(end) ==> pos < end <= s.len(),
    decreases s.len() - pos,
{
    if 0 <= pos < s.len() && s[pos] != QUOTE {
        if s[pos] == BACKSLASH {
            if pos + 1 < s.len() && is_escapable(s[pos + 1]) {
                lemma_quoted_end_bounds(s, pos + 2);
            }
        } else {
            lemma_quoted_end_bounds(s, pos + 1);
        }
    }
}

/// The end of the quoted atom that starts at `pos`, if one does.
pub open spec fn quoted_atom(s: Seq<u8>, pos: int) -> Option<int> {
    if 0 <= pos < s.len() && s[pos] == QUOTE {
        quoted_end(s, pos + 1)
    } else {
        None
    }
}

/// Just after the first `>` at or after `pos`, if there is one.
pub open spec fn hash_end(s: Seq<u8>, pos: int) -> Option<int>
    decreases s.len() - pos,
{
    if pos < 0 || pos >= s.len() {
        None
    } else if s[pos] == GREATER_THAN {
        Some(pos + 1)
    } else {
        hash_end(s, pos + 1)
    }
}

/// A `#<...>` literal ends after the offset from which its `>` is sought, and
/// within the input.
pub proof fn lemma_hash_end_bounds(s: Seq<u8>, pos: int)
    ensures
        hash_end(s, pos) matches Some(end) ==> pos < end <= s.len(),
    decreases s.len() - pos,
{
    if 0 <= pos < s.len() && s[pos] != GREATER_THAN {
        lemma_hash_end_bounds(s, pos + 1);
    }
}

/// The end of the `#<...>` literal that starts at `pos`, if one does.
pub open spec fn hash_literal(s: Seq<u8>, pos: int) -> Option<int> {
    if 0 <= pos && pos + 1 < s.len() && s[pos] == HASH && s[pos + 1] == LESS_THAN {
        hash_end(s, pos + 2)
    } else {
        None
    }
}

/// Whether a text with properties is announced at `pos`: by `#(`.
pub open spec fn starts_text(s: Seq<u8>, pos: int) -> bool {
    0 <= pos && pos + 1 < s.len() && s[pos] == HASH && s[pos + 1] == OPEN_PAREN
}

/// Whether a `#<...>` literal is announced at `pos`: by `#<`.
pub open spec fn starts_hash(s: Seq<u8>, pos: int) -> bool {
    0 <= pos && pos + 1 < s.len() && s[pos] == HASH && s[pos + 1] == LESS_THAN
}

/// The token that starts at `pos`, and the offset just after it.
///
/// What stands at `pos` says which token is to come: `(` a list, `[` a
/// vector, anything else an atom. A list or a vector that is announced and
/// does not follow is no token: nothing else is tried in its place.
pub open spec fn token(s: Seq<u8>, pos: int) -> Option<(Sexp, int)>
    decreases s.len() - pos, 3nat,
{
    if pos < 0 || pos >= s.len() {
        None
    } else if s[pos] == OPEN_PAREN {
        match group(s, pos, OPEN_PAREN, CLOSE_PAREN) {
            Some((items, end)) => Some((Sexp::List(items), end)),
            None => None,
        }
    } else if s[pos] == OPEN_BRACKET {
        match group(s, pos, OPEN_BRACKET, CLOSE_BRACKET) {
            Some((items, end)) => Some((Sexp::Vector(items), end)),
            None => None,
        }
    } else {
        atom(s, pos)
    }
}

/// The atom that starts at `pos`, and the offset just after it.
///
/// No atom starts at the end of the input, at a blank or at a closer.
/// Elsewhere, what stands at `pos` says which atom is to come: `#(` a text
/// with properties, `#<` a literal that ends with `>`, a quote a quoted atom,
/// anything else the bare atom that runs up to the next blank or closer. An
/// atom that is announced and does not follow is no atom: a quoted atom that
/// does not end or holds a backslash before anything but `"`, `n` or `\` is
/// not read as a bare atom.
pub open spec fn atom(s: Seq<u8>, pos: int) -> Option<(Sexp, int)>
    decreases s.len() - pos, 2nat,
{
    if pos < 0 || pos >= s.len() || ends_bare(s[pos]) {
        None
    } else if starts_text(s, pos) {
        text_with_properties(s, pos)
    } else if starts_hash(s, pos) {
        match hash_literal(s, pos) {
            Some(end) => Some((Sexp::Atom(s.subrange(pos, end)), end)),
            None => None,
        }
    } else if s[pos] == QUOTE {
        match quoted_atom(s, pos) {
            Some(end) => Some((Sexp::Atom(s.subrange(pos, end)), end)),
            None => None,
        }
    } else {
        Some((Sexp::Atom(s.subrange(pos, bare_end(s, pos))), bare_end(s, pos)))
    }
}

/// The sequence that starts at `pos` with the byte `open`: blanks, one token
/// at least, further tokens with blanks before each, blanks, and the byte
/// `close`.
pub open spec fn group(s: Seq<u8>, pos: int, open: u8, close: u8) -> Option<(Seq<Sexp>, int)>
    decreases s.len() - pos, 2nat,
{
    if 0 <= pos < s.len() && s[pos] == open {
        let (items, end) = run(s, pos + 1, true);
        let stop = blanks_end(s, end);
        if items.len() > 0 && 0 <= stop < s.len() && s[stop] == close {
            Some((items, stop + 1))
        } else {
            None
        }
    } else {
        None
    }
}

/// The text with properties that starts at `pos`: `#(`, blanks, a quoted atom,
/// tokens with blanks before each, blanks, and `)`.
pub open spec fn text_with_properties(s: Seq<u8>, pos: int) -> Option<(Sexp, int)>
    decreases s.len() - pos, 1nat,
{
    if 0 <= pos && pos + 1 < s.len() && s[pos] == HASH && s[pos + 1] == OPEN_PAREN {
        let start = blanks_end(s, pos + 2);
        match quoted_atom(s, start) {
            Some(quote_end) => {
                proof {
                    lemma_blanks_end_bounds(s, pos + 2);
                    lemma_quoted_end_bounds(s, start + 1);
                }
                let (properties, end) = run(s, quote_end, false);
                let stop = blanks_end(s, end);
                if 0 <= stop < s.len() && s[stop] == CLOSE_PAREN {
                    Some((Sexp::Text(s.subrange(start, quote_end), properties), stop + 1))
                } else {
                    None
                }
            },
            None => None,
        }
    } else {
        None
    }
}

/// As many tokens as follow `pos`, each after one blank at least, and the
/// offset just after the last of them (`pos` itself where there is none).
/// With `leading` set, the first token may follow `pos` without a blank.
pub open spec fn run(s: Seq<u8>, pos: int, leading: bool) -> (Seq<Sexp>, int)
    decreases s.len() - pos, 4nat,
{
    let start = blanks_end(s, pos);
    proof {
        lemma_blanks_end_bounds(s, pos);
    }
    if leading || start > pos {
        match token(s, start) {
            Some((item, end)) => {
                if start < end <= s.len() {
                    let (others, last) = run(s, end, false);
                    (seq![item] + others, last)
                } else {
                    (Seq::empty(), pos)
                }
            },
            None => (Seq::empty(), pos),
        }
    } else {
        (Seq::empty(), pos)
    }
}

/// Whether what is announced at `pos` does not follow: a list or a vector
/// without an item, with an item that is no token or without its closing
/// bracket, a quoted atom that does not end or holds an escape that is not
/// allowed, a text with properties without its quoted text or its closing
/// bracket, a `#<` without a `>`.
pub open spec fn unfinished(s: Seq<u8>, pos: int) -> bool {
    &&& 0 <= pos < s.len()
    &&& {
        ||| s[pos] == OPEN_PAREN && group(s, pos, OPEN_PAREN, CLOSE_PAREN) is None
        ||| s[pos] == OPEN_BRACKET && group(s, pos, OPEN_BRACKET, CLOSE_BRACKET) is None
        ||| s[pos] == QUOTE && quoted_atom(s, pos) is None
        ||| starts_text(s, pos) && text_with_properties(s, pos) is None
        ||| starts_hash(s, pos) && hash_literal(s, pos) is None
    }
}

/// A token starts at every offset of the input but at a blank, at a closer,
/// and where what is announced does not follow.
pub proof fn lemma_token_starts(s: Seq<u8>, pos: int)
    ensures
        token(s, pos) is None <==> pos < 0 || pos >= s.len() || ends_bare(s[pos]) || unfinished(
            s,
            pos,
        ),
{
}

/// Why no token starts at `pos`.
pub open spec fn refusal(s: Seq<u8>, pos: int) -> ErrorKind {
    if pos < 0 || pos >= s.len() || is_blank(s[pos]) {
        ErrorKind::TakeTill1
    } else if is_closer(s[pos]) {
        ErrorKind::Not
    } else if s[pos] == QUOTE {
        ErrorKind::Escaped
    } else if starts_hash(s, pos) {
        ErrorKind::Tag
    } else {
        ErrorKind::SeparatedList
    }
}

/// What the reader makes of an input: its first token and the offset just
/// after it.
pub open spec fn read(s: Seq<u8>) -> Option<(Sexp, int)> {
    token(s, 0)
}

/// What the padded reader makes of an input: the token after the leading
/// blanks, and the offset just after the blanks that follow it.
pub open spec fn read_padded(s: Seq<u8>) -> Option<(Sexp, int)> {
    match token(s, blanks_end(s, 0)) {
        Some((found, end)) => Some((found, blanks_end(s, end))),
        None => None,
    }
}

} // verus!
