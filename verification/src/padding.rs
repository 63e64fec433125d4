//! What stands before a text makes no difference to how the text is read.
//!
//! The grammar looks only at the bytes from the offset on at which it is
//! asked to read. So a text that stands after other bytes reads as it reads
//! alone, with every offset moved by the length of what stands before it;
//! and blanks before a text, which the padded reader skips, change nothing.
use vstd::prelude::*;
use crate::grammar::{
    atom, bare_end, blanks_end, group, hash_end, hash_literal, is_blank, lemma_bare_end_bounds,
    lemma_blanks_end_bounds, lemma_hash_end_bounds, lemma_quoted_end_bounds, quoted_atom,
    quoted_end, read_padded, refusal, run, text_with_properties, token, Sexp,
};
use crate::printing::all_blank;

verus! {

/// An end offset, moved on by `by`.
pub open spec fn moved(end: Option<int>, by: int) -> Option<int> {
    match end {
        Some(at) => Some(at + by),
        None => None,
    }
}

/// What was read, with its end offset moved on by `by`.
pub open spec fn moved_token(found: Option<(Sexp, int)>, by: int) -> Option<(Sexp, int)> {
    match found {
        Some((form, end)) => Some((form, end + by)),
        None => None,
    }
}

/// The items that were read, with their end offset moved on by `by`.
pub open spec fn moved_items(found: Option<(Seq<Sexp>, int)>, by: int) -> Option<(Seq<Sexp>, int)> {
    match found {
        Some((items, end)) => Some((items, end + by)),
        None => None,
    }
}

/// Blanks are skipped alike after any bytes.
pub proof fn lemma_blanks_end_moves(lead: Seq<u8>, s: Seq<u8>, pos: int)
    requires
        0 <= pos,
    ensures
        blanks_end(lead + s, lead.len() + pos) == lead.len() + blanks_end(s, pos),
    decreases s.len() - pos,
{
    if pos < s.len() {
        assert((lead + s)[lead.len() + pos] == s[pos]);
        if is_blank(s[pos]) {
            lemma_blanks_end_moves(lead, s, pos + 1);
        }
    }
}

/// A bare atom ends alike after any bytes.
pub proof fn lemma_bare_end_moves(lead: Seq<u8>, s: Seq<u8>, pos: int)
    requires
        0 <= pos,
    ensures
        bare_end(lead + s, lead.len() + pos) == lead.len() + bare_end(s, pos),
    decreases s.len() - pos,
{
    if pos < s.len() {
        assert((lead + s)[lead.len() + pos] == s[pos]);
        lemma_bare_end_moves(lead, s, pos + 1);
    }
}

/// A quoted atom ends alike after any bytes.
pub proof fn lemma_quoted_end_moves(lead: Seq<u8>, s: Seq<u8>, pos: int)
    requires
        0 <= pos,
    ensures
        quoted_end(lead + s, lead.len() + pos) == moved(quoted_end(s, pos), lead.len() as int),
    decreases s.len() - pos,
{
    if pos < s.len() {
        assert((lead + s)[lead.len() + pos] == s[pos]);
        if pos + 1 < s.len() {
            assert((lead + s)[lead.len() + pos + 1] == s[pos + 1]);
            lemma_quoted_end_moves(lead, s, pos + 2);
        }
        lemma_quoted_end_moves(lead, s, pos + 1);
    }
}

/// A `#<...>` literal ends alike after any bytes.
pub proof fn lemma_hash_end_moves(lead: Seq<u8>, s: Seq<u8>, pos: int)
    requires
        0 <= pos,
    ensures
        hash_end(lead + s, lead.len() + pos) == moved(hash_end(s, pos), lead.len() as int),
    decreases s.len() - pos,
{
    if pos < s.len() {
        assert((lead + s)[lead.len() + pos] == s[pos]);
        lemma_hash_end_moves(lead, s, pos + 1);
    }
}

/// The bytes of a text that stands after others are its own.
pub proof fn lemma_bytes_move(lead: Seq<u8>, s: Seq<u8>, pos: int)
    requires
        0 <= pos < s.len(),
    ensures
        (lead + s)[lead.len() + pos] == s[pos],
{
}

/// A piece of a text that stands after others is the same piece.
pub proof fn lemma_piece_moves(lead: Seq<u8>, s: Seq<u8>, from: int, to: int)
    requires
        0 <= from <= to <= s.len(),
    ensures
        (lead + s).subrange(lead.len() + from, lead.len() + to) == s.subrange(from, to),
{
    assert((lead + s).subrange(lead.len() + from, lead.len() + to) =~= s.subrange(from, to));
}

/// A quoted atom is found alike after any bytes.
pub proof fn lemma_quoted_atom_moves(lead: Seq<u8>, s: Seq<u8>, pos: int)
    requires
        0 <= pos,
    ensures
        quoted_atom(lead + s, lead.len() + pos) == moved(quoted_atom(s, pos), lead.len() as int),
        quoted_atom(s, pos) matches Some(end) ==> pos < end <= s.len(),
{
    if pos < s.len() {
        lemma_bytes_move(lead, s, pos);
        lemma_quoted_end_moves(lead, s, pos + 1);
        lemma_quoted_end_bounds(s, pos + 1);
    }
}

/// A `#<...>` literal is found alike after any bytes.
pub proof fn lemma_hash_literal_moves(lead: Seq<u8>, s: Seq<u8>, pos: int)
    requires
        0 <= pos,
    ensures
        hash_literal(lead + s, lead.len() + pos) == moved(
            hash_literal(s, pos),
            lead.len() as int,
        ),
        hash_literal(s, pos) matches Some(end) ==> pos < end <= s.len(),
{
    if pos + 1 < s.len() {
        lemma_bytes_move(lead, s, pos);
        lemma_bytes_move(lead, s, pos + 1);
        lemma_hash_end_moves(lead, s, pos + 2);
        lemma_hash_end_bounds(s, pos + 2);
    }
}

/// A token is read alike after any bytes.
pub proof fn lemma_token_moves(lead: Seq<u8>, s: Seq<u8>, pos: int)
    requires
        0 <= pos,
    ensures
        token(lead + s, lead.len() + pos) == moved_token(token(s, pos), lead.len() as int),
    decreases s.len() - pos, 3nat,
{
    if pos < s.len() {
        lemma_bytes_move(lead, s, pos);
        lemma_group_moves(lead, s, pos, crate::grammar::OPEN_PAREN, crate::grammar::CLOSE_PAREN);
        lemma_group_moves(
            lead,
            s,
            pos,
            crate::grammar::OPEN_BRACKET,
            crate::grammar::CLOSE_BRACKET,
        );
        lemma_atom_moves(lead, s, pos);
    }
}

/// An atom is read alike after any bytes.
pub proof fn lemma_atom_moves(lead: Seq<u8>, s: Seq<u8>, pos: int)
    requires
        0 <= pos,
    ensures
        atom(lead + s, lead.len() + pos) == moved_token(atom(s, pos), lead.len() as int),
    decreases s.len() - pos, 2nat,
{
    if pos < s.len() {
        lemma_bytes_move(lead, s, pos);
        if pos + 1 < s.len() {
            lemma_bytes_move(lead, s, pos + 1);
        }
        lemma_text_moves(lead, s, pos);
        lemma_hash_literal_moves(lead, s, pos);
        lemma_quoted_atom_moves(lead, s, pos);
        lemma_bare_end_moves(lead, s, pos);
        lemma_bare_end_bounds(s, pos);
        match hash_literal(s, pos) {
            Some(end) => {
                lemma_piece_moves(lead, s, pos, end);
            },
            None => {},
        }
        match quoted_atom(s, pos) {
            Some(end) => {
                lemma_piece_moves(lead, s, pos, end);
            },
            None => {},
        }
        lemma_piece_moves(lead, s, pos, bare_end(s, pos));
    }
}

/// A list or a vector is read alike after any bytes.
pub proof fn lemma_group_moves(lead: Seq<u8>, s: Seq<u8>, pos: int, open: u8, close: u8)
    requires
        0 <= pos,
    ensures
        group(lead + s, lead.len() + pos, open, close) == moved_items(
            group(s, pos, open, close),
            lead.len() as int,
        ),
    decreases s.len() - pos, 2nat,
{
    if pos < s.len() {
        lemma_bytes_move(lead, s, pos);
        if s[pos] == open {
            lemma_run_moves(lead, s, pos + 1, true);
            let (items, end) = run(s, pos + 1, true);
            lemma_run_bounds(s, pos + 1, true);
            lemma_blanks_end_moves(lead, s, end);
            let stop = blanks_end(s, end);
            lemma_blanks_end_bounds(s, end);
            if stop < s.len() {
                lemma_bytes_move(lead, s, stop);
            }
        }
    }
}

/// A text with properties is read alike after any bytes.
pub proof fn lemma_text_moves(lead: Seq<u8>, s: Seq<u8>, pos: int)
    requires
        0 <= pos,
    ensures
        text_with_properties(lead + s, lead.len() + pos) == moved_token(
            text_with_properties(s, pos),
            lead.len() as int,
        ),
    decreases s.len() - pos, 1nat,
{
    if pos + 1 < s.len() {
        lemma_bytes_move(lead, s, pos);
        lemma_bytes_move(lead, s, pos + 1);
        lemma_blanks_end_moves(lead, s, pos + 2);
        lemma_blanks_end_bounds(s, pos + 2);
        let start = blanks_end(s, pos + 2);
        lemma_quoted_atom_moves(lead, s, start);
        match quoted_atom(s, start) {
            Some(quote_end) => {
                lemma_piece_moves(lead, s, start, quote_end);
                lemma_run_moves(lead, s, quote_end, false);
                lemma_run_bounds(s, quote_end, false);
                let (properties, end) = run(s, quote_end, false);
                lemma_blanks_end_moves(lead, s, end);
                lemma_blanks_end_bounds(s, end);
                let stop = blanks_end(s, end);
                if stop < s.len() {
                    lemma_bytes_move(lead, s, stop);
                }
            },
            None => {},
        }
    }
}

/// A run of tokens ends no earlier than it starts, and within the input
/// where it starts within it.
pub proof fn lemma_run_bounds(s: Seq<u8>, pos: int, leading: bool)
    ensures
        pos <= run(s, pos, leading).1,
        0 <= pos <= s.len() ==> run(s, pos, leading).1 <= s.len(),
    decreases s.len() - pos,
{
    let start = blanks_end(s, pos);
    lemma_blanks_end_bounds(s, pos);
    if leading || start > pos {
        match token(s, start) {
            Some((item, end)) => {
                if start < end <= s.len() {
                    lemma_run_bounds(s, end, false);
                }
            },
            None => {},
        }
    }
}

/// A run of tokens is read alike after any bytes.
pub proof fn lemma_run_moves(lead: Seq<u8>, s: Seq<u8>, pos: int, leading: bool)
    requires
        0 <= pos,
    ensures
        run(lead + s, lead.len() + pos, leading) == (
            run(s, pos, leading).0,
            run(s, pos, leading).1 + lead.len(),
        ),
    decreases s.len() - pos, 4nat,
{
    let start = blanks_end(s, pos);
    lemma_blanks_end_moves(lead, s, pos);
    lemma_blanks_end_bounds(s, pos);
    if leading || start > pos {
        lemma_token_moves(lead, s, start);
        match token(s, start) {
            Some((item, end)) => {
                if start < end <= s.len() {
                    lemma_run_moves(lead, s, end, false);
                }
            },
            None => {},
        }
    }
}

/// Blanks at the start of the input are skipped, all of them.
pub proof fn lemma_leading_blanks_are_skipped(lead: Seq<u8>, s: Seq<u8>, i: int)
    requires
        all_blank(lead),
        0 <= i <= lead.len(),
    ensures
        blanks_end(lead + s, i) == blanks_end(lead + s, lead.len() as int),
    decreases lead.len() - i,
{
    if i < lead.len() {
        assert((lead + s)[i] == lead[i]);
        assert(is_blank(lead[i]));
        lemma_leading_blanks_are_skipped(lead, s, i + 1);
    }
}

/// Blanks before a text change nothing for the padded reader: with them it
/// gives a token exactly when it gives one without them, the same token, and
/// leaves the same rest; and where it gives none, it is for the same reason
/// at the same place of the text.
pub proof fn lemma_leading_blanks_change_nothing(lead: Seq<u8>, s: Seq<u8>)
    requires
        all_blank(lead),
    ensures
        read_padded(lead + s) == moved_token(read_padded(s), lead.len() as int),
        blanks_end(lead + s, 0) == lead.len() + blanks_end(s, 0),
        refusal(lead + s, blanks_end(lead + s, 0)) == refusal(s, blanks_end(s, 0)),
        read_padded(s) matches Some((_, end)) ==> 0 <= end <= s.len() && (lead + s).subrange(
            lead.len() + end,
            (lead + s).len() as int,
        ) == s.subrange(end, s.len() as int),
{
    lemma_leading_blanks_are_skipped(lead, s, 0);
    lemma_blanks_end_moves(lead, s, 0);
    lemma_blanks_end_bounds(s, 0);
    let start = blanks_end(s, 0);
    lemma_token_moves(lead, s, start);
    if start < s.len() {
        lemma_bytes_move(lead, s, start);
        if start + 1 < s.len() {
            lemma_bytes_move(lead, s, start + 1);
        }
    }
    match token(s, start) {
        Some((form, end)) => {
            lemma_token_bounds(s, start);
            lemma_blanks_end_moves(lead, s, end);
            lemma_blanks_end_bounds(s, end);
            lemma_piece_moves(lead, s, blanks_end(s, end), s.len() as int);
        },
        None => {},
    }
}

/// A token ends after the offset at which it starts, and within the input.
pub proof fn lemma_token_bounds(s: Seq<u8>, pos: int)
    requires
        0 <= pos,
    ensures
        token(s, pos) matches Some((_, end)) ==> pos < end <= s.len(),
{
    if pos < s.len() {
        lemma_hash_literal_moves(Seq::empty(), s, pos);
        lemma_quoted_atom_moves(Seq::empty(), s, pos);
        lemma_bare_end_bounds(s, pos);
        lemma_bare_end_bounds(s, pos + 1);
        lemma_run_bounds(s, pos + 1, true);
        lemma_blanks_end_bounds(s, run(s, pos + 1, true).1);
        if pos + 1 < s.len() {
            let start = blanks_end(s, pos + 2);
            lemma_blanks_end_bounds(s, pos + 2);
            lemma_quoted_atom_moves(Seq::empty(), s, start);
            match quoted_atom(s, start) {
                Some(quote_end) => {
                    lemma_run_bounds(s, quote_end, false);
                    lemma_blanks_end_bounds(s, run(s, quote_end, false).1);
                },
                None => {},
            }
        }
    }
}

} // verus!
