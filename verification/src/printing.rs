//! Writing a token tree down, and reading it back.
//!
//! The reader keeps every atom as it stood in the input. So a tree can be
//! written down again from what the reader kept, and what is read from that
//! text is the tree, however wide the blanks are that were written between
//! its items and inside its brackets.
use vstd::prelude::*;
use crate::grammar::{
    atom, bare_end, blanks_end, ends_bare, group, hash_end, hash_literal, is_blank, is_closer,
    lemma_bare_end_bounds, lemma_blanks_end_bounds, lemma_hash_end_bounds,
    lemma_quoted_end_bounds, lemma_token_starts, quoted_atom, quoted_end, read, read_padded, run,
    starts_hash, starts_text, text_with_properties, token, Sexp, BACKSLASH,
    CLOSE_BRACKET, CLOSE_PAREN, GREATER_THAN, HASH, LESS_THAN, OPEN_BRACKET, OPEN_PAREN, QUOTE,
    SPACE,
};

verus! {

/// A bare atom: it holds no blank and no closer, and does not start with
/// what announces another token, which is `(`, `[`, a quote, `#(` or `#<`.
pub open spec fn is_bare_atom(text: Seq<u8>) -> bool {
    &&& text.len() > 0
    &&& forall|i: int| 0 <= i < text.len() ==> !ends_bare(#[trigger] text[i])
    &&& text[0] != OPEN_PAREN
    &&& text[0] != OPEN_BRACKET
    &&& text[0] != QUOTE
    &&& text[0] == HASH && text.len() >= 2 ==> text[1] != LESS_THAN && text[1] != OPEN_PAREN
}

/// A quoted atom and nothing after it.
pub open spec fn is_quoted_atom(text: Seq<u8>) -> bool {
    quoted_atom(text, 0) == Some(text.len() as int)
}

/// A `#<...>` literal and nothing after it.
pub open spec fn is_hash_literal(text: Seq<u8>) -> bool {
    hash_literal(text, 0) == Some(text.len() as int)
}

/// The trees that the reader can give, which are those that can be written
/// down and read back: every atom is a bare atom, a quoted atom or a
/// `#<...>` literal, every list and vector holds an item, and every text is
/// a quoted atom.
pub open spec fn printable(form: Sexp) -> bool
    decreases form,
{
    match form {
        Sexp::Atom(text) => is_bare_atom(text) || is_quoted_atom(text) || is_hash_literal(text),
        Sexp::List(items) => items.len() > 0 && forall|i: int|
            0 <= i < items.len() ==> printable(#[trigger] items[i]),
        Sexp::Vector(items) => items.len() > 0 && forall|i: int|
            0 <= i < items.len() ==> printable(#[trigger] items[i]),
        Sexp::Text(text, properties) => is_quoted_atom(text) && forall|i: int|
            0 <= i < properties.len() ==> printable(#[trigger] properties[i]),
    }
}

/// Whether `text` holds blanks only.
pub open spec fn all_blank(text: Seq<u8>) -> bool {
    forall|i: int| 0 <= i < text.len() ==> is_blank(#[trigger] text[i])
}

/// Whether `text` can stand between two items: one blank at least, and
/// nothing else.
pub open spec fn is_gap(text: Seq<u8>) -> bool {
    text.len() > 0 && all_blank(text)
}

/// A tree written down: atoms as they are, `gap` between the items of a
/// sequence, and `pad` after its opening and before its closing bracket.
pub open spec fn written(form: Sexp, gap: Seq<u8>, pad: Seq<u8>) -> Seq<u8>
    decreases form, 0nat,
{
    match form {
        Sexp::Atom(text) => text,
        Sexp::List(items) => seq![OPEN_PAREN] + pad + spaced(items, 0, gap, pad).skip(
            gap.len() as int,
        ) + pad + seq![CLOSE_PAREN],
        Sexp::Vector(items) => seq![OPEN_BRACKET] + pad + spaced(items, 0, gap, pad).skip(
            gap.len() as int,
        ) + pad + seq![CLOSE_BRACKET],
        Sexp::Text(text, properties) => seq![HASH, OPEN_PAREN] + pad + text + spaced(
            properties,
            0,
            gap,
            pad,
        ) + pad + seq![CLOSE_PAREN],
    }
}

/// The items from place `from` on written down, each after `gap`.
pub open spec fn spaced(items: Seq<Sexp>, from: int, gap: Seq<u8>, pad: Seq<u8>) -> Seq<u8>
    decreases items, items.len() - from,
{
    if from < 0 || from >= items.len() {
        Seq::empty()
    } else {
        gap + written(items[from], gap, pad) + spaced(items, from + 1, gap, pad)
    }
}

/// A tree written down with one space between the items of a sequence and
/// none around them.
pub open spec fn print(form: Sexp) -> Seq<u8> {
    written(form, seq![SPACE], Seq::empty())
}

/// Whether `text` stands in `s` at offset `pos`.
pub open spec fn sits_at(s: Seq<u8>, pos: int, text: Seq<u8>) -> bool {
    &&& 0 <= pos
    &&& pos + text.len() <= s.len()
    &&& s.subrange(pos, pos + text.len()) == text
}

/// Whether a bare atom would end at offset `at` of `s`: at the end of `s`, a
/// blank or a closer.
pub open spec fn ends_here(s: Seq<u8>, at: int) -> bool {
    at == s.len() || (0 <= at < s.len() && ends_bare(s[at]))
}

/// Where two texts in a row stand, the first stands, and the second after it.
pub proof fn lemma_sits_apart(s: Seq<u8>, pos: int, left: Seq<u8>, right: Seq<u8>)
    requires
        sits_at(s, pos, left + right),
    ensures
        sits_at(s, pos, left),
        sits_at(s, pos + left.len(), right),
{
    let whole = left + right;
    assert(s.subrange(pos, pos + left.len()) =~= whole.subrange(0, left.len() as int));
    assert(whole.subrange(0, left.len() as int) =~= left);
    assert(s.subrange(pos + left.len(), pos + left.len() + right.len()) =~= whole.subrange(
        left.len() as int,
        whole.len() as int,
    ));
    assert(whole.subrange(left.len() as int, whole.len() as int) =~= right);
}

/// Where a text stands, its bytes stand.
pub proof fn lemma_sits_byte(s: Seq<u8>, pos: int, text: Seq<u8>, i: int)
    requires
        sits_at(s, pos, text),
        0 <= i < text.len(),
    ensures
        s[pos + i] == text[i],
{
    assert(s.subrange(pos, pos + text.len())[i] == s[pos + i]);
}

/// A quoted atom ends where it ends, whatever stands around it.
pub proof fn lemma_quoted_end_in_place(s: Seq<u8>, pos: int, text: Seq<u8>, i: int)
    requires
        sits_at(s, pos, text),
        0 <= i,
        quoted_end(text, i) == Some(text.len() as int),
    ensures
        quoted_end(s, pos + i) == Some(pos + text.len()),
    decreases text.len() - i,
{
    lemma_sits_byte(s, pos, text, i);
    if text[i] == QUOTE {
    } else if text[i] == BACKSLASH {
        lemma_sits_byte(s, pos, text, i + 1);
        lemma_quoted_end_in_place(s, pos, text, i + 2);
    } else {
        lemma_quoted_end_in_place(s, pos, text, i + 1);
    }
}

/// A `#<...>` literal ends where it ends, whatever stands around it.
pub proof fn lemma_hash_end_in_place(s: Seq<u8>, pos: int, text: Seq<u8>, i: int)
    requires
        sits_at(s, pos, text),
        0 <= i,
        hash_end(text, i) == Some(text.len() as int),
    ensures
        hash_end(s, pos + i) == Some(pos + text.len()),
    decreases text.len() - i,
{
    lemma_sits_byte(s, pos, text, i);
    if text[i] != GREATER_THAN {
        lemma_hash_end_in_place(s, pos, text, i + 1);
    }
}

/// A bare atom ends where a blank, a closer or the end of the input follows
/// it.
pub proof fn lemma_bare_end_in_place(s: Seq<u8>, pos: int, text: Seq<u8>, i: int)
    requires
        sits_at(s, pos, text),
        0 <= i <= text.len(),
        forall|j: int| 0 <= j < text.len() ==> !ends_bare(#[trigger] text[j]),
        ends_here(s, pos + text.len()),
    ensures
        bare_end(s, pos + i) == pos + text.len(),
    decreases text.len() - i,
{
    if i < text.len() {
        lemma_sits_byte(s, pos, text, i);
        assert(!ends_bare(text[i]));
        lemma_bare_end_in_place(s, pos, text, i + 1);
    }
}

/// Blanks are skipped up to the first byte that is none.
pub proof fn lemma_blanks_end_in_place(s: Seq<u8>, pos: int, blanks: Seq<u8>, i: int)
    requires
        sits_at(s, pos, blanks),
        all_blank(blanks),
        0 <= i <= blanks.len(),
        pos + blanks.len() == s.len() || !is_blank(s[pos + blanks.len()]),
    ensures
        blanks_end(s, pos + i) == pos + blanks.len(),
    decreases blanks.len() - i,
{
    if i < blanks.len() {
        lemma_sits_byte(s, pos, blanks, i);
        assert(is_blank(blanks[i]));
        lemma_blanks_end_in_place(s, pos, blanks, i + 1);
    }
}

/// What a printable tree starts with when it is written down: a byte that
/// is no blank and no closer.
pub proof fn lemma_written_starts(form: Sexp, gap: Seq<u8>, pad: Seq<u8>)
    requires
        printable(form),
    ensures
        written(form, gap, pad).len() > 0,
        !ends_bare(written(form, gap, pad)[0]),
{
    match form {
        Sexp::Atom(text) => {
            if is_bare_atom(text) {
                assert(!ends_bare(text[0]));
            }
        },
        _ => {},
    }
}

/// Whether `open` and `close` are the two ends of a list or of a vector.
pub open spec fn is_pair(open: u8, close: u8) -> bool {
    (open == OPEN_PAREN && close == CLOSE_PAREN) || (open == OPEN_BRACKET && close
        == CLOSE_BRACKET)
}

/// Items that were written down, each after a gap, then blanks or none and
/// a closer: the reader takes the items, all of them, and stops after the
/// last.
pub proof fn lemma_run_of_spaced(
    s: Seq<u8>,
    pos: int,
    items: Seq<Sexp>,
    from: int,
    gap: Seq<u8>,
    pad: Seq<u8>,
)
    requires
        0 <= from <= items.len(),
        forall|i: int| 0 <= i < items.len() ==> printable(#[trigger] items[i]),
        is_gap(gap),
        all_blank(pad),
        sits_at(s, pos, spaced(items, from, gap, pad) + pad),
        pos + spaced(items, from, gap, pad).len() + pad.len() < s.len(),
        is_closer(s[pos + spaced(items, from, gap, pad).len() + pad.len()]),
    ensures
        run(s, pos, false) == (items.skip(from), pos + spaced(items, from, gap, pad).len()),
    decreases items, items.len() - from,
{
    let all = spaced(items, from, gap, pad);
    lemma_sits_apart(s, pos, all, pad);
    if from == items.len() {
        assert(items.skip(from) =~= Seq::<Sexp>::empty());
        lemma_blanks_end_in_place(s, pos, pad, 0);
        lemma_token_starts(s, pos + pad.len());
    } else {
        let item = items[from];
        let text = written(item, gap, pad);
        let rest = spaced(items, from + 1, gap, pad);
        assert(printable(item));
        assert(all == gap + text + rest);
        lemma_sits_apart(s, pos, gap + text, rest);
        lemma_sits_apart(s, pos, gap, text);
        lemma_written_starts(item, gap, pad);
        let start = pos + gap.len();
        let end = start + text.len();
        lemma_sits_byte(s, start, text, 0);
        lemma_blanks_end_in_place(s, pos, gap, 0);
        assert(sits_at(s, end, rest + pad)) by {
            assert(s.subrange(end, end + (rest + pad).len()) =~= rest + pad);
        }
        assert(ends_here(s, end)) by {
            if from + 1 < items.len() {
                lemma_sits_byte(s, end, rest, 0);
                assert(rest == gap + written(items[from + 1], gap, pad) + spaced(
                    items,
                    from + 2,
                    gap,
                    pad,
                ));
                assert(rest[0] == gap[0]);
                assert(is_blank(gap[0]));
            } else if pad.len() > 0 {
                lemma_sits_byte(s, end, pad, 0);
                assert(is_blank(pad[0]));
            }
        }
        lemma_token_of_written(s, start, item, gap, pad);
        lemma_run_of_spaced(s, end, items, from + 1, gap, pad);
        assert(seq![item] + items.skip(from + 1) =~= items.skip(from));
    }
}

/// A list or a vector that was written down is read as it was.
pub proof fn lemma_group_of_written(
    s: Seq<u8>,
    pos: int,
    items: Seq<Sexp>,
    open: u8,
    close: u8,
    gap: Seq<u8>,
    pad: Seq<u8>,
)
    requires
        is_pair(open, close),
        items.len() > 0,
        forall|i: int| 0 <= i < items.len() ==> printable(#[trigger] items[i]),
        is_gap(gap),
        all_blank(pad),
        sits_at(
            s,
            pos,
            seq![open] + pad + spaced(items, 0, gap, pad).skip(gap.len() as int) + pad
                + seq![close],
        ),
    ensures
        group(s, pos, open, close) == Some(
            (
                items,
                pos + (seq![open] + pad + spaced(items, 0, gap, pad).skip(gap.len() as int) + pad
                    + seq![close]).len(),
            ),
        ),
    decreases items, items.len() + 1,
{
    let first = items[0];
    let text = written(first, gap, pad);
    let rest = spaced(items, 1, gap, pad);
    let body = spaced(items, 0, gap, pad).skip(gap.len() as int);
    assert(printable(first));
    assert(body =~= text + rest);
    lemma_sits_apart(s, pos, seq![open] + pad + body + pad, seq![close]);
    lemma_sits_apart(s, pos, seq![open] + pad + body, pad);
    lemma_sits_apart(s, pos, seq![open] + pad, body);
    lemma_sits_apart(s, pos, seq![open], pad);
    lemma_sits_apart(s, pos + 1 + pad.len(), text, rest);
    lemma_sits_byte(s, pos, seq![open], 0);
    let start = pos + 1 + pad.len();
    let end = start + text.len();
    let stop = end + rest.len() + pad.len();
    lemma_sits_byte(s, stop, seq![close], 0);
    lemma_written_starts(first, gap, pad);
    lemma_sits_byte(s, start, text, 0);
    lemma_blanks_end_in_place(s, pos + 1, pad, 0);
    assert(sits_at(s, end, rest + pad)) by {
        assert(s.subrange(end, end + (rest + pad).len()) =~= rest + pad);
    }
    assert(ends_here(s, end)) by {
        if 1 < items.len() {
            lemma_sits_byte(s, end, rest, 0);
            assert(rest == gap + written(items[1], gap, pad) + spaced(items, 2, gap, pad));
            assert(rest[0] == gap[0]);
            assert(is_blank(gap[0]));
        } else if pad.len() > 0 {
            lemma_sits_byte(s, end, pad, 0);
            assert(is_blank(pad[0]));
        }
    }
    lemma_token_of_written(s, start, first, gap, pad);
    lemma_run_of_spaced(s, end, items, 1, gap, pad);
    assert(seq![first] + items.skip(1) =~= items);
    lemma_blanks_end_in_place(s, end + rest.len(), pad, 0);
}

/// A tree that was written down is read as it was, wherever it stands,
/// if only a blank, a closer or the end of the input follows it.
pub proof fn lemma_token_of_written(s: Seq<u8>, pos: int, form: Sexp, gap: Seq<u8>, pad: Seq<u8>)
    requires
        printable(form),
        is_gap(gap),
        all_blank(pad),
        sits_at(s, pos, written(form, gap, pad)),
        ends_here(s, pos + written(form, gap, pad).len()),
    ensures
        token(s, pos) == Some((form, pos + written(form, gap, pad).len())),
    decreases form, 0nat,
{
    let text = written(form, gap, pad);
    lemma_written_starts(form, gap, pad);
    lemma_sits_byte(s, pos, text, 0);
    match form {
        Sexp::Atom(body) => {
            if is_quoted_atom(body) {
                lemma_quoted_end_in_place(s, pos, body, 1);
            } else if is_hash_literal(body) {
                lemma_sits_byte(s, pos, body, 1);
                lemma_hash_end_in_place(s, pos, body, 2);
            } else {
                lemma_bare_end_in_place(s, pos, body, 0);
                if body.len() >= 2 {
                    lemma_sits_byte(s, pos, body, 1);
                }
            }
        },
        Sexp::List(items) => {
            lemma_group_of_written(s, pos, items, OPEN_PAREN, CLOSE_PAREN, gap, pad);
        },
        Sexp::Vector(items) => {
            lemma_group_of_written(s, pos, items, OPEN_BRACKET, CLOSE_BRACKET, gap, pad);
        },
        Sexp::Text(body, properties) => {
            let rest = spaced(properties, 0, gap, pad);
            let head = seq![HASH, OPEN_PAREN];
            lemma_sits_apart(s, pos, head + pad + body + rest + pad, seq![CLOSE_PAREN]);
            lemma_sits_apart(s, pos, head + pad + body + rest, pad);
            lemma_sits_apart(s, pos, head + pad + body, rest);
            lemma_sits_apart(s, pos, head + pad, body);
            lemma_sits_apart(s, pos, head, pad);
            lemma_sits_byte(s, pos, head, 0);
            lemma_sits_byte(s, pos, head, 1);
            let start = pos + 2 + pad.len();
            let quote_end = start + body.len();
            let stop = quote_end + rest.len() + pad.len();
            lemma_sits_byte(s, start, body, 0);
            lemma_blanks_end_in_place(s, pos + 2, pad, 0);
            lemma_quoted_end_in_place(s, start, body, 1);
            lemma_sits_byte(s, stop, seq![CLOSE_PAREN], 0);
            assert(sits_at(s, quote_end, rest + pad)) by {
                assert(s.subrange(quote_end, quote_end + (rest + pad).len()) =~= rest + pad);
            }
            lemma_run_of_spaced(s, quote_end, properties, 0, gap, pad);
            assert(properties.skip(0) =~= properties);
            lemma_blanks_end_in_place(s, quote_end + rest.len(), pad, 0);
        },
    }
}

/// Reading what was written down gives the tree that was written down, and
/// takes all of the text: whatever blanks were written between the items
/// and inside the brackets, they make no difference.
pub proof fn lemma_read_written(form: Sexp, gap: Seq<u8>, pad: Seq<u8>)
    requires
        printable(form),
        is_gap(gap),
        all_blank(pad),
    ensures
        read(written(form, gap, pad)) == Some((form, written(form, gap, pad).len() as int)),
{
    let text = written(form, gap, pad);
    assert(text.subrange(0, text.len() as int) =~= text);
    lemma_token_of_written(text, 0, form, gap, pad);
}

/// Reading what was printed gives the tree that was printed, atoms byte for
/// byte, and takes all of the text.
pub proof fn lemma_read_print(form: Sexp)
    requires
        printable(form),
    ensures
        read(print(form)) == Some((form, print(form).len() as int)),
{
    assert(is_blank(seq![SPACE][0]));
    lemma_read_written(form, seq![SPACE], Seq::empty());
}

/// Blanks before and after what was written down make no difference to the
/// padded reader, nor do the blanks inside it: it gives the tree that was
/// written down, and takes all of the text.
pub proof fn lemma_read_padded_written(
    lead: Seq<u8>,
    form: Sexp,
    gap: Seq<u8>,
    pad: Seq<u8>,
    trail: Seq<u8>,
)
    requires
        printable(form),
        is_gap(gap),
        all_blank(pad),
        all_blank(lead),
        all_blank(trail),
    ensures
        read_padded(lead + written(form, gap, pad) + trail) == Some(
            (form, (lead + written(form, gap, pad) + trail).len() as int),
        ),
{
    let text = written(form, gap, pad);
    let s = lead + text + trail;
    let start = lead.len() as int;
    let end = start + text.len();
    assert(s.subrange(0, s.len() as int) =~= s);
    lemma_sits_apart(s, 0, lead + text, trail);
    lemma_sits_apart(s, 0, lead, text);
    lemma_written_starts(form, gap, pad);
    lemma_sits_byte(s, start, text, 0);
    lemma_blanks_end_in_place(s, 0, lead, 0);
    if trail.len() > 0 {
        lemma_sits_byte(s, end, trail, 0);
        assert(is_blank(trail[0]));
    }
    lemma_token_of_written(s, start, form, gap, pad);
    lemma_blanks_end_in_place(s, end, trail, 0);
}

/// However a tree is written down and padded, the padded reader gives the
/// same tree: the one that it gives for the tree as printed.
pub proof fn lemma_padding_makes_no_difference(
    lead: Seq<u8>,
    form: Sexp,
    gap: Seq<u8>,
    pad: Seq<u8>,
    trail: Seq<u8>,
)
    requires
        printable(form),
        is_gap(gap),
        all_blank(pad),
        all_blank(lead),
        all_blank(trail),
    ensures
        read_padded(lead + written(form, gap, pad) + trail) matches Some((padded, _))
            && read_padded(print(form)) matches Some((plain, _)) && padded == plain,
{
    lemma_read_padded_written(lead, form, gap, pad, trail);
    assert(is_blank(seq![SPACE][0]));
    lemma_read_padded_written(Seq::empty(), form, seq![SPACE], Seq::empty(), Seq::empty());
    assert(Seq::<u8>::empty() + print(form) + Seq::<u8>::empty() =~= print(form));
}

/// A piece of the input up to where a quoted atom ends is that quoted atom.
pub proof fn lemma_quoted_end_cut_out(s: Seq<u8>, pos: int, end: int, i: int)
    requires
        0 <= pos,
        0 <= i,
        end <= s.len(),
        quoted_end(s, pos + i) == Some(end),
    ensures
        pos + i < end,
        quoted_end(s.subrange(pos, end), i) == Some(end - pos),
    decreases s.len() - (pos + i),
{
    let at = pos + i;
    let text = s.subrange(pos, end);
    lemma_quoted_end_bounds(s, at);
    assert(text[i] == s[at]);
    if s[at] == QUOTE {
    } else if s[at] == BACKSLASH {
        lemma_quoted_end_bounds(s, at + 2);
        assert(text[i + 1] == s[at + 1]);
        lemma_quoted_end_cut_out(s, pos, end, i + 2);
    } else {
        lemma_quoted_end_cut_out(s, pos, end, i + 1);
    }
}

/// A piece of the input up to where a `#<...>` literal ends is that literal.
pub proof fn lemma_hash_end_cut_out(s: Seq<u8>, pos: int, end: int, i: int)
    requires
        0 <= pos,
        0 <= i,
        end <= s.len(),
        hash_end(s, pos + i) == Some(end),
    ensures
        pos + i < end,
        hash_end(s.subrange(pos, end), i) == Some(end - pos),
    decreases s.len() - (pos + i),
{
    let at = pos + i;
    let text = s.subrange(pos, end);
    lemma_hash_end_bounds(s, at);
    assert(text[i] == s[at]);
    if s[at] != GREATER_THAN {
        lemma_hash_end_cut_out(s, pos, end, i + 1);
    }
}

/// No byte of a bare atom is a blank or a closer.
pub proof fn lemma_bare_atom_is_clean(s: Seq<u8>, pos: int, i: int)
    requires
        0 <= pos <= i < bare_end(s, pos),
    ensures
        i < s.len(),
        !ends_bare(s[i]),
    decreases i - pos,
{
    lemma_bare_end_bounds(s, pos);
    if i > pos {
        lemma_bare_atom_is_clean(s, pos + 1, i);
    }
}

/// Every token that the grammar finds can be written down and read back.
pub proof fn lemma_token_is_printable(s: Seq<u8>, pos: int)
    requires
        0 <= pos,
    ensures
        token(s, pos) matches Some((form, _)) ==> printable(form),
    decreases s.len() - pos, 3nat,
{
    if pos < s.len() {
        lemma_group_is_printable(s, pos, OPEN_PAREN, CLOSE_PAREN);
        lemma_group_is_printable(s, pos, OPEN_BRACKET, CLOSE_BRACKET);
        if s[pos] != OPEN_PAREN && s[pos] != OPEN_BRACKET {
            lemma_atom_is_printable(s, pos);
        }
    }
}

/// Every atom that the grammar finds can be written down and read back.
pub proof fn lemma_atom_is_printable(s: Seq<u8>, pos: int)
    requires
        0 <= pos < s.len(),
        s[pos] != OPEN_PAREN,
        s[pos] != OPEN_BRACKET,
    ensures
        atom(s, pos) matches Some((form, _)) ==> printable(form),
    decreases s.len() - pos, 2nat,
{
    if !ends_bare(s[pos]) {
        if starts_text(s, pos) {
            lemma_text_is_printable(s, pos);
        } else if starts_hash(s, pos) {
            match hash_literal(s, pos) {
                Some(end) => {
                    lemma_hash_end_bounds(s, pos + 2);
                    lemma_hash_end_cut_out(s, pos, end, 2);
                    let text = s.subrange(pos, end);
                    assert(text[0] == s[pos]);
                    assert(text[1] == s[pos + 1]);
                },
                None => {},
            }
        } else if s[pos] == QUOTE {
            match quoted_atom(s, pos) {
                Some(end) => {
                    lemma_quoted_end_bounds(s, pos + 1);
                    lemma_quoted_end_cut_out(s, pos, end, 1);
                    let text = s.subrange(pos, end);
                    assert(text[0] == s[pos]);
                },
                None => {},
            }
        } else {
            let end = bare_end(s, pos);
            let text = s.subrange(pos, end);
            lemma_bare_end_bounds(s, pos);
            lemma_bare_end_bounds(s, pos + 1);
            assert(text[0] == s[pos]);
            assert forall|i: int| 0 <= i < text.len() implies !ends_bare(#[trigger] text[i]) by {
                lemma_bare_atom_is_clean(s, pos, pos + i);
                assert(text[i] == s[pos + i]);
            }
            if text.len() >= 2 {
                assert(text[1] == s[pos + 1]);
            }
            assert(is_bare_atom(text));
        }
    }
}

/// Every list and vector that the grammar finds holds items that can be
/// written down and read back.
pub proof fn lemma_group_is_printable(s: Seq<u8>, pos: int, open: u8, close: u8)
    requires
        0 <= pos,
    ensures
        group(s, pos, open, close) matches Some((items, _)) ==> items.len() > 0 && forall|i: int|
            0 <= i < items.len() ==> printable(#[trigger] items[i]),
    decreases s.len() - pos, 2nat,
{
    if pos < s.len() && s[pos] == open {
        lemma_run_is_printable(s, pos + 1, true);
        let items = run(s, pos + 1, true).0;
        assert forall|i: int| 0 <= i < items.len() implies printable(#[trigger] items[i]) by {
            assert(printable(run(s, pos + 1, true).0[i]));
        }
    }
}

/// Every text with properties that the grammar finds can be written down
/// and read back.
pub proof fn lemma_text_is_printable(s: Seq<u8>, pos: int)
    requires
        0 <= pos,
    ensures
        text_with_properties(s, pos) matches Some((form, _)) ==> printable(form),
    decreases s.len() - pos, 1nat,
{
    if starts_text(s, pos) {
        let start = blanks_end(s, pos + 2);
        lemma_blanks_end_bounds(s, pos + 2);
        match quoted_atom(s, start) {
            Some(quote_end) => {
                lemma_quoted_end_bounds(s, start + 1);
                lemma_quoted_end_cut_out(s, start, quote_end, 1);
                let text = s.subrange(start, quote_end);
                assert(text[0] == s[start]);
                lemma_run_is_printable(s, quote_end, false);
                let properties = run(s, quote_end, false).0;
                assert forall|i: int| 0 <= i < properties.len() implies printable(
                    #[trigger] properties[i],
                ) by {
                    assert(printable(run(s, quote_end, false).0[i]));
                }
                assert(is_quoted_atom(text));
            },
            None => {},
        }
    }
}

/// Every token of a run that the grammar finds can be written down and read
/// back.
pub proof fn lemma_run_is_printable(s: Seq<u8>, pos: int, leading: bool)
    requires
        0 <= pos,
    ensures
        forall|i: int|
            0 <= i < run(s, pos, leading).0.len() ==> printable(
                #[trigger] run(s, pos, leading).0[i],
            ),
    decreases s.len() - pos, 4nat,
{
    let start = blanks_end(s, pos);
    lemma_blanks_end_bounds(s, pos);
    if leading || start > pos {
        lemma_token_is_printable(s, start);
        match token(s, start) {
            Some((item, end)) => {
                if start < end <= s.len() {
                    lemma_run_is_printable(s, end, false);
                    let others = run(s, end, false).0;
                    assert forall|i: int| 0 <= i < (seq![item] + others).len() implies printable(
                        #[trigger] (seq![item] + others)[i],
                    ) by {
                        if i > 0 {
                            assert((seq![item] + others)[i] == others[i - 1]);
                        }
                    }
                }
            },
            None => {},
        }
    }
}

/// What the reader gives for any input, printed, reads as what the reader
/// gave: every atom byte for byte, every sequence item for item.
pub proof fn lemma_read_round_trip(s: Seq<u8>)
    ensures
        read(s) matches Some((form, _)) ==> read(print(form)) == Some(
            (form, print(form).len() as int),
        ),
        read_padded(s) matches Some((form, _)) ==> read(print(form)) == Some(
            (form, print(form).len() as int),
        ),
{
    lemma_token_is_printable(s, 0);
    lemma_blanks_end_bounds(s, 0);
    lemma_token_is_printable(s, blanks_end(s, 0));
    match read(s) {
        Some((form, _)) => {
            lemma_read_print(form);
        },
        None => {},
    }
    match read_padded(s) {
        Some((form, _)) => {
            lemma_read_print(form);
        },
        None => {},
    }
}

} // verus!
