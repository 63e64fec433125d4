//! Backslash escapes: how a string is written between quotes, and how it is
//! read back.
use vstd::prelude::*;
use vstd::std_specs::iter::IteratorSpec;
use vstd::string::StrSliceExecFns;
use crate::error::UnquoteError;

verus! {

broadcast use vstd::string::group_string_axioms;

/// `String::push` appends its character: afterwards the string holds what it
/// held, and then that character.
pub assume_specification[ String::push ](s: &mut String, c: char)
    ensures
        final(s)@ == old(s)@.push(c),
;

/// The character that stands for `c` after a backslash.
pub open spec fn escaped_char(c: char) -> Option<char> {
    if c == 'n' {
        Some('\n')
    } else if c == '\\' {
        Some('\\')
    } else if c == '"' {
        Some('"')
    } else {
        None
    }
}

/// `first`, and then `rest` if there is one.
pub open spec fn prepend(first: char, rest: Option<Seq<char>>) -> Option<Seq<char>> {
    match rest {
        Some(chars) => Some(seq![first] + chars),
        None => None,
    }
}

/// What the interior of a quoted string stands for. A backslash and the
/// character after it stand for one character; any other character stands for
/// itself; a backslash at the very end stands for nothing. There is no
/// reading where a backslash stands before anything but `n`, `\` or `"`.
pub open spec fn unescape(chars: Seq<char>) -> Option<Seq<char>>
    decreases chars.len(),
{
    if chars.len() == 0 {
        Some(Seq::empty())
    } else if chars[0] != '\\' {
        prepend(chars[0], unescape(chars.skip(1)))
    } else if chars.len() == 1 {
        Some(Seq::empty())
    } else {
        match escaped_char(chars[1]) {
            Some(c) => prepend(c, unescape(chars.skip(2))),
            None => None,
        }
    }
}

/// What a quoted string stands for, quotes included in `text`.
pub open spec fn unquoted(text: Seq<char>) -> Result<Seq<char>, UnquoteError> {
    if text.len() == 0 || text[0] != '"' {
        Err(UnquoteError::MissingOpeningQuote)
    } else if text.len() < 2 || text.last() != '"' {
        Err(UnquoteError::MissingClosingQuote)
    } else {
        match unescape(text.subrange(1, text.len() - 1)) {
            Some(chars) => Ok(chars),
            None => Err(UnquoteError::UnknownEscape),
        }
    }
}

/// How a string is written so that it can stand between quotes: a backslash
/// goes before every quote and every backslash.
pub open spec fn escape(chars: Seq<char>) -> Seq<char>
    decreases chars.len(),
{
    if chars.len() == 0 {
        Seq::empty()
    } else if chars[0] == '"' || chars[0] == '\\' {
        seq!['\\', chars[0]] + escape(chars.skip(1))
    } else {
        seq![chars[0]] + escape(chars.skip(1))
    }
}

/// Reading an escaped string back gives the string.
pub proof fn lemma_unescape_escape(chars: Seq<char>)
    ensures
        unescape(escape(chars)) == Some(chars),
    decreases chars.len(),
{
    if chars.len() > 0 {
        let rest = chars.skip(1);
        lemma_unescape_escape(rest);
        assert(chars =~= seq![chars[0]] + rest);
        if chars[0] == '"' || chars[0] == '\\' {
            assert(escape(chars).skip(2) =~= escape(rest));
        } else {
            assert(escape(chars).skip(1) =~= escape(rest));
        }
    }
}

/// A quoted and escaped string, unquoted, is the string.
pub proof fn lemma_unquote_quoted(chars: Seq<char>)
    ensures
        unquoted(seq!['"'] + escape(chars) + seq!['"']) == Ok::<Seq<char>, UnquoteError>(chars),
{
    let text = seq!['"'] + escape(chars) + seq!['"'];
    lemma_unescape_escape(chars);
    assert(text.subrange(1, text.len() - 1) =~= escape(chars));
}

/// `done`, and then `rest` if there is one.
pub open spec fn extend(done: Seq<char>, rest: Option<Seq<char>>) -> Option<Seq<char>> {
    match rest {
        Some(chars) => Some(done + chars),
        None => None,
    }
}

/// Decodes a quoted string: takes the quotes off and reads the escapes.
pub fn unquote_text(text: &str) -> (r: Result<String, UnquoteError>)
    ensures
        match r {
            Ok(out) => unquoted(text@) == Ok::<Seq<char>, UnquoteError>(out@),
            Err(e) => unquoted(text@) == Err::<Seq<char>, UnquoteError>(e),
        },
{
    let count = text.unicode_len();
    if count == 0 || text.get_char(0) != '"' {
        return Err(UnquoteError::MissingOpeningQuote);
    }
    if count < 2 || text.get_char(count - 1) != '"' {
        return Err(UnquoteError::MissingClosingQuote);
    }
    let interior = text.substring_char(1, count - 1);
    let mut out = String::new();
    let mut chars = interior.chars();
    let mut escaping: bool = false;
    let ghost mut seen: int = 0;
    assert(interior@.skip(0) =~= interior@);
    assert(out@ + interior@ =~= interior@);
    loop
        invariant
            chars.obeys_prophetic_iter_laws(),
            0 <= seen <= interior@.len(),
            chars.remaining() == interior@.skip(seen),
            escaping ==> seen > 0 && interior@[seen - 1] == '\\',
            unescape(interior@) == extend(
                out@,
                unescape(interior@.skip(if escaping { seen - 1 } else { seen })),
            ),
            interior@ == text@.subrange(1, text@.len() - 1),
            text@.len() >= 2,
            text@[0] == '"',
            text@.last() == '"',
        ensures
            unescape(interior@) == Some(out@),
        decreases interior@.len() - seen,
    {
        match chars.next() {
            None => {
                proof {
                    if escaping {
                        assert(interior@.skip(seen - 1).len() == 1);
                    }
                    assert(out@ + Seq::<char>::empty() =~= out@);
                }
                break ;
            },
            Some(current_char) => {
                let ghost before = interior@.skip(if escaping { seen - 1 } else { seen });
                proof {
                    assert(current_char == interior@[seen]);
                }
                if escaping {
                    let decoded = if current_char == 'n' {
                        '\n'
                    } else if current_char == '\\' {
                        '\\'
                    } else if current_char == '"' {
                        '"'
                    } else {
                        proof {
                            assert(before[1] == current_char);
                        }
                        return Err(UnquoteError::UnknownEscape);
                    };
                    proof {
                        assert(before[1] == current_char);
                        assert(before.skip(2) =~= interior@.skip(seen + 1));
                        let rest = unescape(interior@.skip(seen + 1));
                        if rest is Some {
                            assert(out@ + (seq![decoded] + rest.unwrap()) =~= out@.push(decoded)
                                + rest.unwrap());
                        }
                    }
                    out.push(decoded);
                    escaping = false;
                } else if current_char == '\\' {
                    escaping = true;
                } else {
                    proof {
                        assert(before.skip(1) =~= interior@.skip(seen + 1));
                        let rest = unescape(interior@.skip(seen + 1));
                        if rest is Some {
                            assert(out@ + (seq![current_char] + rest.unwrap()) =~= out@.push(
                                current_char,
                            ) + rest.unwrap());
                        }
                    }
                    out.push(current_char);
                }
                proof {
                    assert(interior@.skip(seen).drop_first() =~= interior@.skip(seen + 1));
                    seen = seen + 1;
                }
            },
        }
    }
    Ok(out)
}

} // verus!
