//! The reader: from text in Lisp printer syntax to a tree of tokens.
use vstd::prelude::*;
use vstd::string::StringSliceAdditionalSpecFns;
use crate::error::{CustomError, ErrorKind, ReconstructError, UnquoteError};
use crate::quoting::{unquote_text, unquoted};
use crate::grammar;
use crate::grammar::Sexp;
use crate::slices::{
    cut_point, lemma_ascii_is_cut_on_both_sides, lemma_start_is_cut, lemma_str_is_valid, same_text,
    slice, tail,
};

verus! {

/// One unit of the grammar. Every piece of text in it is a slice of the input
/// that was read, as it stands there.
#[derive(Debug)]
pub enum Token<'s> {
    /// A symbol, a quoted string with its quotes and backslashes, or a
    /// `#<...>` literal.
    Atom(&'s str),
    /// What stood between `(` and `)`.
    List(Vec<Token<'s>>),
    /// What stood between `#(` and `)`.
    TextWithProperties(TextWithProperties<'s>),
    /// What stood between `[` and `]`.
    Vector(Vec<Token<'s>>),
}

/// A quoted string and the properties that were written after it.
#[derive(Debug)]
pub struct TextWithProperties<'s> {
    /// The string as written, quotes included.
    pub text: &'s str,
    /// The tokens that followed it.
    pub properties: Vec<Token<'s>>,
}

impl<'s> TextWithProperties<'s> {
    /// The text without its quotes and with its escapes read: `\n` as a line
    /// feed, `\\` as a backslash, `\"` as a quote.
    ///
    /// Fails on a text that no pair of quotes encloses, and on any other
    /// escape.
    pub fn unquote(&self) -> (r: Result<String, UnquoteError>)
        ensures
            match r {
                Ok(out) => unquoted(self.text@) == Ok::<Seq<char>, UnquoteError>(out@),
                Err(e) => unquoted(self.text@) == Err::<Seq<char>, UnquoteError>(e),
            },
    {
        unquote_text(self.text)
    }
}

/// What a sequence of tokens denotes, item by item.
pub open spec fn models<'s>(tokens: Seq<Token<'s>>) -> Seq<Sexp>
    decreases tokens,
{
    Seq::new(
        tokens.len(),
        |i: int|
            if 0 <= i < tokens.len() {
                model(tokens[i])
            } else {
                Sexp::Atom(Seq::empty())
            },
    )
}

/// What a token denotes.
pub open spec fn model<'s>(token: Token<'s>) -> Sexp
    decreases token,
{
    match token {
        Token::Atom(body) => Sexp::Atom(body.spec_bytes()),
        Token::List(children) => Sexp::List(models(children@)),
        Token::TextWithProperties(body) => Sexp::Text(
            body.text.spec_bytes(),
            models(body.properties@),
        ),
        Token::Vector(children) => Sexp::Vector(models(children@)),
    }
}

impl<'s> View for Token<'s> {
    type V = Sexp;

    open spec fn view(&self) -> Sexp {
        model(*self)
    }
}

/// Adding a token at the end adds what it denotes at the end.
pub proof fn lemma_models_push<'s>(tokens: Seq<Token<'s>>, last: Token<'s>)
    ensures
        models(tokens.push(last)) == models(tokens).push(last@),
{
    assert(models(tokens.push(last)) =~= models(tokens).push(last@));
}

/// The text of an atom; of anything else, no text.
pub open spec fn atom_text(form: Sexp) -> Seq<u8> {
    match form {
        Sexp::Atom(text) => text,
        _ => Seq::empty(),
    }
}

/// The map that the first `pairs` pairs of `items` spell out, each pair a key
/// and the value after it. A later pair replaces an earlier one with its key.
pub open spec fn pairs_map(items: Seq<Sexp>, pairs: nat) -> Map<Seq<u8>, Sexp>
    decreases pairs,
{
    if pairs == 0 {
        Map::empty()
    } else {
        pairs_map(items, (pairs - 1) as nat).insert(
            atom_text(items[2 * pairs - 2]),
            items[2 * pairs - 1],
        )
    }
}

/// Whether an atom stands at every even place of `items`, counted from 0.
pub open spec fn keys_are_atoms(items: Seq<Sexp>) -> bool {
    forall|i: int| 0 <= i < items.len() && i % 2 == 0 ==> (#[trigger] items[i]) is Atom
}

/// A list read as attributes: keys and values in turn. Only a list of even
/// length with an atom for every key can be read so.
pub open spec fn attribute_map(form: Sexp) -> Result<Map<Seq<u8>, Sexp>, ReconstructError> {
    match form {
        Sexp::List(items) => {
            if items.len() % 2 != 0 {
                Err(ReconstructError::OddAttributes)
            } else if !keys_are_atoms(items) {
                Err(ReconstructError::WrongTokenType)
            } else {
                Ok(pairs_map(items, items.len() / 2))
            }
        },
        _ => Err(ReconstructError::WrongTokenType),
    }
}

/// The attributes of a node: for each key the token that was written after
/// it, the last one where a key was written more than once.
pub struct TokenMap<'p, 's> {
    entries: Vec<(&'s str, &'p Token<'s>)>,
}

/// The map that the first `count` of `entries` spell out.
pub open spec fn entries_map<'p, 's>(entries: Seq<(&'s str, &'p Token<'s>)>, count: nat) -> Map<
    Seq<u8>,
    Sexp,
>
    decreases count,
{
    if count == 0 {
        Map::empty()
    } else {
        entries_map(entries, (count - 1) as nat).insert(
            entries[count - 1].0.spec_bytes(),
            model(*entries[count - 1].1),
        )
    }
}

proof fn lemma_entries_map_prefix<'p, 's>(
    entries: Seq<(&'s str, &'p Token<'s>)>,
    last: (&'s str, &'p Token<'s>),
    count: nat,
)
    requires
        count <= entries.len(),
    ensures
        entries_map(entries.push(last), count) == entries_map(entries, count),
    decreases count,
{
    if count > 0 {
        lemma_entries_map_prefix(entries, last, (count - 1) as nat);
    }
}

impl<'p, 's> View for TokenMap<'p, 's> {
    type V = Map<Seq<u8>, Sexp>;

    closed spec fn view(&self) -> Map<Seq<u8>, Sexp> {
        entries_map(self.entries@, self.entries@.len())
    }
}

impl<'p, 's> TokenMap<'p, 's> {
    /// The token that stands under `key`, if any does.
    pub fn get(&self, key: &str) -> (r: Option<&'p Token<'s>>)
        ensures
            match r {
                Some(found) => self@.contains_key(key.spec_bytes()) && found@
                    == self@[key.spec_bytes()],
                None => !self@.contains_key(key.spec_bytes()),
            },
    {
        let mut i: usize = self.entries.len();
        while i > 0
            invariant
                i <= self.entries@.len(),
                self@.contains_key(key.spec_bytes()) == entries_map(
                    self.entries@,
                    i as nat,
                ).contains_key(key.spec_bytes()),
                self@.contains_key(key.spec_bytes()) ==> self@[key.spec_bytes()] == entries_map(
                    self.entries@,
                    i as nat,
                )[key.spec_bytes()],
            decreases i,
        {
            i -= 1;
            if same_text(self.entries[i].0, key) {
                return Some(self.entries[i].1);
            }
        }
        None
    }
}

impl<'s> Token<'s> {
    /// The children of a vector; an error for any other token.
    pub fn as_vector<'p>(&'p self) -> (r: Result<&'p Vec<Token<'s>>, ReconstructError>)
        ensures
            match r {
                Ok(children) => *self == Token::Vector(*children),
                Err(e) => !(self is Vector) && e == ReconstructError::WrongTokenType,
            },
    {
        match self {
            Token::Vector(children) => Ok(children),
            _ => Err(ReconstructError::WrongTokenType),
        }
    }

    /// The children of a list; an error for any other token.
    pub fn as_list<'p>(&'p self) -> (r: Result<&'p Vec<Token<'s>>, ReconstructError>)
        ensures
            match r {
                Ok(children) => *self == Token::List(*children),
                Err(e) => !(self is List) && e == ReconstructError::WrongTokenType,
            },
    {
        match self {
            Token::List(children) => Ok(children),
            _ => Err(ReconstructError::WrongTokenType),
        }
    }

    /// The text of an atom; an error for any other token.
    pub fn as_atom<'p>(&'p self) -> (r: Result<&'s str, ReconstructError>)
        ensures
            match r {
                Ok(body) => *self == Token::Atom(body),
                Err(e) => !(self is Atom) && e == ReconstructError::WrongTokenType,
            },
    {
        match self {
            Token::Atom(body) => Ok(*body),
            _ => Err(ReconstructError::WrongTokenType),
        }
    }

    /// The body of a text with properties; an error for any other token.
    pub fn as_text<'p>(&'p self) -> (r: Result<&'p TextWithProperties<'s>, ReconstructError>)
        ensures
            match r {
                Ok(body) => *self == Token::TextWithProperties(*body),
                Err(e) => !(self is TextWithProperties) && e == ReconstructError::WrongTokenType,
            },
    {
        match self {
            Token::TextWithProperties(body) => Ok(body),
            _ => Err(ReconstructError::WrongTokenType),
        }
    }

    /// The children of a list as attributes: keys and values in turn.
    ///
    /// Fails on anything but a list, on a list of odd length, and on a key
    /// that is no atom.
    pub fn as_map<'p>(&'p self) -> (r: Result<TokenMap<'p, 's>, ReconstructError>)
        ensures
            match r {
                Ok(map) => attribute_map(self@) == Ok::<Map<Seq<u8>, Sexp>, ReconstructError>(
                    map@,
                ),
                Err(e) => attribute_map(self@) == Err::<Map<Seq<u8>, Sexp>, ReconstructError>(e),
            },
    {
        let children = match self.as_list() {
            Ok(children) => children,
            Err(e) => {
                return Err(e);
            },
        };
        if children.len() % 2 != 0 {
            return Err(ReconstructError::OddAttributes);
        }
        let ghost items = models(children@);
        let mut entries: Vec<(&'s str, &'p Token<'s>)> = Vec::new();
        let mut i: usize = 0;
        while i < children.len()
            invariant
                items == models(children@),
                self@ == Sexp::List(items),
                children@.len() % 2 == 0,
                i % 2 == 0,
                i <= children@.len(),
                entries@.len() == i / 2,
                entries_map(entries@, entries@.len()) == pairs_map(items, (i / 2) as nat),
                forall|j: int| 0 <= j < i && j % 2 == 0 ==> (#[trigger] items[j]) is Atom,
            decreases children@.len() - i,
        {
            let key = match &children[i] {
                Token::Atom(body) => *body,
                _ => {
                    assert(!(items[i as int] is Atom));
                    return Err(ReconstructError::WrongTokenType);
                },
            };
            let value = &children[i + 1];
            proof {
                lemma_entries_map_prefix(entries@, (key, value), entries@.len());
                assert(items[i as int] == Sexp::Atom(key.spec_bytes()));
                assert(items[i + 1] == model(*value));
            }
            entries.push((key, value));
            i += 2;
        }
        Ok(TokenMap { entries })
    }
}

fn is_blank(b: u8) -> (r: bool)
    ensures
        r == grammar::is_blank(b),
{
    b == grammar::SPACE || b == grammar::TAB || b == grammar::CARRIAGE_RETURN || b
        == grammar::LINE_FEED
}

fn ends_bare(b: u8) -> (r: bool)
    ensures
        r == grammar::ends_bare(b),
{
    is_blank(b) || b == grammar::CLOSE_PAREN || b == grammar::CLOSE_BRACKET
}

/// Skips the blanks at `pos`.
fn multispace0(bytes: &[u8], pos: usize) -> (r: usize)
    requires
        pos <= bytes@.len(),
    ensures
        r == grammar::blanks_end(bytes@, pos as int),
        pos <= r <= bytes@.len(),
        r > pos ==> grammar::is_blank(bytes@[r - 1]),
{
    let mut i: usize = pos;
    while i < bytes.len() && is_blank(bytes[i])
        invariant
            pos <= i <= bytes@.len(),
            grammar::blanks_end(bytes@, pos as int) == grammar::blanks_end(bytes@, i as int),
            i > pos ==> grammar::is_blank(bytes@[i - 1]),
        decreases bytes@.len() - i,
    {
        i += 1;
    }
    i
}

/// The text that was read between two offsets of the input.
fn get_consumed<'s>(input: &'s str, from: usize, to: usize) -> (r: &'s str)
    requires
        from <= to,
        cut_point(input.spec_bytes(), from as int),
        cut_point(input.spec_bytes(), to as int),
    ensures
        r.spec_bytes() == input.spec_bytes().subrange(from as int, to as int),
{
    slice(input, from, to)
}

/// The bare atom at `pos`: everything up to the next blank or closer, if that
/// is anything.
fn unquoted_atom<'s>(input: &'s str, pos: usize) -> (r: Option<(Token<'s>, usize)>)
    requires
        cut_point(input.spec_bytes(), pos as int),
    ensures
        match r {
            Some((found, end)) => {
                &&& end == grammar::bare_end(input.spec_bytes(), pos as int)
                &&& pos < end <= input.spec_bytes().len()
                &&& cut_point(input.spec_bytes(), end as int)
                &&& found@ == Sexp::Atom(input.spec_bytes().subrange(pos as int, end as int))
            },
            None => grammar::bare_end(input.spec_bytes(), pos as int) == pos,
        },
{
    let bytes = input.as_bytes();
    let mut i: usize = pos;
    while i < bytes.len() && !ends_bare(bytes[i])
        invariant
            pos <= i <= bytes@.len(),
            grammar::bare_end(bytes@, pos as int) == grammar::bare_end(bytes@, i as int),
        decreases bytes@.len() - i,
    {
        i += 1;
    }
    if i == pos {
        None
    } else {
        Some((Token::Atom(get_consumed(input, pos, i)), i))
    }
}

/// The quoted string at `pos`, quotes included.
fn quoted_text<'s>(input: &'s str, pos: usize) -> (r: Option<(&'s str, usize)>)
    requires
        cut_point(input.spec_bytes(), pos as int),
    ensures
        match r {
            Some((found, end)) => {
                &&& grammar::quoted_atom(input.spec_bytes(), pos as int) == Some(end as int)
                &&& pos < end <= input.spec_bytes().len()
                &&& cut_point(input.spec_bytes(), end as int)
                &&& found.spec_bytes() == input.spec_bytes().subrange(pos as int, end as int)
            },
            None => grammar::quoted_atom(input.spec_bytes(), pos as int) is None,
        },
{
    let bytes = input.as_bytes();
    if pos >= bytes.len() || bytes[pos] != grammar::QUOTE {
        return None;
    }
    let mut i: usize = pos + 1;
    while i < bytes.len() && bytes[i] != grammar::QUOTE
        invariant
            pos < i <= bytes@.len(),
            bytes@ == input.spec_bytes(),
            bytes@[pos as int] == grammar::QUOTE,
            grammar::quoted_end(bytes@, pos + 1) == grammar::quoted_end(bytes@, i as int),
        decreases bytes@.len() - i,
    {
        if bytes[i] == grammar::BACKSLASH {
            if i + 1 < bytes.len() && (bytes[i + 1] == grammar::QUOTE || bytes[i + 1]
                == grammar::LOWER_N || bytes[i + 1] == grammar::BACKSLASH) {
                i += 2;
            } else {
                return None;
            }
        } else {
            i += 1;
        }
    }
    if i >= bytes.len() {
        return None;
    }
    proof {
        lemma_str_is_valid(input);
        lemma_ascii_is_cut_on_both_sides(bytes@, i as int);
    }
    Some((get_consumed(input, pos, i + 1), i + 1))
}

/// The quoted atom at `pos`, quotes included.
fn quoted_atom<'s>(input: &'s str, pos: usize) -> (r: Option<(Token<'s>, usize)>)
    requires
        cut_point(input.spec_bytes(), pos as int),
    ensures
        match r {
            Some((found, end)) => {
                &&& grammar::quoted_atom(input.spec_bytes(), pos as int) == Some(end as int)
                &&& pos < end <= input.spec_bytes().len()
                &&& cut_point(input.spec_bytes(), end as int)
                &&& found@ == Sexp::Atom(input.spec_bytes().subrange(pos as int, end as int))
            },
            None => grammar::quoted_atom(input.spec_bytes(), pos as int) is None,
        },
{
    match quoted_text(input, pos) {
        Some((body, end)) => Some((Token::Atom(body), end)),
        None => None,
    }
}

/// The `#<...>` literal at `pos`, as written.
fn hash_notation<'s>(input: &'s str, pos: usize) -> (r: Option<(Token<'s>, usize)>)
    requires
        cut_point(input.spec_bytes(), pos as int),
    ensures
        match r {
            Some((found, end)) => {
                &&& grammar::hash_literal(input.spec_bytes(), pos as int) == Some(end as int)
                &&& pos < end <= input.spec_bytes().len()
                &&& cut_point(input.spec_bytes(), end as int)
                &&& found@ == Sexp::Atom(input.spec_bytes().subrange(pos as int, end as int))
            },
            None => grammar::hash_literal(input.spec_bytes(), pos as int) is None,
        },
{
    let bytes = input.as_bytes();
    if pos >= bytes.len() || bytes.len() - pos < 2 || bytes[pos] != grammar::HASH || bytes[pos + 1]
        != grammar::LESS_THAN {
        return None;
    }
    let mut i: usize = pos + 2;
    while i < bytes.len() && bytes[i] != grammar::GREATER_THAN
        invariant
            pos + 2 <= i <= bytes@.len(),
            grammar::hash_end(bytes@, pos + 2) == grammar::hash_end(bytes@, i as int),
        decreases bytes@.len() - i,
    {
        i += 1;
    }
    if i >= bytes.len() {
        return None;
    }
    proof {
        lemma_str_is_valid(input);
        lemma_ascii_is_cut_on_both_sides(bytes@, i as int);
    }
    Some((Token::Atom(get_consumed(input, pos, i + 1)), i + 1))
}

/// Whether reading at `pos` gave what the grammar says stands there.
pub open spec fn reads_as<'s>(
    found: Option<(Token<'s>, usize)>,
    expected: Option<(Sexp, int)>,
    input: &str,
    pos: usize,
) -> bool {
    match found {
        Some((token, end)) => {
            &&& expected == Some((token@, end as int))
            &&& pos < end <= input.spec_bytes().len()
            &&& cut_point(input.spec_bytes(), end as int)
        },
        None => expected is None,
    }
}

/// As many tokens as follow `pos`, each after one blank at least; with
/// `leading` set the first may follow at once. Stops before the blanks that
/// no token follows.
fn separated_list<'s>(input: &'s str, pos: usize, leading: bool) -> (r: (Vec<Token<'s>>, usize))
    requires
        cut_point(input.spec_bytes(), pos as int),
    ensures
        grammar::run(input.spec_bytes(), pos as int, leading) == (models(r.0@), r.1 as int),
        pos <= r.1 <= input.spec_bytes().len(),
        cut_point(input.spec_bytes(), r.1 as int),
    decreases input.spec_bytes().len() - pos, 4nat,
{
    let bytes = input.as_bytes();
    let mut items: Vec<Token<'s>> = Vec::new();
    let mut end: usize = pos;
    let mut first: bool = leading;
    let mut more: bool = true;
    while more
        invariant
            bytes@ == input.spec_bytes(),
            pos <= end <= bytes@.len(),
            cut_point(bytes@, end as int),
            grammar::run(bytes@, pos as int, leading).0 == models(items@) + grammar::run(
                bytes@,
                end as int,
                first,
            ).0,
            grammar::run(bytes@, pos as int, leading).1 == grammar::run(
                bytes@,
                end as int,
                first,
            ).1,
            !more ==> grammar::run(bytes@, end as int, first) == (Seq::<Sexp>::empty(), end as int),
        decreases bytes@.len() - end, if more { 1nat } else { 0nat },
    {
        let start = multispace0(bytes, end);
        if !first && start == end {
            more = false;
        } else {
            proof {
                if start > end {
                    lemma_str_is_valid(input);
                    lemma_ascii_is_cut_on_both_sides(bytes@, start - 1);
                }
            }
            match token(input, start) {
                None => {
                    more = false;
                },
                Some((item, after)) => {
                    proof {
                        lemma_models_push(items@, item);
                        assert(models(items@) + (seq![item@] + grammar::run(
                            bytes@,
                            after as int,
                            false,
                        ).0) =~= models(items@).push(item@) + grammar::run(
                            bytes@,
                            after as int,
                            false,
                        ).0);
                    }
                    items.push(item);
                    end = after;
                    first = false;
                },
            }
        }
    }
    proof {
        assert(models(items@) + Seq::<Sexp>::empty() =~= models(items@));
    }
    (items, end)
}

/// The sequence at `pos` between the bytes `open` and `close`: one token at
/// least, with blanks between the tokens and, as it pleases, around them.
fn delimited<'s>(input: &'s str, pos: usize, open: u8, close: u8) -> (r: Option<
    (Vec<Token<'s>>, usize),
>)
    requires
        cut_point(input.spec_bytes(), pos as int),
        open < 0x80,
        close < 0x80,
    ensures
        match r {
            Some((items, end)) => {
                &&& grammar::group(input.spec_bytes(), pos as int, open, close) == Some(
                    (models(items@), end as int),
                )
                &&& pos < end <= input.spec_bytes().len()
                &&& cut_point(input.spec_bytes(), end as int)
            },
            None => grammar::group(input.spec_bytes(), pos as int, open, close) is None,
        },
    decreases input.spec_bytes().len() - pos, 1nat,
{
    let bytes = input.as_bytes();
    if pos >= bytes.len() || bytes[pos] != open {
        return None;
    }
    proof {
        lemma_str_is_valid(input);
        lemma_ascii_is_cut_on_both_sides(bytes@, pos as int);
    }
    let (items, end) = separated_list(input, pos + 1, true);
    let stop = multispace0(bytes, end);
    if items.len() > 0 && stop < bytes.len() && bytes[stop] == close {
        proof {
            lemma_ascii_is_cut_on_both_sides(bytes@, stop as int);
        }
        Some((items, stop + 1))
    } else {
        None
    }
}

/// The list at `pos`.
fn list<'s>(input: &'s str, pos: usize) -> (r: Option<(Token<'s>, usize)>)
    requires
        cut_point(input.spec_bytes(), pos as int),
    ensures
        match r {
            Some((found, end)) => {
                &&& grammar::group(
                    input.spec_bytes(),
                    pos as int,
                    grammar::OPEN_PAREN,
                    grammar::CLOSE_PAREN,
                ) matches Some((items, stop))
                &&& found@ == Sexp::List(items)
                &&& end == stop
                &&& pos < end <= input.spec_bytes().len()
                &&& cut_point(input.spec_bytes(), end as int)
            },
            None => grammar::group(
                input.spec_bytes(),
                pos as int,
                grammar::OPEN_PAREN,
                grammar::CLOSE_PAREN,
            ) is None,
        },
    decreases input.spec_bytes().len() - pos, 2nat,
{
    match delimited(input, pos, grammar::OPEN_PAREN, grammar::CLOSE_PAREN) {
        Some((children, end)) => Some((Token::List(children), end)),
        None => None,
    }
}

/// The vector at `pos`.
fn vector<'s>(input: &'s str, pos: usize) -> (r: Option<(Token<'s>, usize)>)
    requires
        cut_point(input.spec_bytes(), pos as int),
    ensures
        match r {
            Some((found, end)) => {
                &&& grammar::group(
                    input.spec_bytes(),
                    pos as int,
                    grammar::OPEN_BRACKET,
                    grammar::CLOSE_BRACKET,
                ) matches Some((items, stop))
                &&& found@ == Sexp::Vector(items)
                &&& end == stop
                &&& pos < end <= input.spec_bytes().len()
                &&& cut_point(input.spec_bytes(), end as int)
            },
            None => grammar::group(
                input.spec_bytes(),
                pos as int,
                grammar::OPEN_BRACKET,
                grammar::CLOSE_BRACKET,
            ) is None,
        },
    decreases input.spec_bytes().len() - pos, 2nat,
{
    match delimited(input, pos, grammar::OPEN_BRACKET, grammar::CLOSE_BRACKET) {
        Some((children, end)) => Some((Token::Vector(children), end)),
        None => None,
    }
}

/// The text with properties at `pos`.
fn text_with_properties<'s>(input: &'s str, pos: usize) -> (r: Option<(Token<'s>, usize)>)
    requires
        cut_point(input.spec_bytes(), pos as int),
    ensures
        reads_as(r, grammar::text_with_properties(input.spec_bytes(), pos as int), input, pos),
    decreases input.spec_bytes().len() - pos, 1nat,
{
    let bytes = input.as_bytes();
    if pos >= bytes.len() || bytes.len() - pos < 2 || bytes[pos] != grammar::HASH || bytes[pos + 1]
        != grammar::OPEN_PAREN {
        return None;
    }
    proof {
        lemma_str_is_valid(input);
        lemma_ascii_is_cut_on_both_sides(bytes@, pos + 1);
    }
    let start = multispace0(bytes, pos + 2);
    proof {
        if start > pos + 2 {
            lemma_ascii_is_cut_on_both_sides(bytes@, start - 1);
        }
    }
    match quoted_text(input, start) {
        None => None,
        Some((text, quote_end)) => {
            let (properties, end) = separated_list(input, quote_end, false);
            let stop = multispace0(bytes, end);
            if stop < bytes.len() && bytes[stop] == grammar::CLOSE_PAREN {
                proof {
                    lemma_ascii_is_cut_on_both_sides(bytes@, stop as int);
                }
                Some((Token::TextWithProperties(TextWithProperties { text, properties }), stop + 1))
            } else {
                None
            }
        },
    }
}

/// The atom at `pos`: none at a blank, at a closer or at the end of the
/// input; else what the first bytes announce, a text with properties, a
/// `#<...>` literal, a quoted atom or a bare atom, and none where that does
/// not follow.
fn atom<'s>(input: &'s str, pos: usize) -> (r: Option<(Token<'s>, usize)>)
    requires
        cut_point(input.spec_bytes(), pos as int),
    ensures
        reads_as(r, grammar::atom(input.spec_bytes(), pos as int), input, pos),
    decreases input.spec_bytes().len() - pos, 2nat,
{
    let bytes = input.as_bytes();
    if pos >= bytes.len() || ends_bare(bytes[pos]) {
        return None;
    }
    if bytes[pos] == grammar::HASH && bytes.len() - pos >= 2 {
        if bytes[pos + 1] == grammar::OPEN_PAREN {
            return text_with_properties(input, pos);
        }
        if bytes[pos + 1] == grammar::LESS_THAN {
            return hash_notation(input, pos);
        }
    }
    if bytes[pos] == grammar::QUOTE {
        return quoted_atom(input, pos);
    }
    proof {
        grammar::lemma_bare_end_bounds(bytes@, pos + 1);
    }
    unquoted_atom(input, pos)
}

/// The token at `pos`: a list where `(` stands, a vector where `[` stands,
/// else an atom.
fn token<'s>(input: &'s str, pos: usize) -> (r: Option<(Token<'s>, usize)>)
    requires
        cut_point(input.spec_bytes(), pos as int),
    ensures
        reads_as(r, grammar::token(input.spec_bytes(), pos as int), input, pos),
    decreases input.spec_bytes().len() - pos, 3nat,
{
    let bytes = input.as_bytes();
    if pos >= bytes.len() {
        return None;
    }
    if bytes[pos] == grammar::OPEN_PAREN {
        return list(input, pos);
    }
    if bytes[pos] == grammar::OPEN_BRACKET {
        return vector(input, pos);
    }
    atom(input, pos)
}

/// Reads the token with which `input` starts, and hands it out with the
/// input that follows it.
///
/// Fails where the input is empty, where it starts with a blank or a closer,
/// and where what its first bytes announce does not follow: a list or a
/// vector that lacks an item or its closing bracket, a quoted atom that does
/// not end or holds an escape that is not allowed. It fails nowhere else. The
/// error holds the whole input, and says which of these it was.
pub fn sexp<'s>(input: &'s str) -> (r: Result<(&'s str, Token<'s>), CustomError<&'s str>>)
    ensures
        match r {
            Ok((remaining, found)) => {
                &&& grammar::read(input.spec_bytes()) matches Some((form, end))
                &&& found@ == form
                &&& remaining.spec_bytes() == input.spec_bytes().subrange(
                    end,
                    input.spec_bytes().len() as int,
                )
            },
            Err(CustomError::Nom(rest, kind)) => {
                &&& grammar::read(input.spec_bytes()) is None
                &&& rest.spec_bytes() == input.spec_bytes()
                &&& kind == grammar::refusal(input.spec_bytes(), 0)
            },
            Err(CustomError::MyError(_)) => false,
        },
        r is Err <==> input.spec_bytes().len() == 0 || grammar::ends_bare(input.spec_bytes()[0])
            || grammar::unfinished(input.spec_bytes(), 0),
{
    proof {
        lemma_start_is_cut(input);
        grammar::lemma_token_starts(input.spec_bytes(), 0);
    }
    match token(input, 0) {
        Some((found, end)) => Ok((tail(input, end), found)),
        None => Err(CustomError::Nom(input, refusal(input.as_bytes(), 0))),
    }
}

/// Reads the token that follows the leading blanks of `input`, and hands it
/// out with the input that follows the blanks after it.
///
/// Fails where nothing but blanks is left, where a closer comes first, and
/// where what the first bytes after the blanks announce does not follow. It
/// fails nowhere else. The error holds the input from that place on, and says
/// which of these it was.
pub fn sexp_with_padding<'s>(input: &'s str) -> (r: Result<
    (&'s str, Token<'s>),
    CustomError<&'s str>,
>)
    ensures
        match r {
            Ok((remaining, found)) => {
                &&& grammar::read_padded(input.spec_bytes()) matches Some((form, end))
                &&& found@ == form
                &&& remaining.spec_bytes() == input.spec_bytes().subrange(
                    end,
                    input.spec_bytes().len() as int,
                )
            },
            Err(CustomError::Nom(rest, kind)) => {
                let start = grammar::blanks_end(input.spec_bytes(), 0);
                &&& grammar::read_padded(input.spec_bytes()) is None
                &&& rest.spec_bytes() == input.spec_bytes().subrange(
                    start,
                    input.spec_bytes().len() as int,
                )
                &&& kind == grammar::refusal(input.spec_bytes(), start)
            },
            Err(CustomError::MyError(_)) => false,
        },
        r is Err <==> {
            let start = grammar::blanks_end(input.spec_bytes(), 0);
            ||| start == input.spec_bytes().len()
            ||| grammar::is_closer(input.spec_bytes()[start])
            ||| grammar::unfinished(input.spec_bytes(), start)
        },
{
    let bytes = input.as_bytes();
    let start = multispace0(bytes, 0);
    proof {
        lemma_str_is_valid(input);
        lemma_start_is_cut(input);
        if start > 0 {
            lemma_ascii_is_cut_on_both_sides(bytes@, start - 1);
        }
        grammar::lemma_token_starts(bytes@, start as int);
        grammar::lemma_blanks_end_bounds(bytes@, 0);
    }
    match token(input, start) {
        Some((found, end)) => {
            let stop = multispace0(bytes, end);
            proof {
                if stop > end {
                    lemma_ascii_is_cut_on_both_sides(bytes@, stop - 1);
                }
            }
            Ok((tail(input, stop), found))
        },
        None => Err(CustomError::Nom(tail(input, start), refusal(bytes, start))),
    }
}

/// Why no token starts at `pos`.
fn refusal(bytes: &[u8], pos: usize) -> (r: ErrorKind)
    ensures
        r == grammar::refusal(bytes@, pos as int),
{
    if pos >= bytes.len() || is_blank(bytes[pos]) {
        ErrorKind::TakeTill1
    } else if bytes[pos] == grammar::CLOSE_PAREN || bytes[pos] == grammar::CLOSE_BRACKET {
        ErrorKind::Not
    } else if bytes[pos] == grammar::QUOTE {
        ErrorKind::Escaped
    } else if bytes[pos] == grammar::HASH && bytes.len() - pos >= 2 && bytes[pos + 1]
        == grammar::LESS_THAN {
        ErrorKind::Tag
    } else {
        ErrorKind::SeparatedList
    }
}

} // verus!
