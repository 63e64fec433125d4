//! What the dump of a document's tree stands for: the tree, every node with
//! the lines and characters of the document that it covers.
//!
//! Everything here is stated of what tokens denote, not of tokens: the
//! functions that build the tree are held to it.
use vstd::prelude::*;
use vstd::string::StringSliceAdditionalSpecFns;
use crate::error::{ErrorCategory, ReconstructError};
use crate::grammar;
use crate::grammar::Sexp;
use crate::number::machine_decimal;
use crate::owner_tree::{SourceRange, StandardProperties};
use crate::rtrim_iterator::trim_one;
use crate::sexp::attribute_map;

verus! {

/// What a node of the tree is: its name as bytes, its span, its children.
pub struct Node {
    pub name: Seq<u8>,
    pub position: SourceRange,
    pub children: Seq<Node>,
}

impl Node {
    /// Every span in the tree ends no earlier than it starts.
    pub open spec fn wf(self) -> bool
        decreases self,
    {
        &&& self.position.wf()
        &&& forall|i: int| 0 <= i < self.children.len() ==> (#[trigger] self.children[i]).wf()
    }
}

/// The text `nil`, which stands for an offset that is not there.
pub open spec fn nil() -> Seq<u8> {
    "nil".spec_bytes()
}

/// The offset that a token spells, where one is there. No token and `nil`
/// both spell none; any other atom must be a decimal number that the machine
/// can hold; a token that is no atom spells nothing.
pub open spec fn offset_of(form: Option<Sexp>) -> Result<Option<usize>, ReconstructError> {
    match form {
        None => Ok(None),
        Some(Sexp::Atom(text)) => {
            if text == nil() {
                Ok(None)
            } else {
                match machine_decimal(text) {
                    Some(value) => Ok(Some(value)),
                    None => Err(ReconstructError::InvalidNumber),
                }
            }
        },
        Some(_) => Err(ReconstructError::WrongTokenType),
    }
}

/// How many of `chars` are line feeds.
pub open spec fn line_feeds(chars: Seq<char>) -> nat
    decreases chars.len(),
{
    if chars.len() == 0 {
        0
    } else {
        line_feeds(chars.drop_last()) + if chars.last() == '\n' {
            1nat
        } else {
            0nat
        }
    }
}

/// The line on which character `begin` of `source` stands: one more than the
/// line feeds before it.
pub open spec fn start_line_of(source: Seq<char>, begin: int) -> nat {
    1 + line_feeds(before(source, begin))
}

/// The line before which a span ends whose end is character `end` of
/// `source`: two more than the line feeds before `end`, not counting one
/// that stands just before it.
pub open spec fn end_line_of(source: Seq<char>, end: int) -> nat {
    2 + line_feeds(trim_one(before(source, end), '\n'))
}

/// The characters of `source` before the one numbered `position`, counted
/// from 1; all of them where there are fewer.
pub open spec fn before(source: Seq<char>, position: int) -> Seq<char> {
    if position - 1 <= 0 {
        Seq::empty()
    } else if position - 1 >= source.len() {
        source
    } else {
        source.take(position - 1)
    }
}

/// The lines of the span from character `begin` to character `end` of
/// `source`: the one on which it starts and the one before which it ends.
/// Both characters count from 1: there are no lines where one of them is 0,
/// and there are lines everywhere else, also where `end` is less than
/// `begin`.
pub open spec fn line_numbers_of(source: Seq<char>, begin: usize, end: usize) -> Result<
    (usize, usize),
    ReconstructError,
> {
    if begin < 1 || end < 1 {
        Err(ReconstructError::InvalidRange)
    } else {
        Ok((start_line_of(source, begin as int) as usize, end_line_of(source, end as int) as usize))
    }
}

/// The span from character `begin` to character `end` of `source`. There is
/// none where `end` is less than `begin`, and none where there are no lines.
pub open spec fn range_of(source: Seq<char>, begin: usize, end: usize) -> Result<
    SourceRange,
    ReconstructError,
> {
    if end < begin {
        Err(ReconstructError::InvalidRange)
    } else {
        match line_numbers_of(source, begin, end) {
            Err(e) => Err(e),
            Ok((start_line, end_line)) => Ok(
                SourceRange { start_line, end_line, start_character: begin, end_character: end },
            ),
        }
    }
}

/// Six readings in their order: all six where all went well, else the error
/// of the first that went wrong.
pub open spec fn all_six(
    first: Result<Option<usize>, ReconstructError>,
    second: Result<Option<usize>, ReconstructError>,
    third: Result<Option<usize>, ReconstructError>,
    fourth: Result<Option<usize>, ReconstructError>,
    fifth: Result<Option<usize>, ReconstructError>,
    sixth: Result<Option<usize>, ReconstructError>,
) -> Result<
    (Option<usize>, Option<usize>, Option<usize>, Option<usize>, Option<usize>, Option<usize>),
    ReconstructError,
> {
    match first {
        Err(e) => Err(e),
        Ok(a) => match second {
            Err(e) => Err(e),
            Ok(b) => match third {
                Err(e) => Err(e),
                Ok(c) => match fourth {
                    Err(e) => Err(e),
                    Ok(d) => match fifth {
                        Err(e) => Err(e),
                        Ok(e) => match sixth {
                            Err(e) => Err(e),
                            Ok(f) => Ok((a, b, c, d, e, f)),
                        },
                    },
                },
            },
        },
    }
}

/// The item at place `i` of `items`, if there is one.
pub open spec fn item(items: Seq<Sexp>, i: int) -> Option<Sexp> {
    if 0 <= i < items.len() {
        Some(items[i])
    } else {
        None
    }
}

/// What stands under the text `key` in `map`, if anything does.
pub open spec fn lookup(map: Map<Seq<u8>, Sexp>, key: Seq<u8>) -> Option<Sexp> {
    if map.contains_key(key) {
        Some(map[key])
    } else {
        None
    }
}

/// The offsets of a node whose attributes hold them packed in one vector,
/// under `:standard-properties`: begin, post-affiliated, contents-begin,
/// contents-end, end and post-blank, in this order. A slot that the vector
/// lacks is an offset that is not there.
pub open spec fn packed_properties(packed: Sexp) -> Result<StandardProperties, ReconstructError> {
    match packed {
        Sexp::Vector(slots) => match all_six(
            offset_of(item(slots, 0)),
            offset_of(item(slots, 1)),
            offset_of(item(slots, 2)),
            offset_of(item(slots, 3)),
            offset_of(item(slots, 4)),
            offset_of(item(slots, 5)),
        ) {
            Err(e) => Err(e),
            Ok(found) => Ok(
                StandardProperties {
                    begin: found.0,
                    post_affiliated: found.1,
                    contents_begin: found.2,
                    contents_end: found.3,
                    end: found.4,
                    post_blank: found.5,
                },
            ),
        },
        _ => Err(ReconstructError::WrongTokenType),
    }
}

/// The offsets of a node whose attributes hold each under a key of its own:
/// `:begin`, `:end`, `:contents-begin`, `:contents-end`, `:post-blank`,
/// `:post-affiliated`, read in this order.
pub open spec fn keyed_properties(map: Map<Seq<u8>, Sexp>) -> Result<
    StandardProperties,
    ReconstructError,
> {
    match all_six(
        offset_of(lookup(map, ":begin".spec_bytes())),
        offset_of(lookup(map, ":end".spec_bytes())),
        offset_of(lookup(map, ":contents-begin".spec_bytes())),
        offset_of(lookup(map, ":contents-end".spec_bytes())),
        offset_of(lookup(map, ":post-blank".spec_bytes())),
        offset_of(lookup(map, ":post-affiliated".spec_bytes())),
    ) {
        Err(e) => Err(e),
        Ok(found) => Ok(
            StandardProperties {
                begin: found.0,
                post_affiliated: found.5,
                contents_begin: found.2,
                contents_end: found.3,
                end: found.1,
                post_blank: found.4,
            },
        ),
    }
}

/// The offsets that a node states: those of the vector under
/// `:standard-properties` where its attributes hold one, else those under
/// the six keys. The node must be a list, and its second item its
/// attributes.
pub open spec fn standard_properties_of(form: Sexp) -> Result<StandardProperties, ReconstructError> {
    match form {
        Sexp::List(items) => {
            if items.len() < 2 {
                Err(ReconstructError::MissingAttributes)
            } else {
                match attribute_map(items[1]) {
                    Err(e) => Err(e),
                    Ok(map) => {
                        if map.contains_key(":standard-properties".spec_bytes()) {
                            packed_properties(map[":standard-properties".spec_bytes()])
                        } else {
                            keyed_properties(map)
                        }
                    },
                }
            }
        },
        _ => Err(ReconstructError::WrongTokenType),
    }
}

/// The span of a list node: from its `begin` to its `end`, both of which it
/// must state.
pub open spec fn bounds_of(source: Seq<char>, form: Sexp) -> Result<SourceRange, ReconstructError> {
    match standard_properties_of(form) {
        Err(e) => Err(e),
        Ok(properties) => match properties.begin {
            None => Err(ReconstructError::MissingBegin),
            Some(begin) => match properties.end {
                None => Err(ReconstructError::MissingEnd),
                Some(end) => range_of(source, begin, end),
            },
        },
    }
}

/// Where the contents of a list node begin, which it must state.
pub open spec fn contents_begin_of(form: Sexp) -> Result<usize, ReconstructError> {
    match standard_properties_of(form) {
        Err(e) => Err(e),
        Ok(properties) => match properties.contents_begin {
            None => Err(ReconstructError::MissingContentsBegin),
            Some(begin) => Ok(begin),
        },
    }
}

/// What a result holds where it is no error.
pub open spec fn ok_of(found: Result<usize, ReconstructError>) -> Option<usize> {
    match found {
        Ok(value) => Some(value),
        Err(_) => None,
    }
}

/// The name under which a text stands in the tree.
pub open spec fn plain_text() -> Seq<u8> {
    "plain-text".spec_bytes()
}

/// The span of a text whose two offsets count from `reference`.
pub open spec fn text_range_of(source: Seq<char>, reference: Option<usize>, properties: Seq<Sexp>)
    -> Result<SourceRange, ReconstructError> {
    match reference {
        None => Err(ReconstructError::MissingReference),
        Some(base) => match offset_of(item(properties, 0)) {
            Err(e) => Err(e),
            Ok(None) => Err(ReconstructError::MissingTextBegin),
            Ok(Some(first)) => {
                if base + first > usize::MAX {
                    Err(ReconstructError::InvalidRange)
                } else {
                    match offset_of(item(properties, 1)) {
                        Err(e) => Err(e),
                        Ok(None) => Err(ReconstructError::MissingTextEnd),
                        Ok(Some(second)) => {
                            if base + second > usize::MAX {
                                Err(ReconstructError::InvalidRange)
                            } else {
                                range_of(source, (base + first) as usize, (base + second) as usize)
                            }
                        },
                    }
                }
            },
        },
    }
}

/// The node that `form` stands for in the document `source`.
///
/// A text with properties is a leaf named `plain-text`; its offsets count
/// from `reference`, which must be there. A list is a node named by its
/// first item, with the span that its attributes state; its items from the
/// third on are its children. Anything else is no node.
pub open spec fn node_of(source: Seq<char>, reference: Option<usize>, form: Sexp) -> Result<
    Node,
    ReconstructError,
>
    decreases form, 0nat,
{
    match form {
        Sexp::Text(_, properties) => match text_range_of(source, reference, properties) {
            Err(e) => Err(e),
            Ok(position) => Ok(Node { name: plain_text(), position, children: Seq::empty() }),
        },
        Sexp::List(items) => {
            if items.len() == 0 {
                Err(ReconstructError::MissingName)
            } else {
                match items[0] {
                    Sexp::Atom(name) => match bounds_of(source, form) {
                        Err(e) => Err(e),
                        Ok(position) => match children_of(
                            source,
                            ok_of(contents_begin_of(form)),
                            items,
                            2,
                        ) {
                            Err(e) => Err(e),
                            Ok(children) => Ok(Node { name, position, children }),
                        },
                    },
                    _ => Err(ReconstructError::WrongTokenType),
                }
            }
        },
        _ => Err(ReconstructError::WrongTokenType),
    }
}

/// The nodes that the items of `items` from place `from` on stand for.
///
/// Where a `reference` is there, each item after the first gets for its
/// reference the character at which its elder sibling ends; where none is
/// there, none of them gets one.
pub open spec fn children_of(
    source: Seq<char>,
    reference: Option<usize>,
    items: Seq<Sexp>,
    from: int,
) -> Result<Seq<Node>, ReconstructError>
    decreases items, items.len() - from,
{
    if from < 0 || from >= items.len() {
        Ok(Seq::empty())
    } else {
        match node_of(source, reference, items[from]) {
            Err(e) => Err(e),
            Ok(first) => {
                let next = match reference {
                    Some(_) => Some(first.position.end_character),
                    None => None,
                };
                match children_of(source, next, items, from + 1) {
                    Err(e) => Err(e),
                    Ok(rest) => Ok(seq![first] + rest),
                }
            },
        }
    }
}

/// Whether `form` is a list that starts with the atom `name`.
pub open spec fn name_check(form: Sexp, name: Seq<u8>) -> Result<(), ReconstructError> {
    match form {
        Sexp::List(items) => {
            if items.len() == 0 {
                Err(ReconstructError::MissingName)
            } else {
                match items[0] {
                    Sexp::Atom(found) => if found == name {
                        Ok(())
                    } else {
                        Err(ReconstructError::UnexpectedName)
                    },
                    _ => Err(ReconstructError::WrongTokenType),
                }
            }
        },
        _ => Err(ReconstructError::WrongTokenType),
    }
}

/// The reference from which the child at place `k` counts, among children
/// that were built from `base` on: `base` for the first, and for every other
/// the character at which the child before it ends.
pub open spec fn reference_of(base: usize, children: Seq<Node>, k: int) -> usize {
    if k <= 0 {
        base
    } else {
        children[k - 1].position.end_character
    }
}

/// The name of the root of every document.
pub open spec fn root_name() -> Seq<u8> {
    "org-data".spec_bytes()
}

/// The tree that the dump `dump` holds of the document `source`.
///
/// The dump must start, after blanks or none, with a token; what follows
/// that token is not looked at. The token must be a list that starts with
/// the atom `org-data`, and it must stand for a node, with no reference to
/// count from.
pub open spec fn owner_tree_of(source: Seq<char>, dump: Seq<u8>) -> Result<Node, ReconstructError> {
    match grammar::read_padded(dump) {
        None => Err(
            ReconstructError::Grammar {
                kind: grammar::refusal(dump, grammar::blanks_end(dump, 0)),
                offset: grammar::blanks_end(dump, 0) as usize,
            },
        ),
        Some((form, _)) => match name_check(form, root_name()) {
            Err(e) => Err(e),
            Ok(_) => node_of(source, None, form),
        },
    }
}

/// Dropping characters from the end drops no line feed that was not there.
pub proof fn lemma_line_feeds_prefix(chars: Seq<char>, count: int)
    requires
        0 <= count <= chars.len(),
    ensures
        line_feeds(chars.take(count)) <= line_feeds(chars),
    decreases chars.len() - count,
{
    if count < chars.len() {
        lemma_line_feeds_prefix(chars, count + 1);
        assert(chars.take(count + 1).drop_last() =~= chars.take(count));
    } else {
        assert(chars.take(count) =~= chars);
    }
}

/// The two lines of a span are numbers that the machine holds: the first is
/// no more than `begin`, the second no more than `end`, or 2 where `end` is 1.
pub proof fn lemma_lines_fit(source: Seq<char>, begin: usize, end: usize)
    requires
        1 <= begin,
        1 <= end,
    ensures
        start_line_of(source, begin as int) <= begin,
        end_line_of(source, end as int) <= if end < 2 {
            2
        } else {
            end as int
        },
{
    let head = before(source, begin as int);
    let whole = before(source, end as int);
    lemma_line_feeds_push(head, 'a');
    lemma_line_feeds_push(whole, 'a');
    lemma_line_feeds_push(trim_one(whole, '\n'), 'a');
    if whole.len() > 0 && whole.last() != '\n' {
        lemma_line_feeds_push(whole.drop_last(), 'a');
    }
}

/// A span that ends no earlier than it starts, in characters, ends no
/// earlier than it starts in lines.
pub proof fn lemma_lines_in_order(source: Seq<char>, begin: usize, end: usize)
    requires
        1 <= begin <= end,
    ensures
        start_line_of(source, begin as int) <= end_line_of(source, end as int),
{
    let head = before(source, begin as int);
    let whole = before(source, end as int);
    assert(head =~= whole.take(head.len() as int));
    lemma_line_feeds_prefix(whole, head.len() as int);
    if whole.len() > 0 && whole.last() == '\n' {
        assert(whole.drop_last().push('\n') =~= whole);
        lemma_line_feeds_push(whole.drop_last(), '\n');
    }
}

/// The line feeds of two texts in a row are those of the one and those of
/// the other.
pub proof fn lemma_line_feeds_add(left: Seq<char>, right: Seq<char>)
    ensures
        line_feeds(left + right) == line_feeds(left) + line_feeds(right),
    decreases right.len(),
{
    if right.len() == 0 {
        assert(left + right =~= left);
    } else {
        lemma_line_feeds_add(left, right.drop_last());
        assert((left + right).drop_last() =~= left + right.drop_last());
    }
}

/// The line before which a span ends is one past the line on which it
/// starts, and one more for every line feed inside it; a line feed that is
/// its last character counts for nothing. This holds of every span that
/// holds a character and lies within the source.
pub proof fn lemma_end_line_counts_the_span(source: Seq<char>, begin: usize, end: usize)
    requires
        1 <= begin < end,
        end - 1 <= source.len(),
    ensures
        end_line_of(source, end as int) == start_line_of(source, begin as int) + 1 + line_feeds(
            trim_one(source.subrange(begin - 1, end - 1), '\n'),
        ),
{
    let head = before(source, begin as int);
    let whole = before(source, end as int);
    let span = source.subrange(begin - 1, end - 1);
    assert(whole =~= head + span);
    assert(trim_one(whole, '\n') =~= head + trim_one(span, '\n'));
    lemma_line_feeds_add(head, trim_one(span, '\n'));
}

/// A span that has lines starts and ends at the characters that were
/// asked for, and ends no earlier than it starts, in characters and in
/// lines.
pub proof fn lemma_range_keeps_its_characters(source: Seq<char>, begin: usize, end: usize)
    ensures
        range_of(source, begin, end) matches Ok(position) ==> {
            &&& position.start_character == begin
            &&& position.end_character == end
            &&& position.wf()
        },
{
    if 1 <= begin <= end {
        lemma_lines_in_order(source, begin, end);
        lemma_lines_fit(source, begin, end);
    }
}

/// One character more is one line feed more if it is a line feed.
pub proof fn lemma_line_feeds_push(chars: Seq<char>, last: char)
    ensures
        line_feeds(chars.push(last)) == line_feeds(chars) + if last == '\n' {
            1nat
        } else {
            0nat
        },
        line_feeds(chars) <= chars.len(),
    decreases chars.len(),
{
    assert(chars.push(last).drop_last() =~= chars);
    if chars.len() > 0 {
        lemma_line_feeds_push(chars.drop_last(), chars.last());
        assert(chars.drop_last().push(chars.last()) =~= chars);
    }
}

/// The children from place `from` on are the child at `from` and then the
/// children from the next place on, which count from where that child ends.
pub proof fn lemma_children_unfold(source: Seq<char>, base: usize, items: Seq<Sexp>, from: int)
    requires
        0 <= from < items.len(),
        children_of(source, Some(base), items, from) is Ok,
    ensures
        node_of(source, Some(base), items[from]) matches Ok(first) && children_of(
            source,
            Some(first.position.end_character),
            items,
            from + 1,
        ) matches Ok(rest) && children_of(source, Some(base), items, from) == Ok::<
            Seq<Node>,
            ReconstructError,
        >(seq![first] + rest),
{
}

/// Where the children of a node are built from a reference on, there is one
/// for every item.
pub proof fn lemma_children_are_as_many(source: Seq<char>, base: usize, items: Seq<Sexp>, from: int)
    requires
        0 <= from <= items.len(),
        children_of(source, Some(base), items, from) is Ok,
    ensures
        children_of(source, Some(base), items, from).unwrap().len() == items.len() - from,
    decreases items.len() - from,
{
    if from < items.len() {
        lemma_children_unfold(source, base, items, from);
        let first = node_of(source, Some(base), items[from]).unwrap();
        lemma_children_are_as_many(source, first.position.end_character, items, from + 1);
    }
}

/// Where the children of a node are built from a reference on, the child at
/// place `k` is what its item stands for when it counts from the end of the
/// child before it; the first counts from the reference itself.
pub proof fn lemma_child_counts_from_its_elder(
    source: Seq<char>,
    base: usize,
    items: Seq<Sexp>,
    from: int,
    k: int,
)
    requires
        0 <= from,
        0 <= k < items.len() - from,
        children_of(source, Some(base), items, from) is Ok,
    ensures
        k < children_of(source, Some(base), items, from).unwrap().len(),
        node_of(
            source,
            Some(reference_of(base, children_of(source, Some(base), items, from).unwrap(), k)),
            items[from + k],
        ) == Ok::<Node, ReconstructError>(
            children_of(source, Some(base), items, from).unwrap()[k],
        ),
    decreases k,
{
    lemma_children_are_as_many(source, base, items, from);
    lemma_children_unfold(source, base, items, from);
    let children = children_of(source, Some(base), items, from).unwrap();
    let first = node_of(source, Some(base), items[from]).unwrap();
    let next = first.position.end_character;
    let rest = children_of(source, Some(next), items, from + 1).unwrap();
    assert(children == seq![first] + rest);
    if k > 0 {
        lemma_child_counts_from_its_elder(source, next, items, from + 1, k - 1);
        assert(children[k] == rest[k - 1]);
        assert(children[k - 1] == if k == 1 {
            first
        } else {
            rest[k - 2]
        });
        assert(reference_of(base, children, k) == reference_of(next, rest, k - 1));
        assert(items[from + k] == items[(from + 1) + (k - 1)]);
    } else {
        assert(children[0] == first);
    }
}

/// A text that counts from a reference starts and ends at the reference
/// plus its two offsets.
pub proof fn lemma_text_adds_to_its_reference(
    source: Seq<char>,
    reference: usize,
    text: Seq<u8>,
    properties: Seq<Sexp>,
)
    requires
        node_of(source, Some(reference), Sexp::Text(text, properties)) is Ok,
    ensures
        ({
            let position = node_of(
                source,
                Some(reference),
                Sexp::Text(text, properties),
            ).unwrap().position;
            &&& offset_of(item(properties, 0)) matches Ok(Some(first))
            &&& offset_of(item(properties, 1)) matches Ok(Some(second))
            &&& position.start_character == reference + first
            &&& position.end_character == reference + second
        }),
{
}

/// A dump whose root is no list that starts with the atom `org-data` has no
/// tree: it is of the wrong shape.
pub proof fn lemma_root_must_be_org_data(source: Seq<char>, dump: Seq<u8>)
    requires
        grammar::read_padded(dump) matches Some((form, _)) && name_check(form, root_name()) is Err,
    ensures
        owner_tree_of(source, dump) matches Err(e) && e.spec_category()
            == ErrorCategory::Schema,
{
}

/// The root of every tree is named `org-data`.
pub proof fn lemma_root_is_org_data(source: Seq<char>, dump: Seq<u8>)
    ensures
        owner_tree_of(source, dump) matches Ok(tree) ==> tree.name == root_name(),
{
}

/// No node fails for the grammar's sake: the tokens are read by then.
pub proof fn lemma_node_errors_are_no_grammar_errors(
    source: Seq<char>,
    reference: Option<usize>,
    form: Sexp,
)
    ensures
        node_of(source, reference, form) matches Err(e) ==> e.spec_category()
            != ErrorCategory::Grammar,
    decreases form, 0nat,
{
    match form {
        Sexp::List(items) => {
            if items.len() > 0 && items[0] is Atom && bounds_of(source, form) is Ok {
                lemma_children_errors_are_no_grammar_errors(
                    source,
                    ok_of(contents_begin_of(form)),
                    items,
                    2,
                );
            }
        },
        _ => {},
    }
}

/// No child fails for the grammar's sake.
pub proof fn lemma_children_errors_are_no_grammar_errors(
    source: Seq<char>,
    reference: Option<usize>,
    items: Seq<Sexp>,
    from: int,
)
    ensures
        children_of(source, reference, items, from) matches Err(e) ==> e.spec_category()
            != ErrorCategory::Grammar,
    decreases items, items.len() - from,
{
    if 0 <= from < items.len() {
        lemma_node_errors_are_no_grammar_errors(source, reference, items[from]);
        match node_of(source, reference, items[from]) {
            Ok(first) => {
                let next = match reference {
                    Some(_) => Some(first.position.end_character),
                    None => None,
                };
                lemma_children_errors_are_no_grammar_errors(source, next, items, from + 1);
            },
            Err(_) => {},
        }
    }
}

/// A dump fails for the grammar's sake exactly when the reader finds no
/// token in it; every other failure is one of shape or of value.
pub proof fn lemma_grammar_errors_are_the_readers(source: Seq<char>, dump: Seq<u8>)
    ensures
        owner_tree_of(source, dump) matches Err(e) ==> (e.spec_category() == ErrorCategory::Grammar
            <==> grammar::read_padded(dump) is None),
        grammar::read_padded(dump) is None ==> owner_tree_of(source, dump) is Err,
{
    match grammar::read_padded(dump) {
        Some((form, _)) => {
            lemma_node_errors_are_no_grammar_errors(source, None, form);
        },
        None => {},
    }
}

} // verus!
