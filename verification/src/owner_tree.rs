//! From the dump of a document's tree to the tree itself, every node with
//! the lines and characters of the document that it covers.
use vstd::prelude::*;
use vstd::std_specs::iter::IteratorSpec;
use vstd::string::{StrSliceExecFns, StringSliceAdditionalSpecFns};
use crate::error::{CustomError, ReconstructError};
use crate::grammar;
use crate::grammar::Sexp;
use crate::number::parse_usize;
use crate::rtrim_iterator::{held, trim_one, RTrimIterator};
use crate::sexp::{models, sexp_with_padding, Token, TokenMap};
use crate::slices::same_text;
use crate::tree_model::{
    all_six, before, bounds_of, children_of, contents_begin_of, item, keyed_properties,
    lemma_line_feeds_push, lemma_lines_fit, lemma_lines_in_order, line_feeds, line_numbers_of, lookup, name_check,
    node_of, offset_of, owner_tree_of, packed_properties, range_of, root_name,
    standard_properties_of, text_range_of, Node,
};

verus! {

broadcast use vstd::string::group_string_axioms;

/// A span of the document, in lines and in characters. Both count from 1,
/// and both ends are exclusive.
#[derive(Debug, Clone, Copy, PartialEq, Eq, Structural)]
pub struct SourceRange {
    pub start_line: usize,
    /// Exclusive.
    pub end_line: usize,
    pub start_character: usize,
    /// Exclusive.
    pub end_character: usize,
}

impl SourceRange {
    /// A span ends no earlier than it starts, in lines and in characters.
    pub open spec fn wf(self) -> bool {
        self.start_character <= self.end_character && self.start_line <= self.end_line
    }
}

/// A node of the document's tree.
#[derive(Debug)]
pub struct AstNode {
    /// The kind of the node, as the dump names it.
    pub name: String,
    /// The part of the document that the node covers.
    pub position: SourceRange,
    /// The nodes inside it, in the order of the document.
    pub children: Vec<AstNode>,
}

/// A document, the dump of its tree, and the tree.
#[derive(Debug)]
pub struct OwnerTree {
    pub input: String,
    pub ast: String,
    pub tree: AstNode,
}

/// A list of the document, with its items.
#[derive(Debug)]
pub struct PlainList {
    pub position: SourceRange,
    pub items: Vec<PlainListItem>,
}

/// An item of a list, with the lists inside it.
#[derive(Debug)]
pub struct PlainListItem {
    pub position: SourceRange,
    pub lists: Vec<PlainList>,
}

/// What a sequence of nodes is, node by node.
pub open spec fn nodes<'a>(children: Seq<AstNode>) -> Seq<Node>
    decreases children,
{
    Seq::new(
        children.len(),
        |i: int|
            if 0 <= i < children.len() {
                node(children[i])
            } else {
                Node { name: Seq::empty(), position: children[0].position, children: Seq::empty() }
            },
    )
}

/// What a node is.
pub open spec fn node(tree: AstNode) -> Node
    decreases tree,
{
    Node {
        name: vstd::utf8::encode_utf8(tree.name@),
        position: tree.position,
        children: nodes(tree.children@),
    }
}

impl View for AstNode {
    type V = Node;

    open spec fn view(&self) -> Node {
        node(*self)
    }
}

/// Adding a node at the end adds what it is at the end.
pub proof fn lemma_nodes_push(children: Seq<AstNode>, last: AstNode)
    ensures
        nodes(children.push(last)) == nodes(children).push(last@),
{
    assert(nodes(children.push(last)) =~= nodes(children).push(last@));
}

/// The six offsets that a node may state about itself.
#[derive(Debug, Clone, Copy, PartialEq, Eq, Structural)]
pub struct StandardProperties {
    pub begin: Option<usize>,
    pub post_affiliated: Option<usize>,
    pub contents_begin: Option<usize>,
    pub contents_end: Option<usize>,
    pub end: Option<usize>,
    pub post_blank: Option<usize>,
}

/// The line feeds among the first `count` characters of `source`, or among
/// all of them where there are fewer.
fn count_line_feeds(source: &str, count: usize) -> (r: usize)
    ensures
        r == line_feeds(before(source@, count + 1)),
        r <= count,
{
    let total = source.unicode_len();
    let length = if count < total {
        count
    } else {
        total
    };
    let prefix = source.substring_char(0, length);
    assert(prefix@ =~= before(source@, count + 1));
    let mut chars = prefix.chars();
    let mut found: usize = 0;
    let ghost mut done: Seq<char> = Seq::empty();
    assert(done + prefix@ =~= prefix@);
    loop
        invariant
            chars.obeys_prophetic_iter_laws(),
            prefix@ == done + chars.remaining(),
            found == line_feeds(done),
            found <= done.len() <= prefix@.len() <= count,
        ensures
            found == line_feeds(prefix@),
            found <= count,
        decreases prefix@.len() - done.len(),
    {
        let ghost rest = chars.remaining();
        match chars.next() {
            None => {
                assert(done + rest =~= done);
                break ;
            },
            Some(c) => {
                proof {
                    lemma_line_feeds_push(done, c);
                    assert(done + rest =~= done.push(c) + rest.drop_first());
                    done = done.push(c);
                }
                if c == '\n' {
                    found = found + 1;
                }
            },
        }
    }
    found
}

/// The line feeds among the first `count` characters of `source`, not
/// counting one that is the last of them.
fn count_line_feeds_trimmed(source: &str, count: usize) -> (r: usize)
    ensures
        r == line_feeds(trim_one(before(source@, count + 1), '\n')),
        r <= count,
{
    let total = source.unicode_len();
    let length = if count < total {
        count
    } else {
        total
    };
    let prefix = source.substring_char(0, length);
    assert(prefix@ =~= before(source@, count + 1));
    let mut without_trailing_newline = RTrimIterator::new(prefix.chars(), '\n');
    let mut found: usize = 0;
    let ghost all = trim_one(prefix@, '\n');
    let ghost mut done: Seq<char> = Seq::empty();
    assert(held(without_trailing_newline.buffer) + prefix@ =~= prefix@);
    assert(done + all =~= all);
    loop
        invariant
            without_trailing_newline.iter.obeys_prophetic_iter_laws(),
            without_trailing_newline.needle == '\n',
            all == done + trim_one(
                held(without_trailing_newline.buffer) + without_trailing_newline.iter.remaining(),
                '\n',
            ),
            found == line_feeds(done),
            found <= done.len() <= all.len() <= prefix@.len() <= count,
        ensures
            found == line_feeds(all),
            found <= count,
        decreases all.len() - done.len(),
    {
        let ghost rest = trim_one(
            held(without_trailing_newline.buffer) + without_trailing_newline.iter.remaining(),
            '\n',
        );
        match without_trailing_newline.next() {
            None => {
                assert(done + rest =~= done);
                break ;
            },
            Some(c) => {
                proof {
                    lemma_line_feeds_push(done, c);
                    assert(done + rest =~= done.push(c) + rest.drop_first());
                    done = done.push(c);
                }
                if c == '\n' {
                    found = found + 1;
                }
            },
        }
    }
    found
}

/// The lines of the span from character `begin` to character `end` of
/// `original_source`, both counted from 1: the line on which it starts, and
/// the line before which it ends. The second is always beyond the last line
/// that the span touches, also where the span ends in the middle of a line.
/// Only a character 0 has no line.
pub fn get_line_numbers(original_source: &str, begin: usize, end: usize) -> (r: Result<
    (usize, usize),
    ReconstructError,
>)
    ensures
        r == line_numbers_of(original_source@, begin, end),
{
    if begin < 1 || end < 1 {
        return Err(ReconstructError::InvalidRange);
    }
    proof {
        lemma_lines_fit(original_source@, begin, end);
    }
    let start_line = count_line_feeds(original_source, begin - 1) + 1;
    let interior = count_line_feeds_trimmed(original_source, end - 1);
    Ok((start_line, interior + 2))
}

/// What a token denotes, where there is one.
pub open spec fn model_of<'p, 's>(token: Option<&'p Token<'s>>) -> Option<Sexp> {
    match token {
        Some(found) => Some(found@),
        None => None,
    }
}

/// Reads the offset that `token` spells: none where there is no token or
/// the token is `nil`, else its decimal number.
pub fn maybe_token_to_usize<'p, 's>(token: Option<&'p Token<'s>>) -> (r: Result<
    Option<usize>,
    ReconstructError,
>)
    ensures
        r == offset_of(model_of(token)),
{
    match token {
        None => Ok(None),
        Some(found) => {
            let val = match found.as_atom() {
                Ok(val) => val,
                Err(e) => {
                    return Err(e);
                },
            };
            if same_text(val, "nil") {
                Ok(None)
            } else {
                match parse_usize(val) {
                    Some(value) => Ok(Some(value)),
                    None => Err(ReconstructError::InvalidNumber),
                }
            }
        },
    }
}

/// The token at place `i` of `tokens`, if there is one.
fn nth<'p, 's>(tokens: &'p Vec<Token<'s>>, i: usize) -> (r: Option<&'p Token<'s>>)
    ensures
        model_of(r) == item(models(tokens@), i as int),
{
    if i < tokens.len() {
        Some(&tokens[i])
    } else {
        None
    }
}

/// Reads the offsets that the list node `emacs` states about itself, from
/// whichever of the two places its attributes hold them in.
pub fn get_standard_properties<'p, 's>(emacs: &'p Token<'s>) -> (r: Result<
    StandardProperties,
    ReconstructError,
>)
    ensures
        r == standard_properties_of(emacs@),
{
    let children = match emacs.as_list() {
        Ok(children) => children,
        Err(e) => {
            return Err(e);
        },
    };
    let attributes_child = match nth(children, 1) {
        Some(child) => child,
        None => {
            return Err(ReconstructError::MissingAttributes);
        },
    };
    let attributes_map = match attributes_child.as_map() {
        Ok(map) => map,
        Err(e) => {
            return Err(e);
        },
    };
    match attributes_map.get(":standard-properties") {
        Some(standard_properties) => packed(standard_properties),
        None => keyed(&attributes_map),
    }
}

/// The first error among six readings, or all six.
fn first_error(
    first: Result<Option<usize>, ReconstructError>,
    second: Result<Option<usize>, ReconstructError>,
    third: Result<Option<usize>, ReconstructError>,
    fourth: Result<Option<usize>, ReconstructError>,
    fifth: Result<Option<usize>, ReconstructError>,
    sixth: Result<Option<usize>, ReconstructError>,
) -> (r: Result<
    (Option<usize>, Option<usize>, Option<usize>, Option<usize>, Option<usize>, Option<usize>),
    ReconstructError,
>)
    ensures
        r == all_six(first, second, third, fourth, fifth, sixth),
{
    match (first, second, third, fourth, fifth, sixth) {
        (Err(e), _, _, _, _, _) => Err(e),
        (_, Err(e), _, _, _, _) => Err(e),
        (_, _, Err(e), _, _, _) => Err(e),
        (_, _, _, Err(e), _, _) => Err(e),
        (_, _, _, _, Err(e), _) => Err(e),
        (_, _, _, _, _, Err(e)) => Err(e),
        (Ok(a), Ok(b), Ok(c), Ok(d), Ok(e), Ok(f)) => Ok((a, b, c, d, e, f)),
    }
}

/// Reads the six offsets from the vector that holds them packed.
fn packed<'p, 's>(standard_properties: &'p Token<'s>) -> (r: Result<
    StandardProperties,
    ReconstructError,
>)
    ensures
        r == packed_properties(standard_properties@),
{
    let std_props = match standard_properties.as_vector() {
        Ok(slots) => slots,
        Err(e) => {
            return Err(e);
        },
    };
    let begin = maybe_token_to_usize(nth(std_props, 0));
    let post_affiliated = maybe_token_to_usize(nth(std_props, 1));
    let contents_begin = maybe_token_to_usize(nth(std_props, 2));
    let contents_end = maybe_token_to_usize(nth(std_props, 3));
    let end = maybe_token_to_usize(nth(std_props, 4));
    let post_blank = maybe_token_to_usize(nth(std_props, 5));
    match first_error(begin, post_affiliated, contents_begin, contents_end, end, post_blank) {
        Err(e) => Err(e),
        Ok((begin, post_affiliated, contents_begin, contents_end, end, post_blank)) => Ok(
            StandardProperties {
                begin,
                post_affiliated,
                contents_begin,
                contents_end,
                end,
                post_blank,
            },
        ),
    }
}

/// Reads the six offsets from the keys that hold one each.
fn keyed<'p, 's>(attributes_map: &TokenMap<'p, 's>) -> (r: Result<
    StandardProperties,
    ReconstructError,
>)
    ensures
        r == keyed_properties(attributes_map@),
{
    let begin = keyed_offset(attributes_map, ":begin");
    let end = keyed_offset(attributes_map, ":end");
    let contents_begin = keyed_offset(attributes_map, ":contents-begin");
    let contents_end = keyed_offset(attributes_map, ":contents-end");
    let post_blank = keyed_offset(attributes_map, ":post-blank");
    let post_affiliated = keyed_offset(attributes_map, ":post-affiliated");
    match first_error(begin, end, contents_begin, contents_end, post_blank, post_affiliated) {
        Err(e) => Err(e),
        Ok((begin, end, contents_begin, contents_end, post_blank, post_affiliated)) => Ok(
            StandardProperties {
                begin,
                post_affiliated,
                contents_begin,
                contents_end,
                end,
                post_blank,
            },
        ),
    }
}

/// Reads the offset that stands under `key` in `map`.
fn keyed_offset<'p, 's>(map: &TokenMap<'p, 's>, key: &str) -> (r: Result<
    Option<usize>,
    ReconstructError,
>)
    ensures
        r == offset_of(lookup(map@, key.spec_bytes())),
{
    maybe_token_to_usize(map.get(key))
}

/// The span of the list node `emacs` in `original_source`.
pub fn get_bounds<'p, 's>(original_source: &str, emacs: &'p Token<'s>) -> (r: Result<
    SourceRange,
    ReconstructError,
>)
    ensures
        r == bounds_of(original_source@, emacs@),
        r matches Ok(position) ==> position.wf(),
{
    let standard_properties = match get_standard_properties(emacs) {
        Ok(properties) => properties,
        Err(e) => {
            return Err(e);
        },
    };
    let begin = match standard_properties.begin {
        Some(begin) => begin,
        None => {
            return Err(ReconstructError::MissingBegin);
        },
    };
    let end = match standard_properties.end {
        Some(end) => end,
        None => {
            return Err(ReconstructError::MissingEnd);
        },
    };
    source_range(original_source, begin, end)
}

/// The span from character `begin` to character `end` of `original_source`.
fn source_range(original_source: &str, begin: usize, end: usize) -> (r: Result<
    SourceRange,
    ReconstructError,
>)
    ensures
        r == range_of(original_source@, begin, end),
        r matches Ok(position) ==> position.wf(),
{
    if end < begin {
        return Err(ReconstructError::InvalidRange);
    }
    proof {
        if 1 <= begin {
            lemma_lines_in_order(original_source@, begin, end);
            lemma_lines_fit(original_source@, begin, end);
        }
    }
    match get_line_numbers(original_source, begin, end) {
        Ok((start_line, end_line)) => Ok(
            SourceRange { start_line, end_line, start_character: begin, end_character: end },
        ),
        Err(e) => Err(e),
    }
}

/// Where the contents of the list node `emacs` begin.
pub fn get_contents_begin<'p, 's>(emacs: &'p Token<'s>) -> (r: Result<usize, ReconstructError>)
    ensures
        r == contents_begin_of(emacs@),
{
    let standard_properties = match get_standard_properties(emacs) {
        Ok(properties) => properties,
        Err(e) => {
            return Err(e);
        },
    };
    match standard_properties.contents_begin {
        Some(begin) => Ok(begin),
        None => Err(ReconstructError::MissingContentsBegin),
    }
}

/// Checks that `emacs` is a list that starts with the atom `name`.
pub fn assert_name<'p, 's>(emacs: &'p Token<'s>, name: &str) -> (r: Result<(), ReconstructError>)
    ensures
        r == name_check(emacs@, name.spec_bytes()),
{
    let children = match emacs.as_list() {
        Ok(children) => children,
        Err(e) => {
            return Err(e);
        },
    };
    let first = match nth(children, 0) {
        Some(first) => first,
        None => {
            return Err(ReconstructError::MissingName);
        },
    };
    let first_child = match first.as_atom() {
        Ok(text) => text,
        Err(e) => {
            return Err(e);
        },
    };
    if !same_text(first_child, name) {
        return Err(ReconstructError::UnexpectedName);
    }
    Ok(())
}

/// Whether building gave what the dump stands for.
pub open spec fn builds_as(found: Result<AstNode, ReconstructError>, expected: Result<
    Node,
    ReconstructError,
>) -> bool {
    match found {
        Ok(tree) => expected == Ok::<Node, ReconstructError>(tree@) && tree@.wf(),
        Err(e) => expected == Err::<Node, ReconstructError>(e),
    }
}

/// The span of the text `plain_text`, whose offsets count from
/// `parent_contents_begin`.
fn text_range<'p, 's>(
    original_source: &str,
    parent_contents_begin: Option<usize>,
    properties: &'p Vec<Token<'s>>,
) -> (r: Result<SourceRange, ReconstructError>)
    ensures
        r == text_range_of(original_source@, parent_contents_begin, models(properties@)),
        r matches Ok(position) ==> position.wf(),
{
    let parent_contents_begin = match parent_contents_begin {
        Some(base) => base,
        None => {
            return Err(ReconstructError::MissingReference);
        },
    };
    let first = match maybe_token_to_usize(nth(properties, 0)) {
        Ok(Some(first)) => first,
        Ok(None) => {
            return Err(ReconstructError::MissingTextBegin);
        },
        Err(e) => {
            return Err(e);
        },
    };
    if first > usize::MAX - parent_contents_begin {
        return Err(ReconstructError::InvalidRange);
    }
    let begin = parent_contents_begin + first;
    let second = match maybe_token_to_usize(nth(properties, 1)) {
        Ok(Some(second)) => second,
        Ok(None) => {
            return Err(ReconstructError::MissingTextEnd);
        },
        Err(e) => {
            return Err(e);
        },
    };
    if second > usize::MAX - parent_contents_begin {
        return Err(ReconstructError::InvalidRange);
    }
    let end = parent_contents_begin + second;
    source_range(original_source, begin, end)
}

/// Builds the node that `current_token` stands for in `original_source`.
///
/// A text with properties becomes a leaf named `plain-text`, at the offsets
/// that its first two properties give, counted from
/// `parent_contents_begin`. Any other token must be a list: its first item
/// names the node, its second holds the attributes, the others are its
/// children. The first child of a node that states where its contents begin
/// counts from there, and each later child from the end of the one before
/// it; the children of a node that does not state it count from nowhere.
pub fn build_ast_node<'p, 's>(
    original_source: &str,
    parent_contents_begin: Option<usize>,
    current_token: &'p Token<'s>,
) -> (r: Result<AstNode, ReconstructError>)
    ensures
        builds_as(r, node_of(original_source@, parent_contents_begin, current_token@)),
    decreases current_token,
{
    match current_token {
        Token::TextWithProperties(plain_text) => {
            match text_range(original_source, parent_contents_begin, &plain_text.properties) {
                Err(e) => Err(e),
                Ok(position) => {
                    let node = AstNode {
                        name: "plain-text".to_owned(),
                        position,
                        children: Vec::new(),
                    };
                    proof {
                        assert(nodes(node.children@) =~= Seq::<Node>::empty());
                    }
                    Ok(node)
                },
            }
        },
        Token::List(parameters) => {
            let first = match nth(parameters, 0) {
                Some(first) => first,
                None => {
                    return Err(ReconstructError::MissingName);
                },
            };
            let name = match first.as_atom() {
                Ok(name) => name,
                Err(e) => {
                    return Err(e);
                },
            };
            let position = match get_bounds(original_source, current_token) {
                Ok(position) => position,
                Err(e) => {
                    return Err(e);
                },
            };
            let original_contents_begin = match get_contents_begin(current_token) {
                Ok(begin) => Some(begin),
                Err(_) => None,
            };
            let children = match build_children(
                original_source,
                original_contents_begin,
                parameters,
            ) {
                Ok(children) => children,
                Err(e) => {
                    return Err(e);
                },
            };
            Ok(AstNode { name: name.to_owned(), position, children })
        },
        _ => Err(ReconstructError::WrongTokenType),
    }
}

/// Builds the children of a list node: the nodes for its items from the
/// third on, each counting from where the one before it ends.
fn build_children<'p, 's>(
    original_source: &str,
    original_contents_begin: Option<usize>,
    parameters: &'p Vec<Token<'s>>,
) -> (r: Result<Vec<AstNode>, ReconstructError>)
    ensures
        match r {
            Ok(children) => {
                &&& children_of(original_source@, original_contents_begin, models(parameters@), 2)
                    == Ok::<Seq<Node>, ReconstructError>(nodes(children@))
                &&& forall|j: int|
                    0 <= j < children@.len() ==> (#[trigger] nodes(children@)[j]).wf()
            },
            Err(e) => children_of(
                original_source@,
                original_contents_begin,
                models(parameters@),
                2,
            ) == Err::<Seq<Node>, ReconstructError>(e),
        },
    decreases parameters,
{
    let ghost items = models(parameters@);
    let mut children: Vec<AstNode> = Vec::new();
    let mut contents_begin = original_contents_begin;
    let mut i: usize = 2;
    proof {
        assert(nodes(children@) =~= Seq::<Node>::empty());
    }
    while i < parameters.len()
        invariant
            items == models(parameters@),
            2 <= i,
            forall|j: int| 0 <= j < children@.len() ==> (#[trigger] nodes(children@)[j]).wf(),
            children_of(original_source@, original_contents_begin, items, 2) == (match children_of(
                original_source@,
                contents_begin,
                items,
                i as int,
            ) {
                Ok(rest) => Ok::<Seq<Node>, ReconstructError>(nodes(children@) + rest),
                Err(e) => Err(e),
            }),
        decreases parameters@.len() - i,
    {
        let child = &parameters[i];
        let new_ast_node = match build_ast_node(original_source, contents_begin, child) {
            Ok(node) => node,
            Err(e) => {
                return Err(e);
            },
        };
        proof {
            lemma_nodes_push(children@, new_ast_node);
            let next = match contents_begin {
                Some(_) => Some(new_ast_node.position.end_character),
                None => None,
            };
            let rest = children_of(original_source@, next, items, i + 1);
            if rest is Ok {
                assert(nodes(children@) + (seq![new_ast_node@] + rest.unwrap()) =~= nodes(
                    children@,
                ).push(new_ast_node@) + rest.unwrap());
            }
        }
        if contents_begin.is_some() {
            contents_begin = Some(new_ast_node.position.end_character);
        }
        children.push(new_ast_node);
        i += 1;
    }
    proof {
        assert(nodes(children@) + Seq::<Node>::empty() =~= nodes(children@));
    }
    Ok(children)
}

/// Builds the tree of the document `body` from `ast_raw`, the dump of that
/// tree in Lisp printer syntax, and hands it out with both texts.
pub fn build_owner_tree(body: &str, ast_raw: &str) -> (r: Result<OwnerTree, ReconstructError>)
    ensures
        match r {
            Ok(owner) => {
                &&& owner_tree_of(body@, ast_raw.spec_bytes()) == Ok::<Node, ReconstructError>(
                    owner.tree@,
                )
                &&& owner.tree@.wf()
                &&& owner.tree@.name == root_name()
                &&& owner.input@ == body@
                &&& owner.ast@ == ast_raw@
            },
            Err(e) => owner_tree_of(body@, ast_raw.spec_bytes()) == Err::<Node, ReconstructError>(
                e,
            ),
        },
{
    let parsed_sexp = match sexp_with_padding(ast_raw) {
        Ok((_remaining, parsed)) => parsed,
        Err(CustomError::Nom(rest, kind)) => {
            proof {
                grammar::lemma_blanks_end_bounds(ast_raw.spec_bytes(), 0);
            }
            let offset = ast_raw.as_bytes().len() - rest.as_bytes().len();
            return Err(ReconstructError::Grammar { kind, offset });
        },
        Err(CustomError::MyError(_)) => {
            return Err(ReconstructError::WrongTokenType);
        },
    };
    match assert_name(&parsed_sexp, "org-data") {
        Ok(_) => {},
        Err(e) => {
            return Err(e);
        },
    }
    let ast_node = match build_ast_node(body, None, &parsed_sexp) {
        Ok(node) => node,
        Err(e) => {
            return Err(e);
        },
    };
    Ok(OwnerTree { input: body.to_owned(), ast: ast_raw.to_owned(), tree: ast_node })
}

} // verus!
