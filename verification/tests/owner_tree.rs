use orgtree::error::{ErrorCategory, ErrorKind, ReconstructError};
use orgtree::owner_tree::{
    assert_name, build_ast_node, build_owner_tree, get_bounds, get_contents_begin,
    get_line_numbers, get_standard_properties, maybe_token_to_usize, AstNode, SourceRange,
    StandardProperties,
};
use orgtree::sexp::{sexp, Token};

// Characters 1 to 8 and the line feed at 9 make line 1, characters 10 to 19
// and the line feed at 20 make line 2, characters 21 to 26 and the line feed
// at 27 make line 3.
const SOURCE: &str = "abcdefgh\nijklmnopqr\nstuvwx\n";

fn range(start_line: usize, end_line: usize, start_character: usize, end_character: usize) -> SourceRange {
    SourceRange { start_line, end_line, start_character, end_character }
}

fn read(dump: &str) -> Token<'_> {
    let (rest, token) = sexp(dump).expect("a token");
    assert_eq!(rest, "");
    token
}

fn error_of(body: &str, dump: &str) -> ReconstructError {
    match build_owner_tree(body, dump) {
        Ok(tree) => panic!("built a tree: {:?}", tree),
        Err(e) => e,
    }
}

fn check_in_order(node: &AstNode) {
    assert!(node.position.start_character <= node.position.end_character);
    assert!(node.position.start_line <= node.position.end_line);
    for child in &node.children {
        check_in_order(child);
    }
}

#[test]
fn first_line_is_one() {
    assert_eq!(get_line_numbers(SOURCE, 1, 1), Ok((1, 2)));
    assert_eq!(get_line_numbers(SOURCE, 1, 5), Ok((1, 2)));
}

#[test]
fn end_line_is_one_past_the_last_line_touched() {
    // Character 10 starts line 2; the span ends in the middle of that line.
    assert_eq!(get_line_numbers(SOURCE, 10, 15), Ok((2, 3)));
    // The span ends just before the line feed of line 2.
    assert_eq!(get_line_numbers(SOURCE, 10, 20), Ok((2, 3)));
}

#[test]
fn a_trailing_line_feed_adds_no_line() {
    // The span takes the line feed of line 2 in.
    assert_eq!(get_line_numbers(SOURCE, 10, 21), Ok((2, 3)));
    // One character more and it touches line 3.
    assert_eq!(get_line_numbers(SOURCE, 10, 22), Ok((2, 4)));
}

#[test]
fn interior_line_feeds_count() {
    assert_eq!(get_line_numbers(SOURCE, 1, 28), Ok((1, 4)));
    assert_eq!(get_line_numbers(SOURCE, 5, 25), Ok((1, 4)));
    assert_eq!(get_line_numbers("a\n\n\nb", 1, 6), Ok((1, 5)));
    assert_eq!(get_line_numbers("a\n\n\n", 1, 5), Ok((1, 4)));
}

#[test]
fn an_empty_span_after_a_line_feed_ends_where_it_starts() {
    assert_eq!(get_line_numbers(SOURCE, 10, 10), Ok((2, 2)));
    assert_eq!(get_line_numbers(SOURCE, 11, 11), Ok((2, 3)));
}

#[test]
fn offsets_beyond_the_source_count_all_of_it() {
    assert_eq!(get_line_numbers(SOURCE, 100, 200), Ok((4, 4)));
    assert_eq!(get_line_numbers("", 1, 1), Ok((1, 2)));
    assert_eq!(get_line_numbers("", 7, 9), Ok((1, 2)));
}

#[test]
fn lines_are_counted_in_characters() {
    // Each of the first three characters takes more than one byte.
    assert_eq!(get_line_numbers("日本語\nab\n", 1, 4), Ok((1, 2)));
    assert_eq!(get_line_numbers("日本語\nab\n", 5, 7), Ok((2, 3)));
}

#[test]
fn only_character_zero_has_no_line() {
    assert_eq!(get_line_numbers(SOURCE, 0, 5), Err(ReconstructError::InvalidRange));
    assert_eq!(get_line_numbers(SOURCE, 0, 0), Err(ReconstructError::InvalidRange));
    assert_eq!(get_line_numbers(SOURCE, 5, 0), Err(ReconstructError::InvalidRange));
}

#[test]
fn lines_are_counted_also_where_the_end_comes_first() {
    assert_eq!(get_line_numbers(SOURCE, 6, 5), Ok((1, 2)));
    assert_eq!(get_line_numbers(SOURCE, 22, 10), Ok((3, 2)));
    assert_eq!(get_line_numbers(SOURCE, usize::MAX, 1), Ok((4, 2)));
    assert_eq!(get_line_numbers(SOURCE, 1, usize::MAX), Ok((1, 4)));
    assert_eq!(get_line_numbers("\n\n\n", usize::MAX, usize::MAX), Ok((4, 4)));
}

#[test]
fn offsets_are_nil_or_numbers() {
    assert_eq!(maybe_token_to_usize(None), Ok(None));
    assert_eq!(maybe_token_to_usize(Some(&Token::Atom("nil"))), Ok(None));
    assert_eq!(maybe_token_to_usize(Some(&Token::Atom("0"))), Ok(Some(0)));
    assert_eq!(maybe_token_to_usize(Some(&Token::Atom("123"))), Ok(Some(123)));
    assert_eq!(
        maybe_token_to_usize(Some(&Token::Atom("NIL"))),
        Err(ReconstructError::InvalidNumber)
    );
    assert_eq!(
        maybe_token_to_usize(Some(&Token::Atom("12x"))),
        Err(ReconstructError::InvalidNumber)
    );
    assert_eq!(
        maybe_token_to_usize(Some(&Token::Atom("-3"))),
        Err(ReconstructError::InvalidNumber)
    );
    assert_eq!(
        maybe_token_to_usize(Some(&Token::Atom("99999999999999999999999999"))),
        Err(ReconstructError::InvalidNumber)
    );
    assert_eq!(
        maybe_token_to_usize(Some(&Token::List(vec![Token::Atom("1")]))),
        Err(ReconstructError::WrongTokenType)
    );
}

#[test]
fn packed_properties_go_by_position() {
    let node = read("(x (:standard-properties [1 2 3 4 5 6 nil extra]))");
    assert_eq!(
        get_standard_properties(&node),
        Ok(StandardProperties {
            begin: Some(1),
            post_affiliated: Some(2),
            contents_begin: Some(3),
            contents_end: Some(4),
            end: Some(5),
            post_blank: Some(6),
        })
    );
}

#[test]
fn packed_properties_may_be_nil_or_short() {
    let node = read("(x (:standard-properties [1 nil nil]))");
    assert_eq!(
        get_standard_properties(&node),
        Ok(StandardProperties {
            begin: Some(1),
            post_affiliated: None,
            contents_begin: None,
            contents_end: None,
            end: None,
            post_blank: None,
        })
    );
}

#[test]
fn keyed_properties_go_by_key() {
    let node = read(
        "(x (:post-blank 6 :end 5 :other (a b) :begin 1 :contents-end nil :post-affiliated 2))",
    );
    assert_eq!(
        get_standard_properties(&node),
        Ok(StandardProperties {
            begin: Some(1),
            post_affiliated: Some(2),
            contents_begin: None,
            contents_end: None,
            end: Some(5),
            post_blank: Some(6),
        })
    );
}

#[test]
fn packed_properties_win_over_keyed_ones() {
    let node = read("(x (:begin 7 :standard-properties [1 1 1 9 9 0] :end 8))");
    let found = get_standard_properties(&node).expect("properties");
    assert_eq!(found.begin, Some(1));
    assert_eq!(found.end, Some(9));
}

#[test]
fn properties_need_a_well_formed_node() {
    assert_eq!(
        get_standard_properties(&read("x")),
        Err(ReconstructError::WrongTokenType)
    );
    assert_eq!(
        get_standard_properties(&read("(x)")),
        Err(ReconstructError::MissingAttributes)
    );
    assert_eq!(
        get_standard_properties(&read("(x y)")),
        Err(ReconstructError::WrongTokenType)
    );
    assert_eq!(
        get_standard_properties(&read("(x (:begin))")),
        Err(ReconstructError::OddAttributes)
    );
    assert_eq!(
        get_standard_properties(&read("(x (:standard-properties (1 2)))")),
        Err(ReconstructError::WrongTokenType)
    );
    assert_eq!(
        get_standard_properties(&read("(x (:standard-properties [1 x]))")),
        Err(ReconstructError::InvalidNumber)
    );
    assert_eq!(
        get_standard_properties(&read("(x (:begin 1 :end (2)))")),
        Err(ReconstructError::WrongTokenType)
    );
}

#[test]
fn the_first_bad_property_is_reported() {
    // Packed: the slots are read from left to right.
    assert_eq!(
        get_standard_properties(&read("(x (:standard-properties [(1) x]))")),
        Err(ReconstructError::WrongTokenType)
    );
    assert_eq!(
        get_standard_properties(&read("(x (:standard-properties [x (1)]))")),
        Err(ReconstructError::InvalidNumber)
    );
    // Keyed: begin is read before end, whatever the order in the dump.
    assert_eq!(
        get_standard_properties(&read("(x (:end (1) :begin x))")),
        Err(ReconstructError::InvalidNumber)
    );
    assert_eq!(
        get_standard_properties(&read("(x (:end x :begin (1)))")),
        Err(ReconstructError::WrongTokenType)
    );
}

#[test]
fn bounds_need_begin_and_end() {
    assert_eq!(
        get_bounds(SOURCE, &read("(x (:begin 10 :end 20))")),
        Ok(range(2, 3, 10, 20))
    );
    assert_eq!(
        get_bounds(SOURCE, &read("(x (:end 20))")),
        Err(ReconstructError::MissingBegin)
    );
    assert_eq!(
        get_bounds(SOURCE, &read("(x (:begin nil :end 20))")),
        Err(ReconstructError::MissingBegin)
    );
    assert_eq!(
        get_bounds(SOURCE, &read("(x (:begin 10))")),
        Err(ReconstructError::MissingEnd)
    );
    assert_eq!(
        get_bounds(SOURCE, &read("(x (:begin 0 :end 20))")),
        Err(ReconstructError::InvalidRange)
    );
    assert_eq!(
        get_bounds(SOURCE, &read("(x (:begin 21 :end 20))")),
        Err(ReconstructError::InvalidRange)
    );
}

#[test]
fn contents_begin_is_optional_to_state_and_needed_to_get() {
    assert_eq!(get_contents_begin(&read("(x (:contents-begin 12))")), Ok(12));
    assert_eq!(
        get_contents_begin(&read("(x (:standard-properties [1 1 7 9 9 0]))")),
        Ok(7)
    );
    assert_eq!(
        get_contents_begin(&read("(x (:begin 1 :end 2))")),
        Err(ReconstructError::MissingContentsBegin)
    );
    assert_eq!(
        get_contents_begin(&read("(x (:contents-begin nil))")),
        Err(ReconstructError::MissingContentsBegin)
    );
    assert_eq!(
        get_contents_begin(&read("(x (:contents-begin y))")),
        Err(ReconstructError::InvalidNumber)
    );
}

#[test]
fn names_are_checked() {
    assert_eq!(assert_name(&read("(org-data x)"), "org-data"), Ok(()));
    assert_eq!(
        assert_name(&read("(org-dat x)"), "org-data"),
        Err(ReconstructError::UnexpectedName)
    );
    assert_eq!(
        assert_name(&read("(\"org-data\" x)"), "org-data"),
        Err(ReconstructError::UnexpectedName)
    );
    assert_eq!(
        assert_name(&read("[org-data x]"), "org-data"),
        Err(ReconstructError::WrongTokenType)
    );
    assert_eq!(
        assert_name(&read("((org-data) x)"), "org-data"),
        Err(ReconstructError::WrongTokenType)
    );
    assert_eq!(
        assert_name(&Token::List(Vec::new()), "org-data"),
        Err(ReconstructError::MissingName)
    );
}

#[test]
fn offset_math_at_a_line_start() {
    // Character 10 starts line 2, and the node ends just before the line
    // feed that ends that line.
    let dump = "(org-data (:begin 10 :end 20))";
    let owner = build_owner_tree(SOURCE, dump).expect("a tree");
    assert_eq!(owner.tree.position.start_character, 10);
    assert_eq!(owner.tree.position.end_character, 20);
    assert_eq!(owner.tree.position.start_line, 2);
    assert_eq!(owner.tree.position.end_line, 3);
    // With the line feed taken in, the end line stays and the end character
    // moves.
    let dump = "(org-data (:begin 10 :end 21))";
    let owner = build_owner_tree(SOURCE, dump).expect("a tree");
    assert_eq!(owner.tree.position, range(2, 3, 10, 21));
}

#[test]
fn text_offsets_count_from_the_sibling_before() {
    let dump = "(org-data (:begin 1 :end 100 :contents-begin 50) #(\"hello\" 0 5) #(\"abc\" 0 3))";
    let owner = build_owner_tree("", dump).expect("a tree");
    let children = &owner.tree.children;
    assert_eq!(children.len(), 2);
    assert_eq!(children[0].position.start_character, 50);
    assert_eq!(children[0].position.end_character, 55);
    assert_eq!(children[1].position.start_character, 55);
    assert_eq!(children[1].position.end_character, 58);
}

#[test]
fn text_offsets_add_to_the_end_of_the_sibling_before() {
    let dump = "(org-data (:begin 1 :end 100 :contents-begin 50) #(\"hello\" 0 5) #(\"abc\" 5 8))";
    let owner = build_owner_tree("", dump).expect("a tree");
    let children = &owner.tree.children;
    assert_eq!(children.len(), 2);
    assert_eq!(
        (children[0].position.start_character, children[0].position.end_character),
        (50, 55)
    );
    // The second text counts from 55, where the first ends, not from 50.
    assert_eq!(
        (children[1].position.start_character, children[1].position.end_character),
        (60, 63)
    );
}

#[test]
fn a_whole_tree() {
    let dump = concat_lines(&[
        "  (org-data (:standard-properties [1 1 1 28 28 0 nil org-data nil nil])",
        "    (paragraph (:standard-properties [1 1 10 28 28 0])",
        "      #(\"x\" 0 5 (:parent #1))",
        "      #(\"y\" 5 8)",
        "      (bold (:begin 21 :end 27 :contents-begin 22 :contents-end 26) #(\"b\" 0 4))",
        "      #(\"z\" 0 1)))  ",
    ]);
    let owner = build_owner_tree(SOURCE, &dump).expect("a tree");
    assert_eq!(owner.input, SOURCE);
    assert_eq!(owner.ast, dump);
    let root = &owner.tree;
    check_in_order(root);
    assert_eq!(root.name, "org-data");
    assert_eq!(root.position, range(1, 4, 1, 28));
    assert_eq!(root.children.len(), 1);

    let paragraph = &root.children[0];
    assert_eq!(paragraph.name, "paragraph");
    assert_eq!(paragraph.position, range(1, 4, 1, 28));
    assert_eq!(paragraph.children.len(), 4);

    let x = &paragraph.children[0];
    assert_eq!(x.name, "plain-text");
    assert_eq!(x.position, range(2, 3, 10, 15));
    assert!(x.children.is_empty());

    let y = &paragraph.children[1];
    assert_eq!(y.name, "plain-text");
    assert_eq!(y.position, range(2, 4, 20, 23));

    let bold = &paragraph.children[2];
    assert_eq!(bold.name, "bold");
    assert_eq!(bold.position, range(3, 4, 21, 27));
    assert_eq!(bold.children.len(), 1);
    assert_eq!(bold.children[0].name, "plain-text");
    assert_eq!(bold.children[0].position, range(3, 4, 22, 26));

    let z = &paragraph.children[3];
    assert_eq!(z.name, "plain-text");
    assert_eq!(z.position, range(3, 4, 27, 28));
}

fn concat_lines(lines: &[&str]) -> String {
    let mut out = String::new();
    for line in lines {
        out.push_str(line);
        out.push('\n');
    }
    out
}

#[test]
fn what_follows_the_root_is_not_looked_at() {
    let owner = build_owner_tree(SOURCE, "(org-data (:begin 1 :end 2)) (garbage").expect("a tree");
    assert_eq!(owner.tree.name, "org-data");
    assert!(owner.tree.children.is_empty());
}

#[test]
fn children_without_a_reference_may_be_lists() {
    let dump = "(org-data (:begin 1 :end 28) (section (:begin 1 :end 9)) (section (:begin 10 :end 20)))";
    let owner = build_owner_tree(SOURCE, dump).expect("a tree");
    assert_eq!(owner.tree.children.len(), 2);
    assert_eq!(owner.tree.children[0].position, range(1, 2, 1, 9));
    assert_eq!(owner.tree.children[1].position, range(2, 3, 10, 20));
}

#[test]
fn a_root_of_another_name_is_a_schema_error() {
    let error = error_of(SOURCE, "(org-dat (:begin 1 :end 2))");
    assert_eq!(error, ReconstructError::UnexpectedName);
    assert_eq!(error.category(), ErrorCategory::Schema);
    let error = error_of(SOURCE, "(paragraph (:begin 1 :end 2))");
    assert_eq!(error, ReconstructError::UnexpectedName);
    let error = error_of(SOURCE, "org-data");
    assert_eq!(error, ReconstructError::WrongTokenType);
    assert_eq!(error.category(), ErrorCategory::Schema);
}

#[test]
fn malformed_text_is_a_grammar_error() {
    let error = error_of(SOURCE, "");
    assert_eq!(error, ReconstructError::Grammar { kind: ErrorKind::TakeTill1, offset: 0 });
    assert_eq!(error.category(), ErrorCategory::Grammar);
    let error = error_of(SOURCE, " \n\t ");
    assert_eq!(error, ReconstructError::Grammar { kind: ErrorKind::TakeTill1, offset: 4 });
    let error = error_of(SOURCE, "  ) (org-data)");
    assert_eq!(error, ReconstructError::Grammar { kind: ErrorKind::Not, offset: 2 });
    assert_eq!(error.category(), ErrorCategory::Grammar);
}

#[test]
fn an_unterminated_dump_is_a_grammar_error() {
    let error = error_of(SOURCE, "(org-data (:begin 1 :end 2)");
    assert_eq!(error, ReconstructError::Grammar { kind: ErrorKind::SeparatedList, offset: 0 });
    assert_eq!(error.category(), ErrorCategory::Grammar);
    let error = error_of(SOURCE, "  (org-data (:begin 1 :end 2) ()) ");
    assert_eq!(error, ReconstructError::Grammar { kind: ErrorKind::SeparatedList, offset: 2 });
    let error = error_of(SOURCE, "\n(org-data (:begin 1 :end 2) \"a\\qb\")");
    assert_eq!(error, ReconstructError::Grammar { kind: ErrorKind::SeparatedList, offset: 1 });
    let error = error_of(SOURCE, " \"org-data");
    assert_eq!(error, ReconstructError::Grammar { kind: ErrorKind::Escaped, offset: 1 });
    assert_eq!(error.category(), ErrorCategory::Grammar);
    let error = error_of(SOURCE, "#<org-data");
    assert_eq!(error, ReconstructError::Grammar { kind: ErrorKind::Tag, offset: 0 });
}

#[test]
fn every_schema_defect_is_reported() {
    assert_eq!(error_of(SOURCE, "(org-data)"), ReconstructError::MissingAttributes);
    assert_eq!(error_of(SOURCE, "(org-data x)"), ReconstructError::WrongTokenType);
    assert_eq!(error_of(SOURCE, "(org-data (:begin 1 :end))"), ReconstructError::OddAttributes);
    assert_eq!(error_of(SOURCE, "(org-data (:end 2))"), ReconstructError::MissingBegin);
    assert_eq!(error_of(SOURCE, "(org-data (:begin 1))"), ReconstructError::MissingEnd);
    assert_eq!(
        error_of(SOURCE, "(org-data (:begin 1 :end 9) #(\"a\" 0 1))"),
        ReconstructError::MissingReference
    );
    assert_eq!(
        error_of(SOURCE, "(org-data (:begin 1 :end 9 :contents-begin 1) #(\"a\"))"),
        ReconstructError::MissingTextBegin
    );
    assert_eq!(
        error_of(SOURCE, "(org-data (:begin 1 :end 9 :contents-begin 1) #(\"a\" nil 1))"),
        ReconstructError::MissingTextBegin
    );
    assert_eq!(
        error_of(SOURCE, "(org-data (:begin 1 :end 9 :contents-begin 1) #(\"a\" 0))"),
        ReconstructError::MissingTextEnd
    );
    assert_eq!(
        error_of(SOURCE, "(org-data (:begin 1 :end 9 :contents-begin 1) [a b])"),
        ReconstructError::WrongTokenType
    );
    assert_eq!(
        error_of(SOURCE, "(org-data (:begin 1 :end 9 :contents-begin 1) atom)"),
        ReconstructError::WrongTokenType
    );
    assert_eq!(
        error_of(SOURCE, "(org-data (:begin 1 :end 9) ((x) (:begin 1 :end 2)))"),
        ReconstructError::WrongTokenType
    );
    for error in [
        ReconstructError::WrongTokenType,
        ReconstructError::MissingName,
        ReconstructError::UnexpectedName,
        ReconstructError::MissingAttributes,
        ReconstructError::OddAttributes,
        ReconstructError::MissingBegin,
        ReconstructError::MissingEnd,
        ReconstructError::MissingContentsBegin,
        ReconstructError::MissingReference,
        ReconstructError::MissingTextBegin,
        ReconstructError::MissingTextEnd,
    ] {
        assert_eq!(error.category(), ErrorCategory::Schema);
    }
}

#[test]
fn every_value_defect_is_reported() {
    let error = error_of(SOURCE, "(org-data (:begin one :end 2))");
    assert_eq!(error, ReconstructError::InvalidNumber);
    assert_eq!(error.category(), ErrorCategory::Value);
    let error = error_of(SOURCE, "(org-data (:begin 0 :end 2))");
    assert_eq!(error, ReconstructError::InvalidRange);
    assert_eq!(error.category(), ErrorCategory::Value);
    assert_eq!(error_of(SOURCE, "(org-data (:begin 3 :end 2))"), ReconstructError::InvalidRange);
    assert_eq!(
        error_of(SOURCE, "(org-data (:begin 1 :end 9 :contents-begin 1) #(\"a\" 5 2))"),
        ReconstructError::InvalidRange
    );
    let largest = usize::MAX;
    assert_eq!(
        error_of(
            SOURCE,
            &format!("(org-data (:begin 1 :end 9 :contents-begin 2) #(\"a\" {} 1))", largest)
        ),
        ReconstructError::InvalidRange
    );
    assert_eq!(
        error_of(
            SOURCE,
            &format!("(org-data (:begin 1 :end 9 :contents-begin 2) #(\"a\" 0 {}))", largest)
        ),
        ReconstructError::InvalidRange
    );
}

#[test]
fn the_first_defect_of_a_child_stops_the_building() {
    let dump = "(org-data (:begin 1 :end 9) (a (:begin 1 :end 2)) (b (:begin x :end 2)) (c))";
    assert_eq!(error_of(SOURCE, dump), ReconstructError::InvalidNumber);
}

#[test]
fn a_node_is_built_from_a_token() {
    let token = read("#(\"text\" 2 4)");
    let node = build_ast_node(SOURCE, Some(9), &token).expect("a node");
    assert_eq!(node.name, "plain-text");
    assert_eq!(node.position, range(2, 3, 11, 13));
    assert_eq!(
        build_ast_node(SOURCE, None, &token).err(),
        Some(ReconstructError::MissingReference)
    );
    let token = read("(headline (:begin 1 :end 10))");
    let node = build_ast_node(SOURCE, Some(1000), &token).expect("a node");
    assert_eq!(node.name, "headline");
    assert_eq!(node.position, range(1, 2, 1, 10));
}
