use orgtree::sexp::{sexp_with_padding, Token};

#[test]
fn simple() {
    let input = "  (foo bar baz )  ";
    let (remaining, parsed) = sexp_with_padding(input).expect("Parse the input");
    assert_eq!(remaining, "");
    assert!(match parsed {
        Token::Atom(_) => false,
        Token::List(_) => true,
        Token::TextWithProperties(_) => false,
        Token::Vector(_) => false,
    });
}

#[test]
fn quoted() {
    let input = r#"  ("foo" bar baz )  "#;
    let (remaining, parsed) = sexp_with_padding(input).expect("Parse the input");
    assert_eq!(remaining, "");
    assert!(match parsed {
        Token::Atom(_) => false,
        Token::List(_) => true,
        Token::TextWithProperties(_) => false,
        Token::Vector(_) => false,
    });
    let children = match parsed {
        Token::List(children) => children,
        _ => panic!("Should be a list."),
    };
    assert_eq!(
        match children.first() {
            Some(Token::Atom(body)) => *body,
            _ => panic!("First child should be an atom."),
        },
        r#""foo""#
    )
}

#[test]
fn quoted_containing_paren() {
    let input = r#"  (foo "b(a)r" baz )  "#;
    let (remaining, parsed) = sexp_with_padding(input).expect("Parse the input");
    assert_eq!(remaining, "");
    assert!(match parsed {
        Token::List(_) => true,
        _ => false,
    });
    let children = match parsed {
        Token::List(children) => children,
        _ => panic!("Should be a list."),
    };
    assert_eq!(
        match children.first() {
            Some(Token::Atom(body)) => *body,
            _ => panic!("First child should be an atom."),
        },
        r#"foo"#
    );
    assert_eq!(
        match children.iter().nth(1) {
            Some(Token::Atom(body)) => *body,
            _ => panic!("Second child should be an atom."),
        },
        r#""b(a)r""#
    );
    assert_eq!(
        match children.iter().nth(2) {
            Some(Token::Atom(body)) => *body,
            _ => panic!("Third child should be an atom."),
        },
        r#"baz"#
    );
}

#[test]
fn string_containing_escaped_characters() {
    let input = r#"  (foo "\\( x=2 \\)" bar)  "#;
    let (remaining, parsed) = sexp_with_padding(input).expect("Parse the input");
    assert_eq!(remaining, "");
    assert!(match parsed {
        Token::Atom(_) => false,
        Token::List(_) => true,
        Token::TextWithProperties(_) => false,
        Token::Vector(_) => false,
    });
    let children = match parsed {
        Token::List(children) => children,
        _ => panic!("Should be a list."),
    };
    assert_eq!(
        match children.get(1) {
            Some(Token::Atom(body)) => *body,
            _ => panic!("First child should be an atom."),
        },
        r#""\\( x=2 \\)""#
    )
}

use orgtree::error::{CustomError, ErrorKind, ReconstructError, UnquoteError};
use orgtree::sexp::{sexp, TextWithProperties};

fn atoms(children: &[Token]) -> Vec<String> {
    children
        .iter()
        .map(|child| match child {
            Token::Atom(body) => body.to_string(),
            other => panic!("not an atom: {:?}", other),
        })
        .collect()
}

fn list_of(token: Token) -> Vec<Token> {
    match token {
        Token::List(children) => children,
        other => panic!("not a list: {:?}", other),
    }
}

#[test]
fn padding_makes_no_difference() {
    let (rest_padded, padded) = sexp_with_padding(" ( a b ) ").expect("padded");
    let (rest_plain, plain) = sexp_with_padding("(a b)").expect("plain");
    assert_eq!(rest_padded, "");
    assert_eq!(rest_plain, "");
    assert_eq!(atoms(&list_of(padded)), vec!["a", "b"]);
    assert_eq!(atoms(&list_of(plain)), vec!["a", "b"]);
}

#[test]
fn all_four_blanks_separate() {
    let (rest, parsed) = sexp_with_padding("\t(a\tb\r\nc\n d)\r\n").expect("blanks");
    assert_eq!(rest, "");
    assert_eq!(atoms(&list_of(parsed)), vec!["a", "b", "c", "d"]);
}

#[test]
fn unpadded_reader_leaves_what_follows() {
    let (rest, parsed) = sexp("(a b) (c)").expect("first token");
    assert_eq!(rest, " (c)");
    assert_eq!(atoms(&list_of(parsed)), vec!["a", "b"]);
}

#[test]
fn padded_reader_hands_back_the_rest() {
    let (rest, parsed) = sexp_with_padding("  foo   bar ").expect("first token");
    assert_eq!(rest, "bar ");
    assert!(matches!(parsed, Token::Atom("foo")));
}

#[test]
fn unpadded_reader_refuses_a_leading_blank() {
    match sexp(" (a)") {
        Err(CustomError::Nom(rest, kind)) => {
            assert_eq!(rest, " (a)");
            assert_eq!(kind, ErrorKind::TakeTill1);
        }
        other => panic!("unexpected: {:?}", other),
    }
}

#[test]
fn empty_input_is_refused() {
    match sexp("") {
        Err(CustomError::Nom(rest, kind)) => {
            assert_eq!(rest, "");
            assert_eq!(kind, ErrorKind::TakeTill1);
        }
        other => panic!("unexpected: {:?}", other),
    }
    match sexp_with_padding("  \n ") {
        Err(CustomError::Nom(rest, kind)) => {
            assert_eq!(rest, "");
            assert_eq!(kind, ErrorKind::TakeTill1);
        }
        other => panic!("unexpected: {:?}", other),
    }
}

#[test]
fn a_closer_starts_no_token() {
    match sexp_with_padding("  ) a") {
        Err(CustomError::Nom(rest, kind)) => {
            assert_eq!(rest, ") a");
            assert_eq!(kind, ErrorKind::Not);
        }
        other => panic!("unexpected: {:?}", other),
    }
    match sexp("]") {
        Err(CustomError::Nom(rest, kind)) => {
            assert_eq!(rest, "]");
            assert_eq!(kind, ErrorKind::Not);
        }
        other => panic!("unexpected: {:?}", other),
    }
}

#[test]
fn vectors_and_lists_nest() {
    let (rest, parsed) = sexp("(a [b (c d)] e)").expect("nested");
    assert_eq!(rest, "");
    let children = list_of(parsed);
    assert_eq!(children.len(), 3);
    assert!(matches!(children[0], Token::Atom("a")));
    assert!(matches!(children[2], Token::Atom("e")));
    match &children[1] {
        Token::Vector(inner) => {
            assert_eq!(inner.len(), 2);
            assert!(matches!(inner[0], Token::Atom("b")));
            match &inner[1] {
                Token::List(innermost) => assert_eq!(atoms(innermost), vec!["c", "d"]),
                other => panic!("not a list: {:?}", other),
            }
        }
        other => panic!("not a vector: {:?}", other),
    }
}

#[test]
fn hash_literal_is_kept_verbatim() {
    let (rest, parsed) = sexp("(a #<buffer foo (bar)> b)").expect("hash");
    assert_eq!(rest, "");
    assert_eq!(atoms(&list_of(parsed)), vec!["a", "#<buffer foo (bar)>", "b"]);
}

#[test]
fn text_with_properties_is_read() {
    let (rest, parsed) = sexp(r#"#("some text" 0 9 (:parent (x)))"#).expect("text");
    assert_eq!(rest, "");
    match parsed {
        Token::TextWithProperties(body) => {
            assert_eq!(body.text, r#""some text""#);
            assert_eq!(body.properties.len(), 3);
            assert!(matches!(body.properties[0], Token::Atom("0")));
            assert!(matches!(body.properties[1], Token::Atom("9")));
            assert!(matches!(body.properties[2], Token::List(_)));
        }
        other => panic!("not a text: {:?}", other),
    }
}

#[test]
fn text_without_properties_is_read() {
    for input in [r#"#("abc")"#, r#"#("abc" )"#, r#"#( "abc")"#] {
        let (rest, parsed) = sexp(input).expect("text");
        assert_eq!(rest, "");
        match parsed {
            Token::TextWithProperties(body) => {
                assert_eq!(body.text, r#""abc""#);
                assert!(body.properties.is_empty());
            }
            other => panic!("not a text: {:?}", other),
        }
    }
}

#[test]
fn empty_quoted_atom_is_an_atom() {
    let (rest, parsed) = sexp(r#"("" a)"#).expect("empty string");
    assert_eq!(rest, "");
    assert_eq!(atoms(&list_of(parsed)), vec![r#""""#, "a"]);
}

#[test]
fn escapes_are_kept_in_quoted_atoms() {
    let (rest, parsed) = sexp(r#"("a\"b\\c\nd" e)"#).expect("escapes");
    assert_eq!(rest, "");
    assert_eq!(atoms(&list_of(parsed)), vec![r#""a\"b\\c\nd""#, "e"]);
}

fn refused(input: &str) -> (&str, ErrorKind) {
    match sexp_with_padding(input) {
        Err(CustomError::Nom(rest, kind)) => (rest, kind),
        other => panic!("unexpected: {:?}", other),
    }
}

#[test]
fn unknown_escape_is_a_parse_error() {
    // `\t` is no escape of the grammar: the quoted atom is refused, and is
    // not read as anything else.
    match sexp(r#""a\tb""#) {
        Err(CustomError::Nom(rest, kind)) => {
            assert_eq!(rest, r#""a\tb""#);
            assert_eq!(kind, ErrorKind::Escaped);
        }
        other => panic!("unexpected: {:?}", other),
    }
    assert_eq!(refused(r#"  "a\tb c"  "#), (r#""a\tb c"  "#, ErrorKind::Escaped));
    assert_eq!(refused(r#""\x""#), (r#""\x""#, ErrorKind::Escaped));
    assert_eq!(refused(r#"(a "b\tc" d)"#), (r#"(a "b\tc" d)"#, ErrorKind::SeparatedList));
}

#[test]
fn unterminated_quoted_atom_is_a_parse_error() {
    assert_eq!(refused(r#""abc"#), (r#""abc"#, ErrorKind::Escaped));
    assert_eq!(refused(r#""abc\""#), (r#""abc\""#, ErrorKind::Escaped));
    assert_eq!(refused(r#"""#), (r#"""#, ErrorKind::Escaped));
    assert_eq!(refused("\"abc\\"), ("\"abc\\", ErrorKind::Escaped));
}

#[test]
fn unterminated_list_is_a_parse_error() {
    assert_eq!(refused("(a (b"), ("(a (b", ErrorKind::SeparatedList));
    assert_eq!(refused("(a b"), ("(a b", ErrorKind::SeparatedList));
    assert_eq!(refused(" (a b "), ("(a b ", ErrorKind::SeparatedList));
    assert_eq!(refused("[a b"), ("[a b", ErrorKind::SeparatedList));
    assert_eq!(refused("(a (b c)"), ("(a (b c)", ErrorKind::SeparatedList));
}

#[test]
fn empty_list_is_a_parse_error() {
    assert_eq!(refused("()"), ("()", ErrorKind::SeparatedList));
    assert_eq!(refused("( )"), ("( )", ErrorKind::SeparatedList));
    assert_eq!(refused("[]"), ("[]", ErrorKind::SeparatedList));
    assert_eq!(refused("(a ())"), ("(a ())", ErrorKind::SeparatedList));
    assert_eq!(refused("("), ("(", ErrorKind::SeparatedList));
}

#[test]
fn a_bracket_of_the_other_kind_is_a_parse_error() {
    assert_eq!(refused("(a b]"), ("(a b]", ErrorKind::SeparatedList));
    assert_eq!(refused("[a b)"), ("[a b)", ErrorKind::SeparatedList));
    assert_eq!(refused("(a [b) c]"), ("(a [b) c]", ErrorKind::SeparatedList));
}

#[test]
fn items_must_be_set_apart() {
    // Nothing but a blank or the closing bracket may follow an item.
    assert_eq!(refused(r#"("a"b)"#), (r#"("a"b)"#, ErrorKind::SeparatedList));
    assert_eq!(refused("((a)b)"), ("((a)b)", ErrorKind::SeparatedList));
}

#[test]
fn unfinished_hash_literal_is_a_parse_error() {
    assert_eq!(refused("#<buffer"), ("#<buffer", ErrorKind::Tag));
    assert_eq!(refused("#<"), ("#<", ErrorKind::Tag));
    assert_eq!(refused("(a #<b c)"), ("(a #<b c)", ErrorKind::SeparatedList));
}

#[test]
fn unfinished_text_with_properties_is_a_parse_error() {
    assert_eq!(refused("#(abc 0 1)"), ("#(abc 0 1)", ErrorKind::SeparatedList));
    assert_eq!(refused("#()"), ("#()", ErrorKind::SeparatedList));
    assert_eq!(refused(r#"#("abc" 0 1"#), (r#"#("abc" 0 1"#, ErrorKind::SeparatedList));
    assert_eq!(refused(r#"#("abc\q" 0 1)"#), (r#"#("abc\q" 0 1)"#, ErrorKind::SeparatedList));
    assert_eq!(refused("#("), ("#(", ErrorKind::SeparatedList));
}

#[test]
fn a_hash_alone_starts_a_bare_atom() {
    let (rest, parsed) = sexp("(#1 # #a#)").expect("bare atoms");
    assert_eq!(rest, "");
    assert_eq!(atoms(&list_of(parsed)), vec!["#1", "#", "#a#"]);
}

#[test]
fn a_bare_atom_may_hold_what_starts_other_tokens() {
    let (rest, parsed) = sexp(r#"(a(b a"b a[ a#<)"#).expect("bare atoms");
    assert_eq!(rest, "");
    assert_eq!(atoms(&list_of(parsed)), vec!["a(b", "a\"b", "a[", "a#<"]);
}

#[test]
fn text_outside_ascii_is_kept() {
    let (rest, parsed) = sexp_with_padding("(héllo \"wörld\" 日本語) ✓").expect("unicode");
    assert_eq!(rest, "✓");
    assert_eq!(atoms(&list_of(parsed)), vec!["héllo", "\"wörld\"", "日本語"]);
}

#[test]
fn atoms_are_slices_of_the_input() {
    let input = String::from("(alpha \"be ta\" #<gamma>)");
    let (_, parsed) = sexp(&input).expect("list");
    let range = input.as_bytes().as_ptr_range();
    for child in list_of(parsed) {
        match child {
            Token::Atom(body) => {
                let start = body.as_ptr();
                assert!(range.start <= start && start < range.end);
            }
            other => panic!("not an atom: {:?}", other),
        }
    }
}

#[test]
fn accessors_tell_the_kinds_apart() {
    let (_, list) = sexp("(a)").expect("list");
    let (_, vector) = sexp("[a]").expect("vector");
    let (_, atom) = sexp("a").expect("atom");
    let (_, text) = sexp(r#"#("a" 0 1)"#).expect("text");

    assert_eq!(list.as_list().map(|c| c.len()), Ok(1));
    assert_eq!(list.as_vector().err(), Some(ReconstructError::WrongTokenType));
    assert_eq!(list.as_atom().err(), Some(ReconstructError::WrongTokenType));
    assert_eq!(list.as_text().err(), Some(ReconstructError::WrongTokenType));

    assert_eq!(vector.as_vector().map(|c| c.len()), Ok(1));
    assert_eq!(vector.as_list().err(), Some(ReconstructError::WrongTokenType));

    assert_eq!(atom.as_atom(), Ok("a"));
    assert_eq!(atom.as_list().err(), Some(ReconstructError::WrongTokenType));

    assert_eq!(text.as_text().map(|t| t.text), Ok(r#""a""#));
    assert_eq!(text.as_atom().err(), Some(ReconstructError::WrongTokenType));
}

#[test]
fn a_list_reads_as_a_map() {
    let (_, list) = sexp("(:a 1 :b (x y) :a 3)").expect("list");
    let map = list.as_map().expect("map");
    assert!(matches!(map.get(":a"), Some(Token::Atom("3"))));
    assert!(matches!(map.get(":b"), Some(Token::List(_))));
    assert!(map.get(":c").is_none());
    assert!(map.get("").is_none());
}

#[test]
fn a_map_needs_pairs_of_atom_and_value() {
    let (_, odd) = sexp("(:a 1 :b)").expect("list");
    assert_eq!(odd.as_map().err(), Some(ReconstructError::OddAttributes));
    let (_, keyless) = sexp("((x) 1)").expect("list");
    assert_eq!(keyless.as_map().err(), Some(ReconstructError::WrongTokenType));
    let (_, vector) = sexp("[:a 1]").expect("vector");
    assert_eq!(vector.as_map().err(), Some(ReconstructError::WrongTokenType));
}

fn text(body: &str) -> TextWithProperties<'_> {
    TextWithProperties { text: body, properties: Vec::new() }
}

#[test]
fn unquote_reads_the_escapes() {
    assert_eq!(text(r#""foo""#).unquote(), Ok("foo".to_string()));
    assert_eq!(text(r#""""#).unquote(), Ok(String::new()));
    assert_eq!(text(r#""a\nb""#).unquote(), Ok("a\nb".to_string()));
    assert_eq!(text(r#""a\\b""#).unquote(), Ok("a\\b".to_string()));
    assert_eq!(text(r#""a\"b""#).unquote(), Ok("a\"b".to_string()));
    assert_eq!(text(r#""\\( x=2 \\)""#).unquote(), Ok(r#"\( x=2 \)"#.to_string()));
    assert_eq!(text("\"日本\\n語\"").unquote(), Ok("日本\n語".to_string()));
}

#[test]
fn unquote_wants_both_quotes() {
    assert_eq!(text("").unquote(), Err(UnquoteError::MissingOpeningQuote));
    assert_eq!(text("foo\"").unquote(), Err(UnquoteError::MissingOpeningQuote));
    assert_eq!(text("\"foo").unquote(), Err(UnquoteError::MissingClosingQuote));
    assert_eq!(text("\"").unquote(), Err(UnquoteError::MissingClosingQuote));
}

#[test]
fn unquote_refuses_other_escapes() {
    assert_eq!(text(r#""a\tb""#).unquote(), Err(UnquoteError::UnknownEscape));
    assert_eq!(text(r#""\x""#).unquote(), Err(UnquoteError::UnknownEscape));
}

#[test]
fn unquote_drops_a_backslash_at_the_end() {
    assert_eq!(text("\"ab\\\"").unquote(), Ok("ab".to_string()));
}

#[test]
fn unquote_of_a_read_text() {
    let (_, parsed) = sexp(r#"#("line\nbreak \"q\"" 0 1)"#).expect("text");
    let body = parsed.as_text().expect("text");
    assert_eq!(body.unquote(), Ok("line\nbreak \"q\"".to_string()));
}

fn print(token: &Token, out: &mut String) {
    match token {
        Token::Atom(body) => out.push_str(body),
        Token::List(children) => {
            out.push('(');
            print_all(children, false, out);
            out.push(')');
        }
        Token::Vector(children) => {
            out.push('[');
            print_all(children, false, out);
            out.push(']');
        }
        Token::TextWithProperties(body) => {
            out.push_str("#(");
            out.push_str(body.text);
            print_all(&body.properties, true, out);
            out.push(')');
        }
    }
}

fn print_all(children: &[Token], space_first: bool, out: &mut String) {
    for (i, child) in children.iter().enumerate() {
        if space_first || i > 0 {
            out.push(' ');
        }
        print(child, out);
    }
}

fn printed(token: &Token) -> String {
    let mut out = String::new();
    print(token, &mut out);
    out
}

#[test]
fn what_is_read_prints_as_it_was_written() {
    for input in [
        "foo",
        r#""a quoted \"atom\" with \\ and \n""#,
        "#<marker 12 in buffer>",
        "(foo bar baz)",
        r#"(foo "b(a)r" baz)"#,
        r#"(foo "\\( x=2 \\)" bar)"#,
        "[1 nil 3]",
        r#"#("text" 0 4 (:k v))"#,
        r#"#("text")"#,
        r#"(org-data (:standard-properties [1 1 1 9 9 0 nil org-data nil]) (section (:begin 1 :end 9) #("abc\n" 0 4 (:parent #<x>))))"#,
    ] {
        let (rest, parsed) = sexp(input).expect("a token");
        assert_eq!(rest, "");
        assert_eq!(printed(&parsed), input);
    }
}

#[test]
fn blanks_change_nothing_but_the_text() {
    let plain = r#"(a [b "c d"] #("t" 0 1) (e))"#;
    let (_, expected) = sexp(plain).expect("plain");
    for padded in [
        "  (a [b \"c d\"] #(\"t\" 0 1) (e))  ",
        "( a [ b \"c d\" ] #( \"t\" 0 1 ) ( e ) )",
        "\n(\ta\r\n[b\n\n\"c d\"]\t\t#(\"t\"\n0\n1)  (e)\n)\n",
    ] {
        let (rest, parsed) = sexp_with_padding(padded).expect("padded");
        assert_eq!(rest, "");
        assert_eq!(printed(&parsed), printed(&expected));
        assert_eq!(printed(&parsed), plain);
    }
}

#[test]
fn leading_blanks_change_nothing() {
    let texts = [
        "",
        "a",
        "(a b) rest",
        "(a (b",
        ")",
        "\"a\\tb\"",
        "#<x",
        "#(\"t\" 0 1)  tail ",
        "[a \"b c\"]\n",
        "héllo wörld",
    ];
    for text in texts {
        for blanks in ["", " ", "\n", "\t\r\n  "] {
            let padded = format!("{}{}", blanks, text);
            match (sexp_with_padding(text), sexp_with_padding(&padded)) {
                (Ok((rest_plain, plain)), Ok((rest_padded, with_blanks))) => {
                    assert_eq!(rest_plain, rest_padded);
                    assert_eq!(printed(&plain), printed(&with_blanks));
                }
                (Err(CustomError::Nom(rest_plain, kind)), Err(CustomError::Nom(rest_padded, same))) => {
                    assert_eq!(rest_plain, rest_padded);
                    assert_eq!(kind, same);
                }
                (plain, with_blanks) => panic!("{:?} against {:?}", plain, with_blanks),
            }
        }
    }
}
