use smol_str::SmolStr;
use treelang::source::SourceContext;
use treelang::Indent;
use treelang::ParseError;
use treelang::ParseResult;
use treelang::Tree;

/// Strips the `|` margin from an indented test literal: every line with a
/// margin contributes its content after the `|`, with a trailing newline.
fn normalize(text: &str) -> String {
    let mut out = String::new();
    for line in text.split('\n') {
        if let Some(index) = line.find('|') {
            out.push_str(&line[index + 1..]);
            out.push('\n');
        }
    }
    out
}

fn parse(content: &str) -> ParseResult<Tree> {
    Tree::parse(content, Indent::try_spaces(2).unwrap())
}

fn parse_error(content: &str) -> ParseError {
    parse(content).unwrap_err().into_error()
}

#[test]
fn trees() {
    let content = normalize(
        "
        |abc:
        |  def:
        |
        |    ghi
        |  jkl
    ",
    );
    let tree = parse(&content).unwrap();

    assert_eq!(tree.roots.len(), 1);
    let node_abc = &tree.roots[0];
    assert!(node_abc.kind.is_directive());
    assert_eq!(content.byte_offset_on_line(node_abc.location), 0);

    let abc_children = node_abc.children();
    assert_eq!(abc_children.len(), 2);
    let node_def = &abc_children[0];
    let node_jkl = &abc_children[1];

    assert!(node_def.kind.is_directive());
    assert_eq!(content.byte_offset_on_line(node_def.location), 2);
    let def_children = node_def.children();
    assert_eq!(def_children.len(), 1);
    let node_ghi = &def_children[0];
    assert!(node_ghi.kind.is_statement());
    assert_eq!(content.byte_offset_on_line(node_ghi.location), 4);

    assert!(node_jkl.kind.is_statement());
    assert_eq!(content.byte_offset_on_line(node_jkl.location), 2);

    assert_eq!(parse_error(&normalize("|  abc")), ParseError::IndentDepth);
    assert_eq!(parse_error(&normalize("|     abc")), ParseError::IndentChars);
}

#[test]
fn statements() {
    let content = "abc 23";
    let mut tree = parse(content).unwrap();
    assert_eq!(tree.roots.len(), 1);

    let stmt = tree.roots.remove(0).kind.try_into_statement().unwrap();
    assert_eq!(stmt.signature.len(), 2);
    let item_abc = &stmt.signature[0];
    let item_23 = &stmt.signature[1];

    assert_eq!(item_abc.kind.word_str(), Some("abc"));
    assert_eq!(content.span_str(item_abc.location), "abc");

    assert_eq!(item_23.kind.int_value(), Some(23));
    assert_eq!(content.span_str(item_23.location), "23");

    assert_eq!(parse_error(&normalize("|abc\n|  def")), ParseError::StatementWithChild);
}

#[test]
fn directives() {
    let content = "abc def: ghi jkl";
    let mut tree = parse(content).unwrap();
    assert_eq!(tree.roots.len(), 1);

    let dir = tree.roots.remove(0).kind.try_into_directive().unwrap();
    assert_eq!(dir.children.len(), 0);

    assert_eq!(dir.signature.len(), 2);
    let item_abc = &dir.signature[0];
    let item_def = &dir.signature[1];
    assert_eq!(item_abc.kind.word_str(), Some("abc"));
    assert_eq!(content.span_str(item_abc.location), "abc");
    assert_eq!(item_def.kind.word_str(), Some("def"));
    assert_eq!(content.span_str(item_def.location), "def");

    assert_eq!(dir.arguments.len(), 2);
    let item_ghi = &dir.arguments[0];
    let item_jkl = &dir.arguments[1];
    assert_eq!(item_ghi.kind.word_str(), Some("ghi"));
    assert_eq!(content.span_str(item_ghi.location), "ghi");
    assert_eq!(item_jkl.kind.word_str(), Some("jkl"));
    assert_eq!(content.span_str(item_jkl.location), "jkl");

    assert_eq!(
        parse_error(&normalize("|abc: def: ghi")),
        ParseError::UnexpectedChar { unexpected: ':' }
    );

    assert_eq!(
        parse_error(&normalize(
            "
            |abc:
            |  :def
        ",
        )),
        ParseError::EmptyDirectiveSignature
    );
}

#[test]
fn comments() {
    let content = normalize(
        "
        |    ;comment
        |abc;comment
        |def:ghi;comment
    ",
    );
    let tree = parse(&content).unwrap();

    assert_eq!(tree.roots.len(), 2);
    let stmt = tree.roots[0].kind.statement().unwrap();
    assert_eq!(stmt.signature.len(), 1);
    assert_eq!(stmt.signature[0].kind.word_str(), Some("abc"));

    let dir = tree.roots[1].kind.directive().unwrap();
    assert_eq!(dir.signature.len(), 1);
    assert_eq!(dir.signature[0].kind.word_str(), Some("def"));
    assert_eq!(dir.arguments.len(), 1);
    assert_eq!(dir.arguments[0].kind.word_str(), Some("ghi"));
}

fn single_statement_second_item(tree: &Tree) -> &treelang::Item {
    assert_eq!(tree.roots.len(), 1);
    let stmt = tree.roots[0].kind.statement().unwrap();
    assert_eq!(stmt.signature.len(), 2);
    &stmt.signature[1]
}

#[test]
fn words() {
    for value in ["a", "a_b", "a-b", "$a$", "a.b", "a23", "+", "&", "/"] {
        let content = format!("test {}", value);
        let tree = parse(&content).unwrap();
        let item = single_statement_second_item(&tree);

        assert!(item.kind.is_word());
        assert_eq!(content.span_str(item.location), value);
        assert_eq!(item.kind.word_str(), Some(value));
        assert_eq!(item.kind.word(), Some(&SmolStr::from(value)));
        assert_eq!(item.clone().kind.try_into_word(), Ok(SmolStr::from(value)));
    }
}

#[test]
fn ints() {
    for (value, int_value) in [("0", 0), ("23", 23), ("-0", -0), ("-23", -23)] {
        let content = format!("test {}", value);
        let tree = parse(&content).unwrap();
        let item = single_statement_second_item(&tree);

        assert!(item.kind.is_int());
        assert_eq!(content.span_str(item.location), value);
        assert_eq!(item.kind.int_value(), Some(int_value));
        assert_eq!(item.clone().kind.try_into_int(), Ok(int_value));
    }

    match parse_error(&normalize("|test 23abc")) {
        ParseError::InvalidInt { value } => assert_eq!(&value, "23abc"),
        other => panic!("expected InvalidInt, got {:?}", other),
    }

    match parse_error(&normalize("|test -23abc")) {
        ParseError::InvalidInt { value } => assert_eq!(&value, "-23abc"),
        other => panic!("expected InvalidInt, got {:?}", other),
    }
}

#[test]
fn floats() {
    for (value, float_value) in [("0.0", 0.0), ("23.0", 23.0), ("-0.0", -0.0), ("-23.0", -23.0)] {
        let content = format!("test {}", value);
        let tree = parse(&content).unwrap();
        let item = single_statement_second_item(&tree);

        assert!(item.kind.is_float());
        assert_eq!(content.span_str(item.location), value);
        let text = item.kind.float_text().unwrap();
        assert_eq!(text.as_str().parse::<f32>().unwrap(), float_value);
        let text = item.clone().kind.try_into_float().unwrap();
        assert_eq!(text.as_str().parse::<f32>().unwrap(), float_value);
    }

    match parse_error(&normalize("|test 23.abc")) {
        ParseError::InvalidFloat { value } => assert_eq!(&value, "23.abc"),
        other => panic!("expected InvalidFloat, got {:?}", other),
    }

    match parse_error(&normalize("|test -23.abc")) {
        ParseError::InvalidFloat { value } => assert_eq!(&value, "-23.abc"),
        other => panic!("expected InvalidFloat, got {:?}", other),
    }
}

#[test]
fn parentheses() {
    let content = normalize("|test (abc def)");
    let tree = parse(&content).unwrap();
    let item = single_statement_second_item(&tree);
    assert!(item.kind.is_parenthesized());
    assert_eq!(content.span_str(item.location), "(");
    let inner = item.kind.parenthesized().unwrap();
    assert_eq!(inner.len(), 2);
    assert_eq!(inner[0].kind.word_str(), Some("abc"));
    assert_eq!(content.span_str(inner[0].location), "abc");
    assert_eq!(inner[1].kind.word_str(), Some("def"));
    assert_eq!(content.span_str(inner[1].location), "def");
    assert!(item.clone().kind.try_into_parenthesized().is_ok());

    let content = normalize("|test ()");
    let tree = parse(&content).unwrap();
    let item = single_statement_second_item(&tree);
    assert!(item.kind.is_parenthesized());
    assert_eq!(content.span_str(item.location), "(");
    assert_eq!(item.kind.parenthesized().unwrap().len(), 0);
    assert!(item.clone().kind.try_into_parenthesized().is_ok());

    assert_eq!(
        parse_error(&normalize("|test (")),
        ParseError::UnclosedGroup { missing: ')' }
    );
    assert_eq!(
        parse_error(&normalize("|test )")),
        ParseError::UnexpectedChar { unexpected: ')' }
    );
}

#[test]
fn brackets() {
    let content = normalize("|test [abc def]");
    let tree = parse(&content).unwrap();
    let item = single_statement_second_item(&tree);
    assert!(item.kind.is_bracketed());
    assert_eq!(content.span_str(item.location), "[");
    let inner = item.kind.bracketed().unwrap();
    assert_eq!(inner.len(), 2);
    assert_eq!(inner[0].kind.word_str(), Some("abc"));
    assert_eq!(content.span_str(inner[0].location), "abc");
    assert_eq!(inner[1].kind.word_str(), Some("def"));
    assert_eq!(content.span_str(inner[1].location), "def");
    assert!(item.clone().kind.try_into_bracketed().is_ok());

    let content = normalize("|test []");
    let tree = parse(&content).unwrap();
    let item = single_statement_second_item(&tree);
    assert!(item.kind.is_bracketed());
    assert_eq!(content.span_str(item.location), "[");
    assert_eq!(item.kind.bracketed().unwrap().len(), 0);
    assert!(item.clone().kind.try_into_bracketed().is_ok());

    assert_eq!(
        parse_error(&normalize("|test [")),
        ParseError::UnclosedGroup { missing: ']' }
    );
    assert_eq!(
        parse_error(&normalize("|test ]")),
        ParseError::UnexpectedChar { unexpected: ']' }
    );
}

#[test]
fn braces() {
    let content = normalize("|test {abc def}");
    let tree = parse(&content).unwrap();
    let item = single_statement_second_item(&tree);
    assert!(item.kind.is_braced());
    assert_eq!(content.span_str(item.location), "{");
    let inner = item.kind.braced().unwrap();
    assert_eq!(inner.len(), 2);
    assert_eq!(inner[0].kind.word_str(), Some("abc"));
    assert_eq!(content.span_str(inner[0].location), "abc");
    assert_eq!(inner[1].kind.word_str(), Some("def"));
    assert_eq!(content.span_str(inner[1].location), "def");
    assert!(item.clone().kind.try_into_braced().is_ok());

    let content = normalize("|test {}");
    let tree = parse(&content).unwrap();
    let item = single_statement_second_item(&tree);
    assert!(item.kind.is_braced());
    assert_eq!(content.span_str(item.location), "{");
    assert_eq!(item.kind.braced().unwrap().len(), 0);
    assert!(item.clone().kind.try_into_braced().is_ok());

    assert_eq!(
        parse_error(&normalize("|test {")),
        ParseError::UnclosedGroup { missing: '}' }
    );
    assert_eq!(
        parse_error(&normalize("|test }")),
        ParseError::UnexpectedChar { unexpected: '}' }
    );
}

#[test]
fn indents() {
    assert!(Indent::try_spaces(0).is_none());
    assert!(Indent::try_spaces(2).is_some());
}

#[test]
fn tab_indentation() {
    let tree = Tree::parse("abc:\n\tdef", Indent::tabs()).unwrap();
    assert_eq!(tree.roots.len(), 1);
    let children = tree.roots[0].children();
    assert_eq!(children.len(), 1);
    assert!(children[0].kind.is_statement());
}

#[test]
fn empty_input_parses_to_empty_tree() {
    let tree = parse("").unwrap();
    assert_eq!(tree.roots.len(), 0);
    let tree = parse("\n  ;only a comment\n\n").unwrap();
    assert_eq!(tree.roots.len(), 0);
}

#[test]
fn blank_lines_never_change_the_tree_shape() {
    let with_blanks = parse("abc:\n\n  ;note\n  def\n").unwrap();
    let without = parse("abc:\n  def\n").unwrap();
    assert_eq!(with_blanks.roots.len(), without.roots.len());
    let a = with_blanks.roots[0].children();
    let b = without.roots[0].children();
    assert_eq!(a.len(), b.len());
    assert!(a[0].kind.is_statement() && b[0].kind.is_statement());
    let sig_a = &a[0].kind.statement().unwrap().signature;
    let sig_b = &b[0].kind.statement().unwrap().signature;
    assert_eq!(sig_a.len(), sig_b.len());
    assert_eq!(sig_a[0].kind.word_str(), sig_b[0].kind.word_str());
}

#[test]
fn error_offsets_point_at_the_offending_token() {
    let err = parse("test 23abc").unwrap_err();
    assert_eq!(err.offset().byte, 5);
    assert_eq!(err.offset().line_number, 1);

    let err = parse("abc:\n  :def").unwrap_err();
    assert_eq!(err.error(), &ParseError::EmptyDirectiveSignature);
    assert_eq!(err.offset().byte, 7);
    assert_eq!(err.offset().line_number, 2);
}

#[test]
fn int_range_limits() {
    let tree = parse("test 2147483647").unwrap();
    assert_eq!(single_statement_second_item(&tree).kind.int_value(), Some(2147483647));

    let tree = parse("test -2147483648").unwrap();
    assert_eq!(single_statement_second_item(&tree).kind.int_value(), Some(-2147483648));

    match parse_error("test 2147483648") {
        ParseError::InvalidInt { value } => assert_eq!(&value, "2147483648"),
        other => panic!("expected InvalidInt, got {:?}", other),
    }
}

#[test]
fn float_text_is_kept_verbatim() {
    let tree = parse("test -23.5e2").unwrap();
    let item = single_statement_second_item(&tree);
    assert_eq!(item.kind.float_text().unwrap(), &SmolStr::from("-23.5e2"));
    assert_eq!(item.kind.float_text().unwrap().as_str().parse::<f32>().unwrap(), -2350.0);
}

#[test]
fn nested_groups_round_trip_their_spans() {
    let content = "test [a (b {c}) 12]";
    let tree = parse(content).unwrap();
    let item = single_statement_second_item(&tree);
    let outer = item.kind.bracketed().unwrap();
    assert_eq!(content.span_str(item.location), "[");
    assert_eq!(content.span_str(outer[0].location), "a");
    assert_eq!(content.span_str(outer[1].location), "(");
    let mid = outer[1].kind.parenthesized().unwrap();
    assert_eq!(content.span_str(mid[0].location), "b");
    assert_eq!(content.span_str(mid[1].location), "{");
    let innermost = mid[1].kind.braced().unwrap();
    assert_eq!(content.span_str(innermost[0].location), "c");
    assert_eq!(content.span_str(outer[2].location), "12");
    assert_eq!(outer[2].kind.int_value(), Some(12));
}

#[test]
fn unclosed_inner_group_reports_its_own_delimiter() {
    assert_eq!(
        parse_error("test (("),
        ParseError::UnclosedGroup { missing: ')' }
    );
    assert_eq!(
        parse_error("test [ ( ]"),
        ParseError::UnexpectedChar { unexpected: ']' }
    );
}
