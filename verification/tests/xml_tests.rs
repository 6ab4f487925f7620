use parser_util::xml::ast::{XmlAst, XmlParser};
use parser_util::xml::lexer::{XmlLexer, XmlToken, XmlTokenKind};
use parser_util::xml::XMLErrorKind;

fn parse_ok(text: &str) -> XmlAst {
    let mut parser = XmlParser::new();
    let owned = text.to_string();
    parser.parse(&owned).ok().expect("parse should succeed");
    parser.into_ast()
}

fn parse_err(text: &str) -> XMLErrorKind {
    let mut parser = XmlParser::new();
    let owned = text.to_string();
    match parser.parse(&owned) {
        Ok(()) => panic!("parse should fail"),
        Err(e) => e,
    }
}

#[test]
fn tags_mismatch_is_detected() {
    match parse_err("<a>text</b>") {
        XMLErrorKind::ParserErr(reason) => assert_eq!(reason, "Tags mismatch"),
        _ => panic!("expected a parser error"),
    }
}

#[test]
fn missing_close_tag_is_detected() {
    match parse_err("<a>text") {
        XMLErrorKind::ParserErr(reason) => {
            assert_eq!(reason, "Opening tags do not match close tags")
        },
        _ => panic!("expected a parser error"),
    }
}

#[test]
fn sibling_after_closed_root_is_detected() {
    match parse_err("<a>x</a><b>y</b>") {
        XMLErrorKind::ParserErr(reason) => assert_eq!(reason, "Extra Tag"),
        _ => panic!("expected a parser error"),
    }
}

#[test]
fn malformed_attribute_is_detected() {
    match parse_err("<a b=c>x</a>") {
        XMLErrorKind::TokenizerErr(reason) => {
            assert_eq!(reason, "expected: '\"' right after '='")
        },
        _ => panic!("expected a tokenizer error"),
    }
}

#[test]
fn parse_then_render_preserves_text() {
    let text = "<a x=\"1\"><b/>hi</a>";
    let ast = parse_ok(text);
    assert_eq!(ast.to_xml(), text);
}

#[test]
fn render_trimmed_is_a_fixed_point() {
    let text = "<a> hello <b u=\" 1 \"> x </b></a>";
    let first = parse_ok(text).to_xml_trim();
    let second = parse_ok(&first).to_xml_trim();
    assert_eq!(first, second, "render-parse-render must be stable");
    assert_eq!(first, "<a>hello<b u=\"1\">x</b></a>");
}

#[test]
fn whitespace_only_content_is_dropped() {
    let ast = parse_ok("<a>   </a>");
    assert_eq!(ast.ast.pool[0].children.len(), 0);
    assert_eq!(ast.to_xml(), "<a></a>");
}

#[test]
fn comments_are_skipped() {
    let ast = parse_ok("<a><!-- note --><b/></a>");
    assert_eq!(ast.to_xml(), "<a><b/></a>");
}

#[test]
fn tag_names_start_alphabetic() {
    // a leading non-alphabetic character of a tag name is dropped
    // silently, so the close tag no longer matches
    match parse_err("<1a>x</1a>") {
        XMLErrorKind::ParserErr(reason) => assert_eq!(reason, "Tags mismatch"),
        _ => panic!("expected a parser error"),
    }
}

#[test]
fn attribute_lookup_first_match_wins() {
    let mut tok = XmlToken::new(XmlTokenKind::OpenTag, "a".to_string());
    tok.attribs.push(("k".to_string(), "v1".to_string()));
    tok.attribs.push(("k".to_string(), "v2".to_string()));
    tok.attribs.push(("m".to_string(), "w".to_string()));
    assert_eq!(tok.get_attrib("k"), Some(&"v1".to_string()));
    assert_eq!(tok.get_attrib("m"), Some(&"w".to_string()));
    assert_eq!(tok.get_attrib("absent"), None);
}

#[test]
fn attribute_lookup_mut_finds_first_match() {
    let mut tok = XmlToken::new(XmlTokenKind::OpenTag, "a".to_string());
    tok.attribs.push(("k".to_string(), "v1".to_string()));
    tok.attribs.push(("k".to_string(), "v2".to_string()));
    let i = tok.get_attrib_mut("k").unwrap();
    assert_eq!(i, 0);
    tok.attribs[i].1 = "v3".to_string();
    assert_eq!(tok.get_attrib("k"), Some(&"v3".to_string()));
    assert!(tok.get_attrib_mut("absent").is_none());
}

#[test]
fn empty_tag_kind_is_recognized() {
    assert!(XmlTokenKind::EmptyTag.is_emptytag());
    assert!(!XmlTokenKind::OpenTag.is_emptytag());
    let lexed = {
        let mut lexer = XmlLexer::new();
        lexer.lex("<a><b/></a>").ok().unwrap();
        lexer.tokens
    };
    assert_eq!(lexed.len(), 3);
    assert!(lexed[1].token_kind.is_emptytag());
    assert_eq!(lexed[1].content, "b");
}

#[test]
fn attributes_capture_keys_and_values() {
    let mut lexer = XmlLexer::new();
    lexer.lex("<a one=\"1\" two=\"2\">x</a>").ok().unwrap();
    let tok = &lexer.tokens[0];
    assert_eq!(tok.token_kind, XmlTokenKind::OpenTag);
    assert_eq!(tok.attribs.len(), 2);
    assert_eq!(tok.attribs[0], ("one".to_string(), "1".to_string()));
    // later keys keep the separating space; lookups and the trimmed
    // renderer account for it
    assert_eq!(tok.attribs[1], (" two".to_string(), "2".to_string()));
}

#[test]
fn empty_tag_with_attributes_is_retagged() {
    let mut lexer = XmlLexer::new();
    lexer.lex("<a one=\"1\"/>").ok().unwrap();
    assert_eq!(lexer.tokens.len(), 1);
    assert!(lexer.tokens[0].token_kind.is_emptytag());
    assert_eq!(lexer.tokens[0].attribs.len(), 1);
}

#[test]
fn grafting_inserts_subtree_and_leaves_source_alone() {
    let source = parse_ok("<post><t>hi</t></post>");
    let source_render_before = source.to_xml_trim();

    let mut dest = parse_ok("<thread><body class=\"thread_body\"></body></thread>");
    let post_ptr = dest.clone_tree(&source);

    let body_ptr = dest
        .ast
        .search(0, |node: &parser_util::arena::NaryNode<XmlToken>| {
            match node.data.as_ref().unwrap().get_attrib("class") {
                Some(val) => val == "thread_body",
                None => false,
            }
        })
        .expect("graft point must be found");
    dest.ast.add_child(body_ptr, post_ptr);

    assert_eq!(
        dest.to_xml_trim(),
        "<thread><body class=\"thread_body\"><post><t>hi</t></post></body></thread>"
    );
    assert_eq!(source.to_xml_trim(), source_render_before, "the source tree is untouched");
}

#[test]
fn renderer_handles_nested_structure() {
    let text = "<r><a><b>x</b></a><c/>tail</r>";
    let ast = parse_ok(text);
    assert_eq!(ast.to_xml(), text);
    // the trimmed form keeps a space after an empty tag's name
    assert_eq!(ast.to_xml_trim(), "<r><a><b>x</b></a><c />tail</r>");
}

#[test]
fn empty_input_cannot_close_a_root() {
    match parse_err("") {
        XMLErrorKind::ParserErr(reason) => {
            assert_eq!(reason, "Opening tags do not match close tags")
        },
        _ => panic!("expected a parser error"),
    }
    // a lone tag opens a root that nothing closes
    match parse_err("<a>") {
        XMLErrorKind::ParserErr(reason) => {
            assert_eq!(reason, "Opening tags do not match close tags")
        },
        _ => panic!("expected a parser error"),
    }
}

#[test]
fn attribute_before_any_token_is_dropped() {
    // a blank tag name emits no token, so the attribute that follows
    // has nothing to attach to and is discarded
    let mut lexer = XmlLexer::new();
    assert!(lexer.lex("< a=\"v\">x</y>").is_ok());
    assert!(lexer.tokens.iter().all(|t| t.attribs.is_empty()));
}

#[test]
fn tag_name_space_without_attribute_is_dropped() {
    // a space inside a tag starts attribute scanning only when an
    // alphabetic character follows; otherwise the space is dropped
    let mut lexer = XmlLexer::new();
    lexer.lex("<foo  bar=\"x\">y</foo>").ok().unwrap();
    assert_eq!(lexer.tokens[0].content, "foo");
    assert_eq!(lexer.tokens[0].attribs[0], ("bar".to_string(), "x".to_string()));
}
