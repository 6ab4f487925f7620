use parser_util::json::ast::{string_contents, extract_text, JsAst, ParseError};
use parser_util::json::lexer::{JsLexer, JsToken, LexerError};
use parser_util::text::trim_string;

fn parse_ok(text: &str) -> JsAst {
    let mut ast = JsAst::new();
    let owned = text.to_string();
    ast.parse(&owned).ok().expect("parse should succeed");
    ast
}

fn parse_err(text: &str) -> ParseError {
    let mut ast = JsAst::new();
    let owned = text.to_string();
    match ast.parse(&owned) {
        Ok(()) => panic!("parse should fail"),
        Err(e) => e,
    }
}

fn number_text(raw: &String, tok: &JsToken) -> String {
    match tok {
        JsToken::Number { lbound, ubound } => trim_string(&extract_text(raw, *lbound, *ubound)),
        _ => panic!("not a number token"),
    }
}

#[test]
fn array_three_numeric_leaves_in_order() {
    let raw = "[1,2,3]".to_string();
    let mut ast = JsAst::new();
    ast.parse(&raw).ok().unwrap();
    assert_eq!(ast.ast.root, 0);
    let root = &ast.ast.nodes[0];
    assert_eq!(root.data, Some(JsToken::Open('[')));
    assert_eq!(root.children.len(), 3);
    let expected = ["1", "2", "3"];
    for (k, &child) in root.children.iter().enumerate() {
        let node = &ast.ast.nodes[child as usize];
        assert_eq!(number_text(&raw, node.data.as_ref().unwrap()), expected[k]);
        assert_eq!(node.children.len(), 0, "numeric leaves have no children");
    }
}

#[test]
fn object_two_keys_one_value_each() {
    let raw = "{\"k\":1,\"m\":2}".to_string();
    let mut ast = JsAst::new();
    ast.parse(&raw).ok().unwrap();
    let root = &ast.ast.nodes[ast.ast.root as usize];
    assert_eq!(root.data, Some(JsToken::Open('{')));
    assert_eq!(root.children.len(), 2);
    let expected_keys = ["k", "m"];
    let expected_vals = ["1", "2"];
    for (k, &child) in root.children.iter().enumerate() {
        let key_node = &ast.ast.nodes[child as usize];
        let key_tok = key_node.data.as_ref().unwrap();
        assert!(matches!(key_tok, JsToken::StringSpan { .. }));
        let key_text = string_contents(&raw, key_tok).unwrap();
        assert_eq!(key_text, expected_keys[k]);
        assert_eq!(key_node.children.len(), 1, "each key holds exactly one value");
        let val_node = &ast.ast.nodes[key_node.children[0] as usize];
        assert_eq!(number_text(&raw, val_node.data.as_ref().unwrap()), expected_vals[k]);
    }
}

#[test]
fn every_object_key_has_at_most_one_child() {
    let raw = "{\"k\":[1,2],\"m\":{\"n\":true},\"p\":\"q\"}".to_string();
    let mut ast = JsAst::new();
    ast.parse(&raw).ok().unwrap();
    // walk every object node and check each of its key children
    for node in ast.ast.nodes.iter() {
        if node.data == Some(JsToken::Open('{')) {
            for &key in node.children.iter() {
                let key_node = &ast.ast.nodes[key as usize];
                assert!(matches!(key_node.data, Some(JsToken::StringSpan { .. })));
                assert!(key_node.children.len() <= 1);
            }
        }
    }
}

#[test]
fn bracket_mismatch_is_detected() {
    assert!(matches!(parse_err("[1,2}"), ParseError::BracketMismatch));
    assert!(matches!(parse_err("{\"k\":1]"), ParseError::BracketMismatch));
}

#[test]
fn dangling_close_bracket_is_detected() {
    assert!(matches!(parse_err("[1,2]]"), ParseError::MissingCloseBracket));
    assert!(matches!(parse_err("]"), ParseError::MissingCloseBracket));
}

#[test]
fn unclosed_container_is_tolerated() {
    // documented quirk: the parser does not require the container stack
    // to be empty at end of input, so a missing close is accepted
    let ast = parse_ok("[1,2");
    assert_eq!(ast.ast.nodes[0].data, Some(JsToken::Open('[')));
}

#[test]
fn key_with_no_value_is_tolerated() {
    // documented quirk: an object key directly before the closing
    // bracket binds no value and raises no error
    let raw = "{\"k\"}".to_string();
    let mut ast = JsAst::new();
    ast.parse(&raw).ok().unwrap();
    let root = &ast.ast.nodes[ast.ast.root as usize];
    assert_eq!(root.children.len(), 1);
    let key_node = &ast.ast.nodes[root.children[0] as usize];
    assert_eq!(key_node.children.len(), 0);
}

#[test]
fn string_spans_reproduce_quoted_text() {
    let raw = "{\"key\":\"value\"}".to_string();
    let mut ast = JsAst::new();
    ast.parse(&raw).ok().unwrap();
    let spans: Vec<String> = ast
        .lexer
        .get_tok_stream()
        .iter()
        .filter(|t| matches!(t, JsToken::StringSpan { .. }))
        .map(|t| string_contents(&raw, t).unwrap())
        .collect();
    assert_eq!(spans, vec!["key".to_string(), "value".to_string()]);
}

#[test]
fn escaped_quote_stays_inside_string() {
    let raw = "[\"a\\\"b\"]".to_string();
    let mut ast = JsAst::new();
    ast.parse(&raw).ok().unwrap();
    let root = &ast.ast.nodes[0];
    assert_eq!(root.children.len(), 1);
    let tok = ast.ast.nodes[root.children[0] as usize].data.unwrap();
    assert_eq!(string_contents(&raw, &tok).unwrap(), "a\\\"b");
}

#[test]
fn unterminated_string_is_dropped_silently() {
    // documented quirk: end of input inside a string raises no error
    let mut lexer = JsLexer::new();
    let raw = "\"abc".to_string();
    assert!(lexer.lex(&raw).is_ok());
    assert!(lexer.get_tok_stream().is_empty());
}

#[test]
fn truncated_boolean_lookahead_matches() {
    // the lookahead comparison stops at end of input, so a truncated
    // literal still lexes as a boolean
    let mut lexer = JsLexer::new();
    let raw = "t".to_string();
    assert!(lexer.lex(&raw).is_ok());
    assert_eq!(lexer.get_tok_stream().as_slice(), &[JsToken::Boolean(true)]);
}

#[test]
fn booleans_lex_and_parse() {
    let raw = "[true,false]".to_string();
    let mut ast = JsAst::new();
    ast.parse(&raw).ok().unwrap();
    let root = &ast.ast.nodes[0];
    assert_eq!(root.children.len(), 2);
    assert_eq!(ast.ast.nodes[root.children[0] as usize].data, Some(JsToken::Boolean(true)));
    assert_eq!(ast.ast.nodes[root.children[1] as usize].data, Some(JsToken::Boolean(false)));
}

#[test]
fn invalid_identifier_is_rejected() {
    match parse_err("[x]") {
        ParseError::LexFailed(LexerError::InvalidIdentifier(pos)) => assert_eq!(pos, 1),
        _ => panic!("expected an invalid-identifier error"),
    }
}

#[test]
fn invalid_number_is_rejected() {
    match parse_err("[1x]") {
        ParseError::LexFailed(LexerError::InvalidNumber { lbound, ubound }) => {
            assert_eq!((lbound, ubound), (1, 3));
        },
        _ => panic!("expected an invalid-number error"),
    }
}

#[test]
fn float_grammar_accepts_standard_forms() {
    let raw = "[1.5e3,-.5,-NaN,+inf, 5. ,-Infinity]".to_string();
    let mut ast = JsAst::new();
    assert!(ast.parse(&raw).is_ok());
    assert_eq!(ast.ast.nodes[0].children.len(), 6);
}

#[test]
fn scalar_without_separator_is_rejected() {
    assert!(matches!(parse_err("[1,true"), ParseError::InvalidToken(_)));
    // the token directly after a finished value must be a comma or a
    // closing bracket; a later separator elsewhere does not excuse it
    assert!(matches!(parse_err("[true true]"), ParseError::InvalidToken(_)));
}

#[test]
fn object_value_without_key_is_rejected() {
    assert!(matches!(parse_err("{1}"), ParseError::MissingProperty));
}

#[test]
fn key_followed_by_value_without_colon_is_rejected() {
    assert!(matches!(parse_err("{\"k\" 1}"), ParseError::InvalidToken(_)));
}

#[test]
fn empty_input_parses_to_empty_tree() {
    let mut ast = JsAst::new();
    let raw = String::new();
    assert!(ast.parse(&raw).is_ok());
    assert!(ast.ast.nodes.is_empty());
}

#[test]
fn whitespace_only_input_parses_to_empty_tree() {
    let mut ast = JsAst::new();
    let raw = "  \t\n ".to_string();
    assert!(ast.parse(&raw).is_ok());
    assert!(ast.ast.nodes.is_empty());
}

#[test]
fn colon_before_close_is_tolerated() {
    // a key may be followed directly by the closing bracket; the colon
    // peek sees the close and consumes nothing
    let raw = "{\"k\":{}}".to_string();
    let mut ast = JsAst::new();
    assert!(ast.parse(&raw).is_ok());
    let root = &ast.ast.nodes[0];
    assert_eq!(root.children.len(), 1);
    let key = &ast.ast.nodes[root.children[0] as usize];
    assert_eq!(key.children.len(), 1);
    let val = &ast.ast.nodes[key.children[0] as usize];
    assert_eq!(val.data, Some(JsToken::Open('{')));
}

#[test]
fn out_of_grammar_adjacent_values_can_share_a_key() {
    // adjacent container values with no comma between them are outside
    // the grammar yet accepted; both attach to the same key, which is
    // why the one-value-per-key rule is stated for token streams whose
    // finished values are separated by commas or closing brackets
    let raw = "{\"k\":[1][2]}".to_string();
    let mut ast = JsAst::new();
    assert!(ast.parse(&raw).is_ok());
    let root = &ast.ast.nodes[0];
    assert_eq!(root.children.len(), 1);
    let key = &ast.ast.nodes[root.children[0] as usize];
    assert_eq!(key.children.len(), 2);
}
