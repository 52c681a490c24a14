use combo_shorthand::desugarer::desugar;
use combo_shorthand::lexer::lex;
use combo_shorthand::lexer::split_till_plus;
use combo_shorthand::lexer::LexItem;
use combo_shorthand::lexer::LexNode;
use combo_shorthand::lexer::SyntaxError;
use combo_shorthand::tokenizer::tokenize;
use combo_shorthand::tokenizer::Token;

fn text(s: &str) -> LexNode {
    LexNode { of_type: LexItem::Text(String::from(s)), content: None }
}

fn text_then(s: &str, next: LexNode) -> LexNode {
    LexNode { of_type: LexItem::Text(String::from(s)), content: Some(vec![next]) }
}

fn option_of(nodes: Vec<LexNode>) -> LexNode {
    LexNode { of_type: LexItem::Option, content: Some(nodes) }
}

fn group_of(options: Vec<LexNode>) -> LexNode {
    LexNode { of_type: LexItem::OptionGroup, content: Some(options) }
}

#[test]
fn single_char_builds_single_text() {
    let nodes = lex(&tokenize(&String::from("q"))).unwrap();
    assert_eq!(nodes, vec![text("q")]);
}

#[test]
fn empty_input_builds_no_nodes() {
    let tokens = tokenize(&String::from(""));
    assert!(tokens.is_empty());
    assert_eq!(lex(&tokens).unwrap(), Vec::<LexNode>::new());
}

#[test]
fn whitespace_only_scans_empty() {
    let tokens = tokenize(&String::from("   "));
    assert!(tokens.is_empty());
    assert_eq!(lex(&tokens).unwrap(), Vec::<LexNode>::new());
}

#[test]
fn unmatched_brace_fails() {
    let result = lex(&tokenize(&String::from("{a,b")));
    assert!(matches!(result, Err(SyntaxError::UnmatchedGroupOpen(_))));
}

#[test]
fn nested_close_is_matched_by_depth() {
    // The closing brace of the inner group must not be taken for the
    // outer one: the last token of the term is the balanced close.
    let result = lex(&tokenize(&String::from("{{a},b}")));
    let expected = vec![group_of(vec![
        option_of(vec![group_of(vec![option_of(vec![text("a")])])]),
        option_of(vec![text("b")]),
    ])];
    assert_eq!(result.unwrap(), expected);
}

#[test]
fn empty_term_between_plus_fails() {
    let result = lex(&tokenize(&String::from("x + + y")));
    assert!(matches!(result, Err(SyntaxError::EmptyTerm)));
}

#[test]
fn empty_alternative_fails() {
    let result = lex(&tokenize(&String::from("{a,,b}")));
    assert!(matches!(result, Err(SyntaxError::EmptyTerm)));
}

#[test]
fn empty_group_fails() {
    let result = lex(&tokenize(&String::from("{}")));
    assert!(matches!(result, Err(SyntaxError::EmptyTerm)));
}

#[test]
fn leading_close_is_unexpected() {
    let result = lex(&tokenize(&String::from("}")));
    match result {
        Err(SyntaxError::UnexpectedToken(t, _)) => assert_eq!(t, Token::OptionEnd),
        other => panic!("expected an unexpected-token error, got {:?}", other),
    }
}

#[test]
fn tokens_after_group_are_unexpected() {
    let result = lex(&tokenize(&String::from("{a,b}c")));
    match result {
        Err(SyntaxError::UnexpectedToken(t, _)) => {
            assert_eq!(t, Token::Text(String::from("c")))
        },
        other => panic!("expected an unexpected-token error, got {:?}", other),
    }
}

#[test]
fn long_range_endpoint_fails() {
    let result = lex(&tokenize(&String::from("{ab-c}")));
    match result {
        Err(SyntaxError::InvalidRangeEndpoint(a, b)) => {
            assert_eq!(a, String::from("ab"));
            assert_eq!(b, String::from("c"));
        },
        other => panic!("expected an endpoint error, got {:?}", other),
    }
}

#[test]
fn multibyte_single_char_endpoints_are_accepted() {
    let result = desugar(&lex(&tokenize(&String::from("{\u{E9}-\u{E9}}"))).unwrap());
    let expected = vec![group_of(vec![option_of(vec![text("\u{E9}")])])];
    assert_eq!(result.unwrap(), expected);
}

#[test]
fn malformed_range_node_fails_desugar() {
    let tree = vec![LexNode { of_type: LexItem::Range, content: Some(vec![text("a")]) }];
    let result = desugar(&tree);
    assert!(matches!(result, Err(SyntaxError::MalformedRange)));
}

#[test]
fn childless_range_leaf_survives_desugar() {
    let tree = vec![LexNode { of_type: LexItem::Range, content: None }];
    let result = desugar(&tree).unwrap();
    assert_eq!(result, vec![LexNode { of_type: LexItem::Range, content: None }]);
}

#[test]
fn reversed_range_desugars_to_empty_group() {
    let result = desugar(&lex(&tokenize(&String::from("{b-a}"))).unwrap());
    assert_eq!(result.unwrap(), vec![group_of(vec![])]);
}

#[test]
fn range_skips_surrogate_codes() {
    // The codes between the endpoints that are no Unicode scalar
    // values contribute no alternative.
    let result = desugar(&lex(&tokenize(&String::from("{\u{D7FF}-\u{E000}}"))).unwrap());
    let expected = vec![group_of(vec![
        option_of(vec![text("\u{D7FF}")]),
        option_of(vec![text("\u{E000}")]),
    ])];
    assert_eq!(result.unwrap(), expected);
}

#[test]
fn split_keeps_nested_separators() {
    let tokens = tokenize(&String::from("a + {b+c}"));
    let split = split_till_plus(&tokens);
    let expected = vec![
        vec![Token::Text(String::from("a"))],
        vec![
            Token::OptionStart,
            Token::Text(String::from("b")),
            Token::Plus,
            Token::Text(String::from("c")),
            Token::OptionEnd,
        ],
    ];
    assert_eq!(split, expected);
}

#[test]
fn split_without_separator_is_one_segment() {
    let tokens = tokenize(&String::from("a b"));
    let split = split_till_plus(&tokens);
    let expected = vec![vec![
        Token::Text(String::from("a")),
        Token::Text(String::from("b")),
    ]];
    assert_eq!(split, expected);
}

#[test]
fn backslash_is_ordinary_text() {
    let tokens = tokenize(&String::from("a\\b \\"));
    assert_eq!(
        tokens,
        vec![Token::Text(String::from("a\\b")), Token::Text(String::from("\\"))]
    );
    let nodes = lex(&tokens).unwrap();
    assert_eq!(nodes, vec![text_then("a\\b", text("\\"))]);
}

#[test]
fn complex_input_desugars_fully() {
    let input = String::from("a + {{0-9}, x + y + {k, l, m + 4}, 4} + XF86{Play,Pause}");
    let result = desugar(&lex(&tokenize(&input)).unwrap()).unwrap();

    let mut digit_options: Vec<LexNode> = Vec::new();
    for d in '0'..='9' {
        digit_options.push(option_of(vec![text(&d.to_string())]));
    }

    let expected = vec![
        text("a"),
        group_of(vec![
            option_of(vec![group_of(digit_options)]),
            option_of(vec![
                text("x"),
                text("y"),
                group_of(vec![
                    option_of(vec![text("k")]),
                    option_of(vec![text("l")]),
                    option_of(vec![text("m"), text("4")]),
                ]),
            ]),
            option_of(vec![text("4")]),
        ]),
        text_then("XF86", group_of(vec![
            option_of(vec![text("Play")]),
            option_of(vec![text("Pause")]),
        ])),
    ];

    assert_eq!(result, expected);
}

#[test]
fn desugar_is_idempotent_on_built_trees() {
    let input = String::from("a + {{0-9}, x + y + {k, l, m + 4}, 4} + XF86{Play,Pause}");
    let once = desugar(&lex(&tokenize(&input)).unwrap()).unwrap();
    let twice = desugar(&once).unwrap();
    assert_eq!(twice, once);
}

#[test]
fn token_surfaces_restore_input_without_spaces() {
    let input = String::from("a\\b + {{0-9}, x - y} \\");
    let tokens = tokenize(&input);
    let mut rebuilt = String::new();
    for t in &tokens {
        match t {
            Token::OptionStart => rebuilt.push('{'),
            Token::OptionEnd => rebuilt.push('}'),
            Token::Plus => rebuilt.push('+'),
            Token::Comma => rebuilt.push(','),
            Token::RangeSeparator => rebuilt.push('-'),
            Token::Text(v) => rebuilt.push_str(v),
        }
    }
    let expected: String = input.chars().filter(|c| *c != ' ').collect();
    assert_eq!(rebuilt, expected);
}
