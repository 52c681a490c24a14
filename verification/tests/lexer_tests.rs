use combo_shorthand::lexer::lex;
use combo_shorthand::lexer::LexItem;
use combo_shorthand::lexer::LexNode;
use combo_shorthand::tokenizer::tokenize;

#[test]
fn test_text_single() {
    let nodes = lex(&tokenize(&String::from("x")));

    let expected = [LexNode { of_type: LexItem::Text(String::from("x")), content: None }];

    assert!(nodes.is_err() == false);

    let unwrapped = nodes.unwrap();
    assert_eq!(unwrapped, expected);
}

#[test]
fn test_text_multiple() {
    let nodes = lex(&tokenize(&String::from("x y")));

    let expected = [LexNode {
        of_type: LexItem::Text(String::from("x")),
        content: Some(vec![LexNode {
            of_type: LexItem::Text(String::from("y")),
            content: None,
        }]),
    }];

    assert!(nodes.is_err() == false);

    let unwrapped = nodes.unwrap();
    assert_eq!(unwrapped, expected);
}

#[test]
fn test_text_addition() {
    let nodes = lex(&tokenize(&String::from("x + y")));

    let expected = [
        LexNode { of_type: LexItem::Text(String::from("x")), content: None },
        LexNode { of_type: LexItem::Text(String::from("y")), content: None },
    ];

    assert!(nodes.is_err() == false);

    let unwrapped = nodes.unwrap();
    assert_eq!(unwrapped, expected);
}

#[test]
fn test_text_with_option_concatenation() {
    let nodes = lex(&tokenize(&String::from("a{b,c}")));

    let expected = [LexNode {
        of_type: LexItem::Text(String::from("a")),
        content: Some(vec![LexNode {
            of_type: LexItem::OptionGroup,
            content: Some(vec![
                LexNode {
                    of_type: LexItem::Option,
                    content: Some(vec![LexNode {
                        of_type: LexItem::Text(String::from("b")),
                        content: None,
                    }]),
                },
                LexNode {
                    of_type: LexItem::Option,
                    content: Some(vec![LexNode {
                        of_type: LexItem::Text(String::from("c")),
                        content: None,
                    }]),
                },
            ]),
        }]),
    }];

    assert!(nodes.is_err() == false);

    let unwrapped = nodes.unwrap();
    assert_eq!(unwrapped, expected);
}

#[test]
fn test_option_simple() {
    let nodes = lex(&tokenize(&String::from("{a,b,c}")));

    let expected = [LexNode {
        of_type: LexItem::OptionGroup,
        content: Some(vec![
            LexNode {
                of_type: LexItem::Option,
                content: Some(vec![LexNode {
                    of_type: LexItem::Text(String::from("a")),
                    content: None,
                }]),
            },
            LexNode {
                of_type: LexItem::Option,
                content: Some(vec![LexNode {
                    of_type: LexItem::Text(String::from("b")),
                    content: None,
                }]),
            },
            LexNode {
                of_type: LexItem::Option,
                content: Some(vec![LexNode {
                    of_type: LexItem::Text(String::from("c")),
                    content: None,
                }]),
            },
        ]),
    }];

    assert!(nodes.is_err() == false);

    let unwrapped = nodes.unwrap();
    assert_eq!(unwrapped, expected);
}

#[test]
fn test_option_complex() {
    let nodes = lex(&tokenize(&String::from("{a+x,b+y+z,c}")));

    let expected = [LexNode {
        of_type: LexItem::OptionGroup,
        content: Some(vec![
            LexNode {
                of_type: LexItem::Option,
                content: Some(vec![
                    LexNode { of_type: LexItem::Text(String::from("a")), content: None },
                    LexNode { of_type: LexItem::Text(String::from("x")), content: None },
                ]),
            },
            LexNode {
                of_type: LexItem::Option,
                content: Some(vec![
                    LexNode { of_type: LexItem::Text(String::from("b")), content: None },
                    LexNode { of_type: LexItem::Text(String::from("y")), content: None },
                    LexNode { of_type: LexItem::Text(String::from("z")), content: None },
                ]),
            },
            LexNode {
                of_type: LexItem::Option,
                content: Some(vec![LexNode {
                    of_type: LexItem::Text(String::from("c")),
                    content: None,
                }]),
            },
        ]),
    }];

    assert!(nodes.is_err() == false);

    let unwrapped = nodes.unwrap();
    assert_eq!(unwrapped, expected);
}

#[test]
fn lexer_test_range() {
    let nodes = lex(&tokenize(&String::from("{a-z}")));

    let expected = [LexNode {
        of_type: LexItem::Range,
        content: Some(vec![
            LexNode { of_type: LexItem::Text(String::from("a")), content: None },
            LexNode { of_type: LexItem::Text(String::from("z")), content: None },
        ]),
    }];

    assert!(nodes.is_err() == false);

    let unwrapped = nodes.unwrap();
    assert_eq!(unwrapped, expected);
}

#[test]
fn test_complex_1() {
    let nodes = lex(&tokenize(&String::from(
        "a + {{0-9}, x + y + {k, l, m + 4}, 4} + XF86{Play,Pause}",
    )));

    let expected = [
        LexNode { of_type: LexItem::Text(String::from("a")), content: None },
        LexNode {
            of_type: LexItem::OptionGroup,
            content: Some(vec![
                LexNode {
                    of_type: LexItem::Option,
                    content: Some(vec![LexNode {
                        of_type: LexItem::Range,
                        content: Some(vec![
                            LexNode {
                                of_type: LexItem::Text(String::from("0")),
                                content: None,
                            },
                            LexNode {
                                of_type: LexItem::Text(String::from("9")),
                                content: None,
                            },
                        ]),
                    }]),
                },
                LexNode {
                    of_type: LexItem::Option,
                    content: Some(vec![
                        LexNode { of_type: LexItem::Text(String::from("x")), content: None },
                        LexNode { of_type: LexItem::Text(String::from("y")), content: None },
                        LexNode {
                            of_type: LexItem::OptionGroup,
                            content: Some(vec![
                                LexNode {
                                    of_type: LexItem::Option,
                                    content: Some(vec![LexNode {
                                        of_type: LexItem::Text(String::from("k")),
                                        content: None,
                                    }]),
                                },
                                LexNode {
                                    of_type: LexItem::Option,
                                    content: Some(vec![LexNode {
                                        of_type: LexItem::Text(String::from("l")),
                                        content: None,
                                    }]),
                                },
                                LexNode {
                                    of_type: LexItem::Option,
                                    content: Some(vec![
                                        LexNode {
                                            of_type: LexItem::Text(String::from("m")),
                                            content: None,
                                        },
                                        LexNode {
                                            of_type: LexItem::Text(String::from("4")),
                                            content: None,
                                        },
                                    ]),
                                },
                            ]),
                        },
                    ]),
                },
                LexNode {
                    of_type: LexItem::Option,
                    content: Some(vec![LexNode {
                        of_type: LexItem::Text(String::from("4")),
                        content: None,
                    }]),
                },
            ]),
        },
        LexNode {
            of_type: LexItem::Text(String::from("XF86")),
            content: Some(vec![LexNode {
                of_type: LexItem::OptionGroup,
                content: Some(vec![
                    LexNode {
                        of_type: LexItem::Option,
                        content: Some(vec![LexNode {
                            of_type: LexItem::Text(String::from("Play")),
                            content: None,
                        }]),
                    },
                    LexNode {
                        of_type: LexItem::Option,
                        content: Some(vec![LexNode {
                            of_type: LexItem::Text(String::from("Pause")),
                            content: None,
                        }]),
                    },
                ]),
            }]),
        },
    ];

    assert!(nodes.is_err() == false, "{:?}", nodes.unwrap());

    let unwrapped = nodes.unwrap();
    assert_eq!(unwrapped, expected);
}
