use annotation_collector::{Collector, PartBehavior, PartParser, Sink, Token, TokenBlock};
use garnish_lang_compiler::lex::TokenType;

#[test]
fn single_annotation() {
    let input = "@Test 5";
    let collector = Collector::new(vec![Sink::new("@Test")]);

    let blocks = collector.collect_tokens_from_input(input).unwrap();

    assert_eq!(
        blocks,
        vec![
            TokenBlock::with_annotation("@Test".to_string()),
            TokenBlock::with_tokens(vec![
                Token::new(" ".to_string(), TokenType::Whitespace, 0, 5),
                Token::new("5".to_string(), TokenType::Number, 0, 6),
            ])
        ]
    );
}

#[test]
fn two_parts() {
    let input = "@Test name 5";
    let collector = Collector::new(vec![Sink::new("@Test")
        .part(PartParser::new(PartBehavior::TokenCount(1)))
        .part(PartParser::new(PartBehavior::UntilNewline))]);

    let blocks = collector.collect_tokens_from_input(input).unwrap();

    assert_eq!(
        blocks,
        vec![TokenBlock::new_with_parts(
            "@Test".to_string(),
            vec![],
            vec![
                vec![
                    Token::new(" ".to_string(), TokenType::Whitespace, 0, 5),
                    Token::new("name".to_string(), TokenType::Identifier, 0, 6),
                ],
                vec![
                    Token::new(" ".to_string(), TokenType::Whitespace, 0, 10),
                    Token::new("5".to_string(), TokenType::Number, 0, 11),
                ]
            ]
        ),]
    );
}

#[test]
fn newline() {
    let input = "@Test 5 + 5   \n   5 + 5";
    let collector = Collector::new(vec![
        Sink::new("@Test").part(PartParser::new(PartBehavior::UntilNewline))
    ]);

    let blocks = collector.collect_tokens_from_input(input).unwrap();

    assert_eq!(
        blocks,
        vec![
            TokenBlock::new_with_parts(
                "@Test".to_string(),
                vec![],
                vec![vec![
                    Token::new(" ".to_string(), TokenType::Whitespace, 0, 5),
                    Token::new("5".to_string(), TokenType::Number, 0, 6),
                    Token::new(" ".to_string(), TokenType::Whitespace, 0, 7),
                    Token::new("+".to_string(), TokenType::PlusSign, 0, 8),
                    Token::new(" ".to_string(), TokenType::Whitespace, 0, 9),
                    Token::new("5".to_string(), TokenType::Number, 0, 10),
                    Token::new("   \n   ".to_string(), TokenType::Whitespace, 0, 11),
                ]]
            ),
            TokenBlock::new_with_parts(
                "".to_string(),
                vec![
                    Token::new("5".to_string(), TokenType::Number, 1, 3),
                    Token::new(" ".to_string(), TokenType::Whitespace, 1, 4),
                    Token::new("+".to_string(), TokenType::PlusSign, 1, 5),
                    Token::new(" ".to_string(), TokenType::Whitespace, 1, 6),
                    Token::new("5".to_string(), TokenType::Number, 1, 7),
                ],
                vec![]
            )
        ]
    );
}

#[test]
fn with_5_tokens_ignoring_white_space() {
    let input = "@Test 5 + 5 + 5 + 5 + 5";
    let collector = Collector::new(vec![
        Sink::new("@Test").part(PartParser::new(PartBehavior::TokenCount(5)))
    ]);

    let blocks = collector.collect_tokens_from_input(input).unwrap();

    assert_eq!(
        blocks,
        vec![
            TokenBlock::new_with_parts(
                "@Test".to_string(),
                vec![],
                vec![vec![
                    Token::new(" ".to_string(), TokenType::Whitespace, 0, 5),
                    Token::new("5".to_string(), TokenType::Number, 0, 6),
                    Token::new(" ".to_string(), TokenType::Whitespace, 0, 7),
                    Token::new("+".to_string(), TokenType::PlusSign, 0, 8),
                    Token::new(" ".to_string(), TokenType::Whitespace, 0, 9),
                    Token::new("5".to_string(), TokenType::Number, 0, 10),
                    Token::new(" ".to_string(), TokenType::Whitespace, 0, 11),
                    Token::new("+".to_string(), TokenType::PlusSign, 0, 12),
                    Token::new(" ".to_string(), TokenType::Whitespace, 0, 13),
                    Token::new("5".to_string(), TokenType::Number, 0, 14),
                ]]
            ),
            TokenBlock::new(
                "".to_string(),
                vec![
                    Token::new(" ".to_string(), TokenType::Whitespace, 0, 15),
                    Token::new("+".to_string(), TokenType::PlusSign, 0, 16),
                    Token::new(" ".to_string(), TokenType::Whitespace, 0, 17),
                    Token::new("5".to_string(), TokenType::Number, 0, 18),
                    Token::new(" ".to_string(), TokenType::Whitespace, 0, 19),
                    Token::new("+".to_string(), TokenType::PlusSign, 0, 20),
                    Token::new(" ".to_string(), TokenType::Whitespace, 0, 21),
                    Token::new("5".to_string(), TokenType::Number, 0, 22),
                ]
            )
        ]
    );
}

#[test]
fn until_token() {
    let input = "@Test { 5 + 5 } 5 + 5";
    let collector = Collector::new(vec![Sink::new("@Test").part(PartParser::new(
        PartBehavior::UntilToken(TokenType::EndExpression),
    ))]);

    let blocks = collector.collect_tokens_from_input(input).unwrap();

    assert_eq!(
        blocks,
        vec![
            TokenBlock::new_with_parts(
                "@Test".to_string(),
                vec![],
                vec![vec![
                    Token::new(" ".to_string(), TokenType::Whitespace, 0, 5),
                    Token::new("{".to_string(), TokenType::StartExpression, 0, 6),
                    Token::new(" ".to_string(), TokenType::Whitespace, 0, 7),
                    Token::new("5".to_string(), TokenType::Number, 0, 8),
                    Token::new(" ".to_string(), TokenType::Whitespace, 0, 9),
                    Token::new("+".to_string(), TokenType::PlusSign, 0, 10),
                    Token::new(" ".to_string(), TokenType::Whitespace, 0, 11),
                    Token::new("5".to_string(), TokenType::Number, 0, 12),
                    Token::new(" ".to_string(), TokenType::Whitespace, 0, 13),
                    Token::new("}".to_string(), TokenType::EndExpression, 0, 14),
                ]]
            ),
            TokenBlock::new(
                "".to_string(),
                vec![
                    Token::new(" ".to_string(), TokenType::Whitespace, 0, 15),
                    Token::new("5".to_string(), TokenType::Number, 0, 16),
                    Token::new(" ".to_string(), TokenType::Whitespace, 0, 17),
                    Token::new("+".to_string(), TokenType::PlusSign, 0, 18),
                    Token::new(" ".to_string(), TokenType::Whitespace, 0, 19),
                    Token::new("5".to_string(), TokenType::Number, 0, 20),
                ]
            )
        ]
    );
}

#[test]
fn unfinished_block_ended_with_end_of_input() {
    let input = "@Test { 5 + 5 }";
    let collector = Collector::new(vec![Sink::new("@Test").part(PartParser::new(
        PartBehavior::UntilToken(TokenType::EndExpression),
    ))]);

    let blocks = collector.collect_tokens_from_input(input).unwrap();

    assert_eq!(
        blocks,
        vec![TokenBlock::new_with_parts(
            "@Test".to_string(),
            vec![],
            vec![vec![
                Token::new(" ".to_string(), TokenType::Whitespace, 0, 5),
                Token::new("{".to_string(), TokenType::StartExpression, 0, 6),
                Token::new(" ".to_string(), TokenType::Whitespace, 0, 7),
                Token::new("5".to_string(), TokenType::Number, 0, 8),
                Token::new(" ".to_string(), TokenType::Whitespace, 0, 9),
                Token::new("+".to_string(), TokenType::PlusSign, 0, 10),
                Token::new(" ".to_string(), TokenType::Whitespace, 0, 11),
                Token::new("5".to_string(), TokenType::Number, 0, 12),
                Token::new(" ".to_string(), TokenType::Whitespace, 0, 13),
                Token::new("}".to_string(), TokenType::EndExpression, 0, 14),
            ]]
        )]
    );
}

#[test]
fn until_token_ignores_nested_matching_tokens() {
    let input = "@Test {5,{5+5},5}";
    let collector = Collector::new(vec![Sink::new("@Test").part(PartParser::new(
        PartBehavior::UntilToken(TokenType::EndExpression),
    ))]);

    let blocks = collector.collect_tokens_from_input(input).unwrap();

    assert_eq!(
        blocks,
        vec![TokenBlock::new_with_parts(
            "@Test".to_string(),
            vec![],
            vec![vec![
                Token::new(" ".to_string(), TokenType::Whitespace, 0, 5),
                Token::new("{".to_string(), TokenType::StartExpression, 0, 6),
                Token::new("5".to_string(), TokenType::Number, 0, 7),
                Token::new(",".to_string(), TokenType::Comma, 0, 8),
                Token::new("{".to_string(), TokenType::StartExpression, 0, 9),
                Token::new("5".to_string(), TokenType::Number, 0, 10),
                Token::new("+".to_string(), TokenType::PlusSign, 0, 11),
                Token::new("5".to_string(), TokenType::Number, 0, 12),
                Token::new("}".to_string(), TokenType::EndExpression, 0, 13),
                Token::new(",".to_string(), TokenType::Comma, 0, 14),
                Token::new("5".to_string(), TokenType::Number, 0, 15),
                Token::new("}".to_string(), TokenType::EndExpression, 0, 16),
            ]]
        )]
    );
}

#[test]
fn until_annotation() {
    let input = "@Test 5 + 5 @End 5 + 5";
    let collector = Collector::new(vec![Sink::new("@Test").part(PartParser::new(
        PartBehavior::UntilAnnotation("End".to_string()),
    ))]);

    let blocks = collector.collect_tokens_from_input(input).unwrap();

    assert_eq!(
        blocks,
        vec![
            TokenBlock::new_with_parts(
                "@Test".to_string(),
                vec![],
                vec![vec![
                    Token::new(" ".to_string(), TokenType::Whitespace, 0, 5),
                    Token::new("5".to_string(), TokenType::Number, 0, 6),
                    Token::new(" ".to_string(), TokenType::Whitespace, 0, 7),
                    Token::new("+".to_string(), TokenType::PlusSign, 0, 8),
                    Token::new(" ".to_string(), TokenType::Whitespace, 0, 9),
                    Token::new("5".to_string(), TokenType::Number, 0, 10),
                    Token::new(" ".to_string(), TokenType::Whitespace, 0, 11),
                    Token::new("@End".to_string(), TokenType::Annotation, 0, 12),
                ]]
            ),
            TokenBlock::new(
                "".to_string(),
                vec![
                    Token::new(" ".to_string(), TokenType::Whitespace, 0, 16),
                    Token::new("5".to_string(), TokenType::Number, 0, 17),
                    Token::new(" ".to_string(), TokenType::Whitespace, 0, 18),
                    Token::new("+".to_string(), TokenType::PlusSign, 0, 19),
                    Token::new(" ".to_string(), TokenType::Whitespace, 0, 20),
                    Token::new("5".to_string(), TokenType::Number, 0, 21),
                ]
            )
        ]
    );
}

#[test]
fn with_children() {
    let input = "@Test 5+5\n@Case 10+10\n@Case 20+20\n@End";
    let collector = Collector::new(vec![
        Sink::new("@Test").part(PartParser::new(PartBehavior::UntilAnnotation(
            "End".to_string(),
        ))),
        Sink::new("@Case").part(PartParser::new(PartBehavior::UntilNewline)),
    ]);

    let blocks = collector.collect_tokens_from_input(input).unwrap();

    assert_eq!(
        blocks,
        vec![TokenBlock::new_with_parts(
            "@Test".to_string(),
            vec![],
            vec![vec![
                Token::new(" ".to_string(), TokenType::Whitespace, 0, 5),
                Token::new("5".to_string(), TokenType::Number, 0, 6),
                Token::new("+".to_string(), TokenType::PlusSign, 0, 7),
                Token::new("5".to_string(), TokenType::Number, 0, 8),
                Token::new("\n".to_string(), TokenType::Whitespace, 0, 9),
                Token::new("@End".to_string(), TokenType::Annotation, 3, 0),
            ]]
        )
        .and_children(vec![
            TokenBlock::new_with_parts(
                "@Case".to_string(),
                vec![],
                vec![vec![
                    Token::new(" ".to_string(), TokenType::Whitespace, 1, 5),
                    Token::new("10".to_string(), TokenType::Number, 1, 6),
                    Token::new("+".to_string(), TokenType::PlusSign, 1, 8),
                    Token::new("10".to_string(), TokenType::Number, 1, 9),
                    Token::new("\n".to_string(), TokenType::Whitespace, 1, 11),
                ]]
            ),
            TokenBlock::new_with_parts(
                "@Case".to_string(),
                vec![],
                vec![vec![
                    Token::new(" ".to_string(), TokenType::Whitespace, 2, 5),
                    Token::new("20".to_string(), TokenType::Number, 2, 6),
                    Token::new("+".to_string(), TokenType::PlusSign, 2, 8),
                    Token::new("20".to_string(), TokenType::Number, 2, 9),
                    Token::new("\n".to_string(), TokenType::Whitespace, 2, 11),
                ]]
            )
        ]),]
    );
}

#[test]
fn nested_annotations_with_nested_groupings() {
    let input = "@Test { 5+5\n@Case { 10+10 }\n }";
    let collector = Collector::new(vec![
        Sink::new("@Test").part(PartParser::new(PartBehavior::UntilToken(
            TokenType::EndExpression,
        ))),
        Sink::new("@Case").part(PartParser::new(PartBehavior::UntilToken(
            TokenType::EndExpression,
        ))),
    ]);

    let blocks = collector.collect_tokens_from_input(input).unwrap();

    let nested = blocks.get(0).unwrap().blocks();

    assert_eq!(
        blocks,
        vec![TokenBlock::new_with_parts(
            "@Test".to_string(),
            vec![],
            vec![vec![
                Token::new(" ".to_string(), TokenType::Whitespace, 0, 5),
                Token::new("{".to_string(), TokenType::StartExpression, 0, 6),
                Token::new(" ".to_string(), TokenType::Whitespace, 0, 7),
                Token::new("5".to_string(), TokenType::Number, 0, 8),
                Token::new("+".to_string(), TokenType::PlusSign, 0, 9),
                Token::new("5".to_string(), TokenType::Number, 0, 10),
                Token::new("\n".to_string(), TokenType::Whitespace, 0, 11),
                Token::new("\n ".to_string(), TokenType::Whitespace, 1, 15),
                Token::new("}".to_string(), TokenType::EndExpression, 2, 1),
            ]]
        )
        .and_children(vec![
            TokenBlock::new_with_parts(
                "@Case".to_string(),
                vec![],
                vec![vec![
                    Token::new(" ".to_string(), TokenType::Whitespace, 1, 5),
                    Token::new("{".to_string(), TokenType::StartExpression, 1, 6),
                    Token::new(" ".to_string(), TokenType::Whitespace, 1, 7),
                    Token::new("10".to_string(), TokenType::Number, 1, 8),
                    Token::new("+".to_string(), TokenType::PlusSign, 1, 10),
                    Token::new("10".to_string(), TokenType::Number, 1, 11),
                    Token::new(" ".to_string(), TokenType::Whitespace, 1, 13),
                    Token::new("}".to_string(), TokenType::EndExpression, 1, 14),
                ]]
            ),
        ]),]
    );
}
