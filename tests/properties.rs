use annotation_collector::text::{has_newline, names};
use annotation_collector::token::same_token_type;
use annotation_collector::{Collector, PartBehavior, PartParser, Sink, Token, TokenBlock};
use garnish_lang_compiler::lex::{lex, TokenType};

fn tok(text: &str, token_type: TokenType, line: usize, column: usize) -> Token {
    Token::new(text.to_string(), token_type, line, column)
}

fn lexed(input: &str) -> Vec<Token> {
    lex(input)
        .unwrap()
        .iter()
        .map(|t| Token::new(t.get_text().clone(), t.get_token_type(), t.get_line(), t.get_column()))
        .collect()
}

fn all_tokens(blocks: &Vec<TokenBlock>, out: &mut Vec<Token>) {
    for b in blocks {
        out.extend(b.tokens.iter().cloned());
        for p in &b.parts {
            out.extend(p.iter().cloned());
        }
        all_tokens(&b.nested, out);
    }
}

#[test]
fn tokens_conserved_with_children() {
    let input = "@Test 5+5\n@Case 10+10\n@Case 20+20\n@End";
    let collector = Collector::new(vec![
        Sink::new("@Test").part(PartParser::new(PartBehavior::UntilAnnotation("End".to_string()))),
        Sink::new("@Case").part(PartParser::new(PartBehavior::UntilNewline)),
    ]);
    let tokens = lexed(input);
    let blocks = collector.collect_tokens(&tokens).unwrap();
    let mut found = vec![];
    all_tokens(&blocks, &mut found);
    let expected: Vec<Token> = tokens
        .iter()
        .filter(|t| t.text != "@Test" && t.text != "@Case")
        .cloned()
        .collect();
    assert_eq!(found.len(), expected.len());
    for t in &expected {
        assert_eq!(found.iter().filter(|f| *f == t).count(), 1);
    }
}

#[test]
fn recollecting_parts_gives_one_anonymous_block() {
    let input = "@Test { 5 + 5 } 5";
    let collector = Collector::new(vec![Sink::new("@Test")
        .part(PartParser::new(PartBehavior::UntilToken(TokenType::EndExpression)))]);
    let blocks = collector.collect_tokens_from_input(input).unwrap();
    let span: Vec<Token> = blocks[0].parts.iter().flatten().cloned().collect();
    assert_eq!(span.len(), 10);
    let again = Collector::new(vec![]).collect_tokens(&span).unwrap();
    assert_eq!(again, vec![TokenBlock::with_tokens(span.clone())]);
}

#[test]
fn block_open_at_end_of_input_is_closed() {
    let input = "@Test { 5 + 5 }";
    let collector = Collector::new(vec![Sink::new("@Test")
        .part(PartParser::new(PartBehavior::UntilToken(TokenType::EndGroup)))]);
    let blocks = collector.collect_tokens_from_input(input).unwrap();
    let after: Vec<Token> = lexed(input)[1..].to_vec();
    assert_eq!(
        blocks,
        vec![TokenBlock::new_with_parts("@Test".to_string(), vec![], vec![after])]
    );
}

#[test]
fn unregistered_annotation_is_content_at_root() {
    let input = "@Other 5";
    let collector = Collector::new(vec![Sink::new("@Test")
        .part(PartParser::new(PartBehavior::UntilNewline))]);
    let blocks = collector.collect_tokens_from_input(input).unwrap();
    assert_eq!(
        blocks,
        vec![TokenBlock::with_tokens(vec![
            tok("@Other", TokenType::Annotation, 0, 0),
            tok(" ", TokenType::Whitespace, 0, 6),
            tok("5", TokenType::Number, 0, 7),
        ])]
    );
}

#[test]
fn unregistered_annotation_is_content_in_a_block() {
    let tokens = vec![
        tok("@Test", TokenType::Annotation, 0, 0),
        tok("@Other", TokenType::Annotation, 0, 5),
        tok("5", TokenType::Number, 0, 11),
        tok("\n", TokenType::Whitespace, 0, 12),
    ];
    let collector = Collector::new(vec![Sink::new("@Test")
        .part(PartParser::new(PartBehavior::UntilNewline))]);
    let blocks = collector.collect_tokens(&tokens).unwrap();
    assert_eq!(
        blocks,
        vec![TokenBlock::new_with_parts("@Test".to_string(), vec![], vec![tokens[1..].to_vec()])]
    );
}

#[test]
fn lone_annotation_inside_a_block_is_a_child() {
    let tokens = vec![
        tok("@Test", TokenType::Annotation, 0, 0),
        tok("5", TokenType::Number, 0, 5),
        tok("@Lone", TokenType::Annotation, 0, 6),
        tok("6", TokenType::Number, 0, 11),
        tok("\n", TokenType::Whitespace, 0, 12),
    ];
    let collector = Collector::new(vec![
        Sink::new("@Test").part(PartParser::new(PartBehavior::UntilNewline)),
        Sink::new("@Lone"),
    ]);
    let blocks = collector.collect_tokens(&tokens).unwrap();
    assert_eq!(
        blocks,
        vec![TokenBlock::new_with_parts(
            "@Test".to_string(),
            vec![],
            vec![vec![tokens[1].clone(), tokens[3].clone(), tokens[4].clone()]]
        )
        .and_children(vec![TokenBlock::with_annotation("@Lone".to_string())])]
    );
}

#[test]
fn ending_annotation_with_a_sink_stays_in_the_part() {
    let tokens = vec![
        tok("@Test", TokenType::Annotation, 0, 0),
        tok("5", TokenType::Number, 0, 5),
        tok("@@End", TokenType::Annotation, 0, 6),
        tok("6", TokenType::Number, 0, 11),
    ];
    let collector = Collector::new(vec![
        Sink::new("@Test").part(PartParser::new(PartBehavior::UntilAnnotation("End".to_string()))),
        Sink::new("@@End").part(PartParser::new(PartBehavior::UntilNewline)),
    ]);
    let blocks = collector.collect_tokens(&tokens).unwrap();
    assert_eq!(
        blocks,
        vec![
            TokenBlock::new_with_parts("@Test".to_string(), vec![], vec![tokens[1..3].to_vec()]),
            TokenBlock::with_tokens(vec![tokens[3].clone()]),
        ]
    );
}

#[test]
fn first_registered_sink_wins() {
    let tokens = vec![
        tok("@Test", TokenType::Annotation, 0, 0),
        tok("5", TokenType::Number, 0, 5),
        tok("6", TokenType::Number, 0, 6),
    ];
    let collector = Collector::new(vec![
        Sink::new("@Test").part(PartParser::new(PartBehavior::TokenCount(1))),
        Sink::new("@Test"),
    ]);
    let blocks = collector.collect_tokens(&tokens).unwrap();
    assert_eq!(
        blocks,
        vec![
            TokenBlock::new_with_parts("@Test".to_string(), vec![], vec![vec![tokens[1].clone()]]),
            TokenBlock::with_tokens(vec![tokens[2].clone()]),
        ]
    );
}

#[test]
fn count_with_no_exclusions_counts_whitespace() {
    let input = "@Test 5 + 5";
    let collector = Collector::new(vec![Sink::new("@Test")
        .part(PartParser::with_excluded(PartBehavior::TokenCount(2), vec![]))]);
    let blocks = collector.collect_tokens_from_input(input).unwrap();
    assert_eq!(
        blocks,
        vec![
            TokenBlock::new_with_parts(
                "@Test".to_string(),
                vec![],
                vec![vec![tok(" ", TokenType::Whitespace, 0, 5), tok("5", TokenType::Number, 0, 6)]]
            ),
            TokenBlock::with_tokens(vec![
                tok(" ", TokenType::Whitespace, 0, 7),
                tok("+", TokenType::PlusSign, 0, 8),
                tok(" ", TokenType::Whitespace, 0, 9),
                tok("5", TokenType::Number, 0, 10),
            ]),
        ]
    );
}

#[test]
fn empty_input_gives_no_blocks() {
    let collector = Collector::new(vec![Sink::new("@Test")]);
    assert_eq!(collector.collect_tokens(&vec![]).unwrap(), vec![]);
    assert_eq!(collector.collect_tokens_from_input("").unwrap(), vec![]);
}

#[test]
fn annotation_alone_yields_one_empty_part() {
    let collector = Collector::new(vec![Sink::new("@Test")
        .part(PartParser::new(PartBehavior::UntilNewline))
        .part(PartParser::new(PartBehavior::UntilNewline))]);
    let blocks = collector.collect_tokens_from_input("@Test").unwrap();
    assert_eq!(
        blocks,
        vec![TokenBlock::new_with_parts("@Test".to_string(), vec![], vec![vec![]])]
    );
}

#[test]
fn lexer_error_comes_back_unchanged() {
    let collector = Collector::new(vec![Sink::new("@Test")]);
    let expected: String = String::from(lex("?").unwrap_err());
    assert!(!expected.is_empty());
    assert_eq!(collector.collect_tokens_from_input("?"), Err(expected));
}

#[test]
fn text_checks() {
    assert!(has_newline("  \n "));
    assert!(!has_newline("   "));
    assert!(names("@End", "End"));
    assert!(names("@@End", "End"));
    assert!(names("End", "End"));
    assert!(!names("@Ending", "End"));
    assert!(!names("@End", "@End"));
    assert!(same_token_type(TokenType::Comma, TokenType::Comma));
    assert!(!same_token_type(TokenType::Comma, TokenType::Period));
}

#[test]
fn block_builders_and_getters() {
    let child = TokenBlock::with_annotation("@Case".to_string());
    let t = tok("5", TokenType::Number, 0, 0);
    let b = TokenBlock::with_annotation("@Test".to_string())
        .and_children(vec![child])
        .and_tokens(vec![t.clone()]);
    assert_eq!(b.annotation_text(), "@Test");
    assert_eq!(b.blocks().len(), 1);
    assert_eq!(b.blocks()[0].annotation_text(), "@Case");
    assert_eq!(b.tokens(), &vec![t.clone()]);
    assert_eq!(b.tokens_owned(), vec![t]);
    let n = TokenBlock::new("".to_string(), vec![]);
    assert_eq!(n, TokenBlock::with_tokens(vec![]));
}

#[test]
fn clones_are_equal() {
    let input = "@Test { 5+5\n@Case { 10+10 }\n }";
    let collector = Collector::new(vec![
        Sink::new("@Test").part(PartParser::new(PartBehavior::UntilToken(TokenType::EndExpression))),
        Sink::new("@Case").part(PartParser::new(PartBehavior::UntilToken(TokenType::EndExpression))),
    ]);
    let copy = collector.clone();
    assert_eq!(copy, collector);
    let blocks = copy.collect_tokens_from_input(input).unwrap();
    assert_eq!(blocks[0].blocks().len(), 1);
    let cloned: Vec<TokenBlock> = blocks.iter().map(|b| b.clone()).collect();
    assert_eq!(cloned, blocks);
    assert_eq!(blocks[0].clone_block(), blocks[0]);
}

#[test]
fn tokens_in_order_without_children() {
    let input = "1 @Test 5 + 5 @End 6 @Lone 7";
    let collector = Collector::new(vec![
        Sink::new("@Test").part(PartParser::new(PartBehavior::UntilAnnotation("End".to_string()))),
        Sink::new("@Lone"),
    ]);
    let tokens = lexed(input);
    let blocks = collector.collect_tokens(&tokens).unwrap();
    assert!(blocks.iter().all(|b| b.nested.is_empty()));
    let mut found = vec![];
    all_tokens(&blocks, &mut found);
    let expected: Vec<Token> = tokens
        .iter()
        .filter(|t| t.text != "@Test" && t.text != "@Lone")
        .cloned()
        .collect();
    assert_eq!(found, expected);
    assert_eq!(blocks.len(), 5);
}
