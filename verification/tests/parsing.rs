use tagup::parse;
use tagup::Expression;
use tagup::Fragment;
use tagup::Operator;
use tagup::ParseError;
use tagup::Token;

fn number(n: i32) -> Box<Expression> {
    Box::new(Expression::Number(n))
}

#[test]
fn factor_binds_tighter_than_term() {
    let program = parse("::1 + 2 * 3::").unwrap();
    assert_eq!(
        program.fragments,
        vec![Fragment::Tag(Expression::Binary(
            number(1),
            Operator::Plus,
            Box::new(Expression::Binary(number(2), Operator::Star, number(3))),
        ))]
    );
}

#[test]
fn equality_nests_to_the_right() {
    let program = parse("::1 == 2 == 3::").unwrap();
    assert_eq!(
        program.fragments,
        vec![Fragment::Tag(Expression::Binary(
            number(1),
            Operator::Equal,
            Box::new(Expression::Binary(number(2), Operator::Equal, number(3))),
        ))]
    );
}

#[test]
fn term_nests_to_the_right() {
    let program = parse("::1 - 2 + 3::").unwrap();
    assert_eq!(
        program.fragments,
        vec![Fragment::Tag(Expression::Binary(
            number(1),
            Operator::Minus,
            Box::new(Expression::Binary(number(2), Operator::Plus, number(3))),
        ))]
    );
}

#[test]
fn comparison_of_two_numbers() {
    let program = parse("::1 < 2::").unwrap();
    assert_eq!(
        program.fragments,
        vec![Fragment::Tag(Expression::Binary(
            number(1),
            Operator::Less,
            number(2),
        ))]
    );
}

#[test]
fn text_around_a_tag() {
    let program = parse("Hello, ::name::!").unwrap();
    assert_eq!(
        program.fragments,
        vec![
            Fragment::Text("Hello, ".to_string()),
            Fragment::Tag(Expression::Identifier("name".to_string())),
            Fragment::Text("!".to_string()),
        ]
    );
}

#[test]
fn unrecognized_leaf_token_fails_the_parse() {
    let result = parse("::$::");
    assert!(result.is_err());
    assert_eq!(
        result,
        Err(ParseError::UnexpectedToken(Token::DelimiterRight))
    );
}

#[test]
fn empty_tag_fails_the_parse() {
    // The unterminated-tag text flush puts a `Text` token where the
    // expression grammar expects a literal.
    let result = parse("::");
    assert_eq!(
        result,
        Err(ParseError::UnexpectedToken(Token::Text(":".to_string())))
    );
}

#[test]
fn unary_bang_applies_to_identifier() {
    let program = parse("::!x::").unwrap();
    assert_eq!(
        program.fragments,
        vec![Fragment::Tag(Expression::Unary(
            Operator::Bang,
            Box::new(Expression::Identifier("x".to_string())),
        ))]
    );
}

#[test]
fn unary_plus_applies_to_number() {
    let program = parse("::+1::").unwrap();
    assert_eq!(
        program.fragments,
        vec![Fragment::Tag(Expression::Unary(Operator::Plus, number(1)))]
    );
}

#[test]
fn string_literal_expression() {
    let program = parse("::\"hi\"::").unwrap();
    assert_eq!(
        program.fragments,
        vec![Fragment::Tag(Expression::String("hi".to_string()))]
    );
}

#[test]
fn space_token_expands_to_spaces() {
    let program = parse("a  b").unwrap();
    assert_eq!(
        program.fragments,
        vec![
            Fragment::Text("a".to_string()),
            Fragment::Text("  ".to_string()),
            Fragment::Text("b".to_string()),
        ]
    );
}

#[test]
fn newline_token_expands_to_newline() {
    let program = parse("a\nb").unwrap();
    assert_eq!(
        program.fragments,
        vec![
            Fragment::Text("a".to_string()),
            Fragment::Text("\n".to_string()),
            Fragment::Text("b".to_string()),
        ]
    );
}

#[test]
fn structural_keywords_are_discarded() {
    // Tokens: DelimiterLeft, a, b, ForClose, c, DelimiterRight. The tag
    // takes `a` as its expression and swallows `b` as the assumed closing
    // delimiter; the keyword, the stray identifier and the real closing
    // delimiter are then discarded at the fragment level.
    let program = parse("::a b /for c::").unwrap();
    assert_eq!(
        program.fragments,
        vec![Fragment::Tag(Expression::Identifier("a".to_string()))]
    );
}

#[test]
fn empty_source_parses_to_empty_program() {
    let program = parse("").unwrap();
    assert_eq!(program.fragments, Vec::<Fragment>::new());
}

#[test]
fn delimiter_swallow_is_unchecked() {
    // After the tag's expression, exactly one token is consumed without
    // being examined; here it is the identifier `b`, not a closing
    // delimiter, and the remaining text still parses.
    let program = parse("::a b::c").unwrap();
    assert_eq!(
        program.fragments,
        vec![
            Fragment::Tag(Expression::Identifier("a".to_string())),
            Fragment::Text("c".to_string()),
        ]
    );
}

#[test]
fn expression_at_end_of_stream_is_unexpected_end() {
    let tokens: Vec<Token> = Vec::new();
    let result = tagup::parse_expression(&tokens, 0);
    assert_eq!(result, Err(ParseError::UnexpectedEnd));
}

#[test]
fn open_tag_at_end_of_stream_is_unexpected_end() {
    let tokens = vec![Token::DelimiterLeft];
    let result = tagup::parse_fragments(&tokens, 0);
    assert_eq!(result, Err(ParseError::UnexpectedEnd));
}

#[test]
fn fragments_of_a_plain_token_stream() {
    let tokens = vec![
        Token::Text("a".to_string()),
        Token::Space(3),
        Token::NewLine,
    ];
    let fragments = tagup::parse_fragments(&tokens, 0).unwrap();
    assert_eq!(
        fragments,
        vec![
            Fragment::Text("a".to_string()),
            Fragment::Text("   ".to_string()),
            Fragment::Text("\n".to_string()),
        ]
    );
}
