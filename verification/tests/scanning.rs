use tagup::scanner::scan;
use tagup::Token;

#[test]
fn plain_text_round_trip() {
    let tokens = scan("ab\ncd");
    assert_eq!(
        tokens,
        vec![
            Token::Text("ab".to_string()),
            Token::NewLine,
            Token::Text("cd".to_string()),
        ]
    );
}

#[test]
fn single_inline_space_stays_in_text() {
    let tokens = scan("a b");
    assert_eq!(tokens, vec![Token::Text("a b".to_string())]);
}

#[test]
fn double_space_becomes_space_token() {
    let tokens = scan("a  b");
    assert_eq!(
        tokens,
        vec![
            Token::Text("a".to_string()),
            Token::Space(2),
            Token::Text("b".to_string()),
        ]
    );
}

#[test]
fn leading_single_space_becomes_space_token() {
    let tokens = scan(" a");
    assert_eq!(tokens, vec![Token::Space(1), Token::Text("a".to_string())]);
}

#[test]
fn space_then_tab_counts_as_run_of_two() {
    let tokens = scan("a \tb");
    assert_eq!(
        tokens,
        vec![
            Token::Text("a".to_string()),
            Token::Space(2),
            Token::Text("b".to_string()),
        ]
    );
}

#[test]
fn lone_tab_stays_in_text() {
    let tokens = scan("a\tb");
    assert_eq!(tokens, vec![Token::Text("a\tb".to_string())]);
}

#[test]
fn simple_tag_tokens() {
    let tokens = scan("::1 + 2::");
    assert_eq!(
        tokens,
        vec![
            Token::DelimiterLeft,
            Token::Number(1),
            Token::Plus,
            Token::Number(2),
            Token::DelimiterRight,
        ]
    );
}

#[test]
fn operators_inside_tag() {
    let tokens = scan("::. - * ! != == > >= < <=::");
    assert_eq!(
        tokens,
        vec![
            Token::DelimiterLeft,
            Token::Dot,
            Token::Minus,
            Token::Star,
            Token::Bang,
            Token::BangEqual,
            Token::Equal,
            Token::Greater,
            Token::GreaterEqual,
            Token::Less,
            Token::LessEqual,
            Token::DelimiterRight,
        ]
    );
}

#[test]
fn lone_equal_sign_is_dropped() {
    let tokens = scan("::a = b::");
    assert_eq!(
        tokens,
        vec![
            Token::DelimiterLeft,
            Token::Identifier("a".to_string()),
            Token::Identifier("b".to_string()),
            Token::DelimiterRight,
        ]
    );
}

#[test]
fn identifier_with_digits() {
    let tokens = scan("::ab12::");
    assert_eq!(
        tokens,
        vec![
            Token::DelimiterLeft,
            Token::Identifier("ab12".to_string()),
            Token::DelimiterRight,
        ]
    );
}

#[test]
fn string_literal_captured_verbatim() {
    let tokens = scan("::\"hi there\"::");
    assert_eq!(
        tokens,
        vec![
            Token::DelimiterLeft,
            Token::String("hi there".to_string()),
            Token::DelimiterRight,
        ]
    );
}

#[test]
fn number_with_leading_zeros() {
    let tokens = scan("::007::");
    assert_eq!(
        tokens,
        vec![
            Token::DelimiterLeft,
            Token::Number(7),
            Token::DelimiterRight,
        ]
    );
}

#[test]
fn largest_number_is_kept() {
    let tokens = scan("::2147483647::");
    assert_eq!(
        tokens,
        vec![
            Token::DelimiterLeft,
            Token::Number(2147483647),
            Token::DelimiterRight,
        ]
    );
}

#[test]
fn overflowing_number_is_dropped() {
    let tokens = scan("::2147483648::");
    assert_eq!(tokens, vec![Token::DelimiterLeft, Token::DelimiterRight]);
}

#[test]
fn digit_led_mixed_run_is_dropped() {
    let tokens = scan("::1a::");
    assert_eq!(tokens, vec![Token::DelimiterLeft, Token::DelimiterRight]);
}

#[test]
fn unrecognized_tag_character_is_dropped() {
    let tokens = scan("::$::");
    assert_eq!(tokens, vec![Token::DelimiterLeft, Token::DelimiterRight]);
}

#[test]
fn for_open_keyword() {
    let tokens = scan("::#for x::");
    assert_eq!(
        tokens,
        vec![
            Token::DelimiterLeft,
            Token::ForOpen,
            Token::Identifier("x".to_string()),
            Token::DelimiterRight,
        ]
    );
}

#[test]
fn if_open_keyword() {
    let tokens = scan("::#if x::");
    assert_eq!(
        tokens,
        vec![
            Token::DelimiterLeft,
            Token::IfOpen,
            Token::Identifier("x".to_string()),
            Token::DelimiterRight,
        ]
    );
}

#[test]
fn hash_without_keyword() {
    let tokens = scan("::#foo x::");
    assert_eq!(
        tokens,
        vec![
            Token::DelimiterLeft,
            Token::Hash,
            Token::Identifier("x".to_string()),
            Token::DelimiterRight,
        ]
    );
}

#[test]
fn for_close_keyword() {
    let tokens = scan("::/for x::");
    assert_eq!(
        tokens,
        vec![
            Token::DelimiterLeft,
            Token::ForClose,
            Token::Identifier("x".to_string()),
            Token::DelimiterRight,
        ]
    );
}

#[test]
fn if_close_keyword() {
    let tokens = scan("::/if x::");
    assert_eq!(
        tokens,
        vec![
            Token::DelimiterLeft,
            Token::IfClose,
            Token::Identifier("x".to_string()),
            Token::DelimiterRight,
        ]
    );
}

#[test]
fn slash_without_keyword() {
    let tokens = scan("::a / b::");
    assert_eq!(
        tokens,
        vec![
            Token::DelimiterLeft,
            Token::Identifier("a".to_string()),
            Token::Slash,
            Token::Identifier("b".to_string()),
            Token::DelimiterRight,
        ]
    );
}

#[test]
fn else_keyword_after_colon() {
    let tokens = scan("::a :else x::");
    assert_eq!(
        tokens,
        vec![
            Token::DelimiterLeft,
            Token::Identifier("a".to_string()),
            Token::Else,
            Token::Identifier("x".to_string()),
            Token::DelimiterRight,
        ]
    );
}

#[test]
fn colon_without_keyword() {
    let tokens = scan("::a :b c::");
    assert_eq!(
        tokens,
        vec![
            Token::DelimiterLeft,
            Token::Identifier("a".to_string()),
            Token::Colon,
            Token::Identifier("c".to_string()),
            Token::DelimiterRight,
        ]
    );
}

#[test]
fn reserved_word_scan_swallows_the_character_after_it() {
    // The run after `/` ends at the first colon of the closing `::`, and
    // that colon is consumed with the run; only one colon is left, so the
    // tag never closes and the tail is flushed as text from the pending
    // marker, which an unclosed tag leaves on the second opening colon.
    let tokens = scan("::/if::");
    assert_eq!(
        tokens,
        vec![
            Token::DelimiterLeft,
            Token::IfClose,
            Token::Colon,
            Token::Text(":/if::".to_string()),
        ]
    );
}

#[test]
fn unterminated_tag_flushes_tail_as_text() {
    let tokens = scan("ab::cd");
    assert_eq!(
        tokens,
        vec![
            Token::Text("ab".to_string()),
            Token::DelimiterLeft,
            Token::Identifier("cd".to_string()),
            Token::Text(":cd".to_string()),
        ]
    );
}

#[test]
fn unterminated_string_runs_to_end_of_input() {
    let tokens = scan("::\"abc");
    assert_eq!(
        tokens,
        vec![
            Token::DelimiterLeft,
            Token::String("abc".to_string()),
            Token::Text(":\"abc".to_string()),
        ]
    );
}

#[test]
fn text_before_tag_is_flushed() {
    let tokens = scan("hi ::x:: bye");
    assert_eq!(
        tokens,
        vec![
            Token::Text("hi ".to_string()),
            Token::DelimiterLeft,
            Token::Identifier("x".to_string()),
            Token::DelimiterRight,
            Token::Space(1),
            Token::Text("bye".to_string()),
        ]
    );
}

#[test]
fn empty_source_has_no_tokens() {
    let tokens = scan("");
    assert_eq!(tokens, Vec::<Token>::new());
}

#[test]
fn newline_run_makes_newline_tokens() {
    let tokens = scan("\n\n");
    assert_eq!(tokens, vec![Token::NewLine, Token::NewLine]);
}

fn reconstruct(tokens: &[Token]) -> String {
    let mut out = String::new();
    for token in tokens {
        match token {
            Token::Text(text) => out.push_str(text),
            Token::Space(n) => {
                for _ in 0..*n {
                    out.push(' ');
                }
            }
            Token::NewLine => out.push('\n'),
            _ => {}
        }
    }
    out
}

#[test]
fn delimiter_free_text_reconstructs_exactly() {
    let source = "one two  three\n four\nfive : six";
    let tokens = scan(source);
    assert_eq!(reconstruct(&tokens), source);
}

#[test]
fn single_space_between_words_yields_one_text_token() {
    let tokens = scan("left right");
    assert_eq!(tokens, vec![Token::Text("left right".to_string())]);
}

#[test]
fn triple_space_between_words_yields_a_space_token() {
    let tokens = scan("left   right");
    assert_eq!(
        tokens,
        vec![
            Token::Text("left".to_string()),
            Token::Space(3),
            Token::Text("right".to_string()),
        ]
    );
}
