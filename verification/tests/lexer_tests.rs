use html::lexer::{Lexer, Token};

#[test]
fn test_lexer() {
    let input = r#"
        <html>
        <h1>Hello, World!</h1>
        <div class="container" style="color: blue">
        </div>
        </html>
        "#;
    let mut lexer = Lexer::new(input);
    let tokens = lexer.lex().expect("Failed to lex input");

    // Expected tokens
    let expected_tokens = vec![
        Token::TagBegin("html".to_string()),
        Token::TagBegin("h1".to_string()),
        Token::Content("Hello, World!".to_string()),
        Token::TagEnd("h1".to_string()),
        Token::TagBegin("div".to_string()),
        Token::Attribute(("class".to_string(), "container".to_string())),
        Token::Attribute(("style".to_string(), "color: blue".to_string())),
        Token::TagEnd("div".to_string()),
        Token::TagEnd("html".to_string()),
        Token::EOF,
    ];

    assert_eq!(tokens.len(), expected_tokens.len());

    for (i, (token, expected)) in tokens.iter().zip(expected_tokens.iter()).enumerate() {
        assert_eq!(token, expected, "Token mismatch at index {}", i);
    }
}

#[test]
fn test_validate_correctly_nested_tags() {
    let tokens = vec![
        Token::TagBegin("html".to_string()),
        Token::TagBegin("body".to_string()),
        Token::TagBegin("h1".to_string()),
        Token::Content("Title".to_string()),
        Token::TagEnd("h1".to_string()),
        Token::TagEnd("body".to_string()),
        Token::TagEnd("html".to_string()),
        Token::EOF,
    ];

    assert!(Lexer::validate(&tokens), "Expected valid nesting of tags");
}

#[test]
fn test_validate_incorrectly_nested_tags() {
    let tokens = vec![
        Token::TagBegin("html".to_string()),
        Token::TagBegin("body".to_string()),
        Token::TagBegin("h1".to_string()),
        Token::Content("Title".to_string()),
        Token::TagEnd("body".to_string()), // Incorrect closing tag
        Token::TagEnd("html".to_string()),
        Token::EOF,
    ];

    assert!(
        !Lexer::validate(&tokens),
        "Expected invalid nesting of tags due to incorrect closing tag"
    );
}

#[test]
fn test_validate_unmatched_closing_tag() {
    let tokens = vec![
        Token::TagBegin("html".to_string()),
        Token::TagEnd("body".to_string()), // Unmatched closing tag
        Token::TagEnd("html".to_string()),
        Token::EOF,
    ];

    assert!(
        !Lexer::validate(&tokens),
        "Expected invalid nesting due to unmatched closing tag"
    );
}

#[test]
fn test_validate_empty_tokens() {
    let tokens: Vec<Token> = vec![];
    assert!(
        Lexer::validate(&tokens),
        "Expected valid result for empty token list"
    );
}

#[test]
fn test_validate_tolerates_stray_closing_tag_alone() {
    // A closing tag with no open tag on the stack is tolerated silently.
    let tokens = vec![Token::TagEnd("body".to_string()), Token::EOF];
    assert!(Lexer::validate(&tokens));
}

#[test]
fn test_validate_rejects_unclosed_tag() {
    // An opening tag that is never matched leaves the stack non-empty.
    let tokens = vec![Token::TagBegin("html".to_string()), Token::EOF];
    assert!(!Lexer::validate(&tokens));
}

#[test]
fn test_validate_skips_self_closing_tags() {
    // Self-closing tags are never pushed, so they need no closing tag.
    let tokens = vec![
        Token::TagBegin("html".to_string()),
        Token::TagBegin("br".to_string()),
        Token::TagBegin("IMG".to_string()),
        Token::TagEnd("html".to_string()),
        Token::EOF,
    ];
    assert!(Lexer::validate(&tokens));
}

#[test]
fn test_is_tag_self_closing_case_insensitive() {
    assert!(Lexer::is_tag_self_closing("br"));
    assert!(Lexer::is_tag_self_closing("BR"));
    assert!(Lexer::is_tag_self_closing("DocType"));
    assert!(Lexer::is_tag_self_closing("hr"));
    assert!(Lexer::is_tag_self_closing("img"));
    assert!(Lexer::is_tag_self_closing("input"));
    assert!(Lexer::is_tag_self_closing("meta"));
    assert!(Lexer::is_tag_self_closing("LINK"));
    assert!(!Lexer::is_tag_self_closing("div"));
    assert!(!Lexer::is_tag_self_closing("brr"));
    assert!(!Lexer::is_tag_self_closing(""));
}

#[test]
fn test_lex_fails_on_unterminated_value() {
    let mut lexer = Lexer::new(r#"<img src="image.png"#);
    assert!(lexer.lex().is_none(), "Expected failure on unterminated value");
}

#[test]
fn test_lex_fails_on_line_break_in_value() {
    let mut lexer = Lexer::new("<img src=\"image\n.png\">");
    assert!(lexer.lex().is_none(), "Expected failure on line break in value");
}

#[test]
fn test_lex_declaration_folds_into_tag() {
    // `!`-prefixed markup is folded into an ordinary opening tag.
    let mut lexer = Lexer::new("<!doctype html>");
    let tokens = lexer.lex().expect("Failed to lex input");
    let expected = vec![
        Token::TagBegin("doctype".to_string()),
        Token::Attribute(("html".to_string(), String::new())),
        Token::EOF,
    ];
    assert_eq!(tokens, expected);
}

#[test]
fn test_lex_empty_tag_name_and_stray_characters() {
    // `<>` yields an empty tag name; stray top-level punctuation is dropped.
    let mut lexer = Lexer::new("<>.!?");
    let tokens = lexer.lex().expect("Failed to lex input");
    let expected = vec![Token::TagBegin(String::new()), Token::EOF];
    assert_eq!(tokens, expected);
}

#[test]
fn test_lex_attribute_syntax_after_closing_tag_is_content() {
    // A closing tag does not enter inside-tag mode, so what follows it up to
    // the next `<` is one literal content run, `>` and quotes included.
    let mut lexer = Lexer::new("<a></b c=\"d\">x");
    let tokens = lexer.lex().expect("Failed to lex input");
    let expected = vec![
        Token::TagBegin("a".to_string()),
        Token::TagEnd("b".to_string()),
        Token::Content("c=\"d\">x".to_string()),
        Token::EOF,
    ];
    assert_eq!(tokens, expected);
}

#[test]
fn test_lex_attribute_cut_short_by_closing_tag() {
    // An attribute name ends at the `<`; with no `=` its value is empty, and
    // inside-tag mode persists across the closing tag until the next `>`.
    let mut lexer = Lexer::new("<a b</c>");
    let tokens = lexer.lex().expect("Failed to lex input");
    let expected = vec![
        Token::TagBegin("a".to_string()),
        Token::Attribute(("b".to_string(), String::new())),
        Token::TagEnd("c".to_string()),
        Token::EOF,
    ];
    assert_eq!(tokens, expected);
}

#[test]
fn test_lex_empty_input() {
    let mut lexer = Lexer::new("");
    let tokens = lexer.lex().expect("Failed to lex input");
    assert_eq!(tokens, vec![Token::EOF]);
}
