use srcrs::kv::tokenizer::{Token, Tokenizer, TokenizerError};

#[test]
fn tokenizer_empty_input() {
    let mut tokenizer = Tokenizer::from_io(r#""#.as_bytes()).unwrap();

    assert!(tokenizer.next_token().unwrap() == Token::Eof);
}

#[test]
fn tokenizer_regular_single_string() {
    let mut tokenizer = Tokenizer::from_io(r#"hello"#.as_bytes()).unwrap();

    assert!(tokenizer.next_token().unwrap() == Token::Text("hello".into()));
}

#[test]
fn tokenizer_quoted_single_string() {
    let mut tokenizer = Tokenizer::from_io(r#""hey""#.as_bytes()).unwrap();

    assert!(tokenizer.next_token().unwrap() == Token::Text("hey".into()));
}

#[test]
fn tokenizer_escaped_single_string() {
    let mut tokenizer = Tokenizer::from_io(r#"\"he\y\\\""#.as_bytes()).unwrap();

    assert!(tokenizer.next_token().unwrap() == Token::Text(r#""hey\""#.into()));
}

#[test]
fn tokenizer_quoted_escaped_single_string() {
    let mut tokenizer = Tokenizer::from_io(r#""hey\"""#.as_bytes()).unwrap();

    assert!(tokenizer.next_token().unwrap() == Token::Text(r#"hey\"#.into()));
}

#[test]
fn tokenizer_whitespace_single_string() {
    let mut tokenizer = Tokenizer::from_io(r#"      "  hey  "          "#.as_bytes()).unwrap();

    assert!(tokenizer.next_token().unwrap() == Token::Text(r#"  hey  "#.into()));
}

#[test]
fn tokenizer_open_brace() {
    let mut tokenizer = Tokenizer::from_io(r#"{"#.as_bytes()).unwrap();

    assert!(tokenizer.next_token().unwrap() == Token::OpenBlock);
}

#[test]
fn tokenizer_open_brace_whitespace() {
    let mut tokenizer = Tokenizer::from_io(r#"           {    "#.as_bytes()).unwrap();

    assert!(tokenizer.next_token().unwrap() == Token::OpenBlock);
}

#[test]
fn tokenizer_close_brace() {
    let mut tokenizer = Tokenizer::from_io(r#"}"#.as_bytes()).unwrap();

    assert!(tokenizer.next_token().unwrap() == Token::CloseBlock);
}

#[test]
fn tokenizer_close_brace_whitespace() {
    let mut tokenizer = Tokenizer::from_io(r#"           }    "#.as_bytes()).unwrap();

    assert!(tokenizer.next_token().unwrap() == Token::CloseBlock);
}

#[test]
fn tokenizer_multiple_tokens() {
    let kv_data = r#"
        "str1" { "da\"ta" moredata} } {}"ha {"
        "MULTIPLE LINES!!!!"{}}}you\ kno"w
        "#
    .as_bytes();

    let mut tokenizer = Tokenizer::from_io(kv_data).unwrap();

    let tokens = vec![
        Token::Text(r#"str1"#.into()),
        Token::OpenBlock,
        Token::Text(r#"da\"#.into()),
        Token::Text(r#"ta""#.into()),
        Token::Text(r#"moredata"#.into()),
        Token::CloseBlock,
        Token::CloseBlock,
        Token::OpenBlock,
        Token::CloseBlock,
        Token::Text(r#"ha {"#.into()),
        Token::Text(r#"MULTIPLE LINES!!!!"#.into()),
        Token::OpenBlock,
        Token::CloseBlock,
        Token::CloseBlock,
        Token::CloseBlock,
        Token::Text(r#"you kno"w"#.into()),
        Token::Eof,
    ];

    for token in tokens {
        assert!(tokenizer.next_token().unwrap() == token);
    }
}

#[test]
fn multiple_tokens_comments() {
    let kv_data = r#"
        "str1" / /{ "da\"ta" /moredata/} } {}"ha/ {" \// Hey there i am a comment
        "MULTIPLE LINES!!!!"{}}}you\ kno"w
        "#
    .as_bytes();

    let mut tokenizer = Tokenizer::from_io(kv_data).unwrap();

    let tokens = vec![
        Token::Text(r#"str1"#.into()),
        Token::Text(r#"/"#.into()),
        Token::Text(r#"/"#.into()),
        Token::OpenBlock,
        Token::Text(r#"da\"#.into()),
        Token::Text(r#"ta""#.into()),
        Token::Text(r#"/moredata/"#.into()),
        Token::CloseBlock,
        Token::CloseBlock,
        Token::OpenBlock,
        Token::CloseBlock,
        Token::Text(r#"ha/ {"#.into()),
        Token::Text(r#"\"#.into()),
        Token::Text(r#"MULTIPLE LINES!!!!"#.into()),
        Token::OpenBlock,
        Token::CloseBlock,
        Token::CloseBlock,
        Token::CloseBlock,
        Token::Text(r#"you kno"w"#.into()),
        Token::Eof,
    ];

    for token in tokens {
        assert!(tokenizer.next_token().unwrap() == token);
    }
}

#[test]
fn tokenizer_unterminated_quote() {
    let mut tokenizer = Tokenizer::from_io(r#""never closed"#.as_bytes()).unwrap();

    assert!(tokenizer.next_token().unwrap_err() == TokenizerError::UnterminatedText);
}

#[test]
fn flag_brackets_are_structural() {
    let mut tokenizer = Tokenizer::from_io(r#"k v [flag]"#.as_bytes()).unwrap();

    let tokens = vec![
        Token::Text("k".into()),
        Token::Text("v".into()),
        Token::OpenFlag,
        Token::Text("flag".into()),
        Token::CloseFlag,
        Token::Eof,
    ];

    for token in tokens {
        assert!(tokenizer.next_token().unwrap() == token);
    }
}

#[test]
fn negated_flag_tokens() {
    let mut tokenizer = Tokenizer::from_io(r#"[!flag]"#.as_bytes()).unwrap();

    let tokens = vec![
        Token::OpenFlag,
        Token::Negate,
        Token::Text("flag".into()),
        Token::CloseFlag,
        Token::Eof,
    ];

    for token in tokens {
        assert!(tokenizer.next_token().unwrap() == token);
    }
}

#[test]
fn structural_chars_end_unquoted_text() {
    let mut tokenizer = Tokenizer::from_io(r#"a[b]c!d"#.as_bytes()).unwrap();

    let tokens = vec![
        Token::Text("a".into()),
        Token::OpenFlag,
        Token::Text("b".into()),
        Token::CloseFlag,
        Token::Text("c".into()),
        Token::Negate,
        Token::Text("d".into()),
        Token::Eof,
    ];

    for token in tokens {
        assert!(tokenizer.next_token().unwrap() == token);
    }
}

#[test]
fn escaped_structural_chars_stay_in_text() {
    let mut tokenizer = Tokenizer::from_io(r#"a\[b\]c\!d"#.as_bytes()).unwrap();

    assert!(tokenizer.next_token().unwrap() == Token::Text("a[b]c!d".into()));
}

#[test]
fn trailing_backslash_is_kept() {
    let mut tokenizer = Tokenizer::from_io(r#"abc\"#.as_bytes()).unwrap();

    assert!(tokenizer.next_token().unwrap() == Token::Text(r#"abc\"#.into()));
}
