use srcrs::kv::char_reader::{CharReader, ReadChar};

fn expect_vec(tokenizer: &mut CharReader, expected: &Vec<ReadChar>) {
    for expected in expected {
        let peeked = tokenizer.peek();
        if peeked != *expected {
            panic!("Expected: {:?}, got {:?}", expected, peeked);
        }

        match tokenizer.advance() {
            Err(err) => {
                panic!("During processing of {:?}, got error: {:?}", expected, err);
            }
            Ok(_) => {}
        }
    }
}

#[test]
fn char_reader_empty_input() {
    let tokenizer = CharReader::from_io(r#""#.as_bytes()).unwrap();

    assert!(tokenizer.peek() == ReadChar::Eof);
}

#[test]
fn single_char() {
    let mut tokenizer = CharReader::from_io(r#"a"#.as_bytes()).unwrap();

    let expected_readchars = vec![
        ReadChar::Normal('a'),
        ReadChar::Eof
    ];

    expect_vec(&mut tokenizer, &expected_readchars);
}

#[test]
fn multiple_chars() {
    let mut tokenizer = CharReader::from_io(r#"aBc"#.as_bytes()).unwrap();

    let expected_readchars = vec![
        ReadChar::Normal('a'),
        ReadChar::Normal('B'),
        ReadChar::Normal('c'),
        ReadChar::Eof
    ];

    expect_vec(&mut tokenizer, &expected_readchars);
}

#[test]
fn strange_chars() {
    let mut tokenizer = CharReader::from_io(r#"[{;A><*^"#.as_bytes()).unwrap();

    let expected_readchars = vec![
        ReadChar::Normal('['),
        ReadChar::Normal('{'),
        ReadChar::Normal(';'),
        ReadChar::Normal('A'),
        ReadChar::Normal('>'),
        ReadChar::Normal('<'),
        ReadChar::Normal('*'),
        ReadChar::Normal('^'),
        ReadChar::Eof
    ];

    expect_vec(&mut tokenizer, &expected_readchars);
}

#[test]
fn escaped_single() {
    let mut tokenizer = CharReader::from_io(r#"\a"#.as_bytes()).unwrap();

    let expected_readchars = vec![
        ReadChar::Escaped('a'),
        ReadChar::Eof
    ];

    expect_vec(&mut tokenizer, &expected_readchars);
}

#[test]
fn escaped_multiple() {
    let mut tokenizer = CharReader::from_io(r#"\a\b\c"#.as_bytes()).unwrap();

    let expected_readchars = vec![
        ReadChar::Escaped('a'),
        ReadChar::Escaped('b'),
        ReadChar::Escaped('c'),
        ReadChar::Eof
    ];

    expect_vec(&mut tokenizer, &expected_readchars);
}

#[test]
fn escaped_unescaped() {
    let mut tokenizer = CharReader::from_io(r#"\ab\c"#.as_bytes()).unwrap();

    let expected_readchars = vec![
        ReadChar::Escaped('a'),
        ReadChar::Normal('b'),
        ReadChar::Escaped('c'),
        ReadChar::Eof
    ];

    expect_vec(&mut tokenizer, &expected_readchars);
}

#[test]
fn escaped_unescaped_strange() {
    let mut tokenizer = CharReader::from_io(r#"[\{\;\"A>\<*\^"#.as_bytes()).unwrap();

    let expected_readchars = vec![
        ReadChar::Normal('['),
        ReadChar::Escaped('{'),
        ReadChar::Escaped(';'),
        ReadChar::Escaped('"'),
        ReadChar::Normal('A'),
        ReadChar::Normal('>'),
        ReadChar::Escaped('<'),
        ReadChar::Normal('*'),
        ReadChar::Escaped('^'),
        ReadChar::Eof
    ];

    expect_vec(&mut tokenizer, &expected_readchars);
}

#[test]
fn single_whitespace_single_char() {
    let mut tokenizer = CharReader::from_io(r#" "#.as_bytes()).unwrap();

    let expected_readchars = vec![
        ReadChar::Eof
    ];

    expect_vec(&mut tokenizer, &expected_readchars);
}

#[test]
fn single_whitespace_multi_char() {
    let mut tokenizer = CharReader::from_io("\t \n\t ".as_bytes()).unwrap();

    let expected_readchars = vec![
        ReadChar::Eof
    ];

    expect_vec(&mut tokenizer, &expected_readchars);
}

#[test]
fn whitespace_escaped_unescaped() {
    let mut tokenizer = CharReader::from_io("\the\\y \nw\\hat\\'s \\u\\p\t ".as_bytes()).unwrap();

    let expected_readchars = vec![
        ReadChar::Normal('h'),
        ReadChar::Normal('e'),
        ReadChar::Escaped('y'),
        ReadChar::Whitespace,
        ReadChar::Normal('w'),
        ReadChar::Escaped('h'),
        ReadChar::Normal('a'),
        ReadChar::Normal('t'),
        ReadChar::Escaped('\''),
        ReadChar::Normal('s'),
        ReadChar::Whitespace,
        ReadChar::Escaped('u'),
        ReadChar::Escaped('p'),
        ReadChar::Whitespace,
        ReadChar::Eof
    ];

    expect_vec(&mut tokenizer, &expected_readchars);
}

#[test]
fn single_comment() {
    let mut tokenizer = CharReader::from_io(r#"// Hello"#.as_bytes()).unwrap();

    let expected_readchars = vec![
        ReadChar::Eof
    ];

    expect_vec(&mut tokenizer, &expected_readchars);
}

#[test]
fn non_comment_slash() {
    let mut tokenizer = CharReader::from_io(r#"/ / Hello"#.as_bytes()).unwrap();

    let expected_readchars = vec![
        ReadChar::Normal('/'),
        ReadChar::Whitespace,
        ReadChar::Normal('/'),
        ReadChar::Whitespace,
        ReadChar::Normal('H'),
        ReadChar::Normal('e'),
        ReadChar::Normal('l'),
        ReadChar::Normal('l'),
        ReadChar::Normal('o'),
        ReadChar::Eof
    ];

    expect_vec(&mut tokenizer, &expected_readchars);
}

#[test]
fn comments_interweaved() {
    let mut tokenizer = CharReader::from_io(
        r#"
        // I am a comment. Don't mind me!
        h\i// Don't mind me either
        hey
        "#
        .as_bytes(),
    )
    .unwrap();

    let expected_readchars = vec![
        ReadChar::Normal('h'),
        ReadChar::Escaped('i'),
        ReadChar::Whitespace,
        ReadChar::Normal('h'),
        ReadChar::Normal('e'),
        ReadChar::Normal('y'),
        ReadChar::Whitespace,
        ReadChar::Eof
    ];

    expect_vec(&mut tokenizer, &expected_readchars);
}
