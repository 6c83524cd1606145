use json_lint::tokenizer::{Token, Tokenizer};

#[test]
fn tokenize_empty() {
    let mut tokenizer = Tokenizer::new("");
    assert_eq!(tokenizer.next_token(), Ok(Token::Eof));
}

#[test]
fn tokenize_zero() {
    let mut tokenizer = Tokenizer::new("0");
    assert_eq!(tokenizer.next_token(), Ok(Token::Number("0".to_string())));
    assert_eq!(tokenizer.next_token(), Ok(Token::Eof));
}

#[test]
fn tokenize_int() {
    let mut tokenizer = Tokenizer::new("123");
    assert_eq!(tokenizer.next_token(), Ok(Token::Number("123".to_string())));
    assert_eq!(tokenizer.next_token(), Ok(Token::Eof));
}

#[test]
fn tokenize_minus_int() {
    let mut tokenizer = Tokenizer::new("-123");
    assert_eq!(tokenizer.next_token(), Ok(Token::Number("-123".to_string())));
    assert_eq!(tokenizer.next_token(), Ok(Token::Eof));
}

#[test]
fn tokenize_string() {
    let mut tokenizer = Tokenizer::new(r#""apple""#);
    assert_eq!(tokenizer.next_token(), Ok(Token::String("apple".to_string())));
    assert_eq!(tokenizer.next_token(), Ok(Token::Eof));
}

#[test]
fn tokenize_true() {
    let mut tokenizer = Tokenizer::new(r#"true"#);
    assert_eq!(tokenizer.next_token(), Ok(Token::Boolean(true)));
    assert_eq!(tokenizer.next_token(), Ok(Token::Eof));
}

#[test]
fn tokenize_false() {
    let mut tokenizer = Tokenizer::new(r#"false"#);
    assert_eq!(tokenizer.next_token(), Ok(Token::Boolean(false)));
    assert_eq!(tokenizer.next_token(), Ok(Token::Eof));
}

#[test]
fn tokenize_null() {
    let mut tokenizer = Tokenizer::new(r#"null"#);
    assert_eq!(tokenizer.next_token(), Ok(Token::Null));
    assert_eq!(tokenizer.next_token(), Ok(Token::Eof));
}

#[test]
fn tokenzie_object() {
    let input = r#"{ "elm1" : 123, "elm2" : 456 , "elm3" : "apple", "elm4": false }"#;
    let mut tokenizer = Tokenizer::new(input);
    assert_eq!(tokenizer.next_token(), Ok(Token::LeftCurlyBranckt));

    assert_eq!(tokenizer.next_token(), Ok(Token::String("elm1".to_string())));
    assert_eq!(tokenizer.next_token(), Ok(Token::Colon));
    assert_eq!(tokenizer.next_token(), Ok(Token::Number("123".to_string())));
    assert_eq!(tokenizer.next_token(), Ok(Token::Comma));

    assert_eq!(tokenizer.next_token(), Ok(Token::String("elm2".to_string())));
    assert_eq!(tokenizer.next_token(), Ok(Token::Colon));
    assert_eq!(tokenizer.next_token(), Ok(Token::Number("456".to_string())));
    assert_eq!(tokenizer.next_token(), Ok(Token::Comma));

    assert_eq!(tokenizer.next_token(), Ok(Token::String("elm3".to_string())));
    assert_eq!(tokenizer.next_token(), Ok(Token::Colon));
    assert_eq!(tokenizer.next_token(), Ok(Token::String("apple".to_string())));
    assert_eq!(tokenizer.next_token(), Ok(Token::Comma));

    assert_eq!(tokenizer.next_token(), Ok(Token::String("elm4".to_string())));
    assert_eq!(tokenizer.next_token(), Ok(Token::Colon));
    assert_eq!(tokenizer.next_token(), Ok(Token::Boolean(false)));

    assert_eq!(tokenizer.next_token(), Ok(Token::RightCurlyBranckt));
    assert_eq!(tokenizer.next_token(), Ok(Token::Eof));
}

#[test]
fn tokenzie_object_no_whitespaces() {
    let input = r#"{"elm1":123,"elm2":456,"elm3":"apple","elm4":false}"#;
    let mut tokenizer = Tokenizer::new(input);
    assert_eq!(tokenizer.next_token(), Ok(Token::LeftCurlyBranckt));

    assert_eq!(tokenizer.next_token(), Ok(Token::String("elm1".to_string())));
    assert_eq!(tokenizer.next_token(), Ok(Token::Colon));
    assert_eq!(tokenizer.next_token(), Ok(Token::Number("123".to_string())));
    assert_eq!(tokenizer.next_token(), Ok(Token::Comma));

    assert_eq!(tokenizer.next_token(), Ok(Token::String("elm2".to_string())));
    assert_eq!(tokenizer.next_token(), Ok(Token::Colon));
    assert_eq!(tokenizer.next_token(), Ok(Token::Number("456".to_string())));
    assert_eq!(tokenizer.next_token(), Ok(Token::Comma));

    assert_eq!(tokenizer.next_token(), Ok(Token::String("elm3".to_string())));
    assert_eq!(tokenizer.next_token(), Ok(Token::Colon));
    assert_eq!(tokenizer.next_token(), Ok(Token::String("apple".to_string())));
    assert_eq!(tokenizer.next_token(), Ok(Token::Comma));

    assert_eq!(tokenizer.next_token(), Ok(Token::String("elm4".to_string())));
    assert_eq!(tokenizer.next_token(), Ok(Token::Colon));
    assert_eq!(tokenizer.next_token(), Ok(Token::Boolean(false)));

    assert_eq!(tokenizer.next_token(), Ok(Token::RightCurlyBranckt));
    assert_eq!(tokenizer.next_token(), Ok(Token::Eof));
}

#[test]
fn tokenize_list() {
    let input = r#"[ 123, 456 , "apple", true ]"#;
    let mut tokenizer = Tokenizer::new(input);
    assert_eq!(tokenizer.next_token(), Ok(Token::LeftSquareBrancket));

    assert_eq!(tokenizer.next_token(), Ok(Token::Number("123".to_string())));
    assert_eq!(tokenizer.next_token(), Ok(Token::Comma));

    assert_eq!(tokenizer.next_token(), Ok(Token::Number("456".to_string())));
    assert_eq!(tokenizer.next_token(), Ok(Token::Comma));

    assert_eq!(tokenizer.next_token(), Ok(Token::String("apple".to_string())));
    assert_eq!(tokenizer.next_token(), Ok(Token::Comma));

    assert_eq!(tokenizer.next_token(), Ok(Token::Boolean(true)));

    assert_eq!(tokenizer.next_token(), Ok(Token::RightSquareBrancket));
    assert_eq!(tokenizer.next_token(), Ok(Token::Eof));
}

#[test]
fn tokenize_list_no_whitespaces() {
    let input = r#"[123,456,"apple",true]"#;
    let mut tokenizer = Tokenizer::new(input);

    assert_eq!(tokenizer.next_token(), Ok(Token::LeftSquareBrancket));

    assert_eq!(tokenizer.next_token(), Ok(Token::Number("123".to_string())));
    assert_eq!(tokenizer.next_token(), Ok(Token::Comma));

    assert_eq!(tokenizer.next_token(), Ok(Token::Number("456".to_string())));
    assert_eq!(tokenizer.next_token(), Ok(Token::Comma));

    assert_eq!(tokenizer.next_token(), Ok(Token::String("apple".to_string())));
    assert_eq!(tokenizer.next_token(), Ok(Token::Comma));

    assert_eq!(tokenizer.next_token(), Ok(Token::Boolean(true)));

    assert_eq!(tokenizer.next_token(), Ok(Token::RightSquareBrancket));
    assert_eq!(tokenizer.next_token(), Ok(Token::Eof));
}

#[test]
fn tokenize_large_input1() {
    let input = format!(
        "{}\n{}\n{}\n{}\n{}\n{}\n{}\n{}\n{}\n{}\n{}\n{}\n{}\n{}\n",
        r#"{"#,
        r#"   "Image": {"#,
        r#"       "Width":  800,"#,
        r#"       "Height": 600,"#,
        r#"       "Title":  "View from 15th Floor","#,
        r#"       "Thumbnail": {"#,
        r#"           "Url":    "http://www.example.com/image/481989943","#,
        r#"           "Height": 125,"#,
        r#"           "Width":  100"#,
        r#"       },"#,
        r#"       "Animated" : false,"#,
        r#"       "IDs": [116, 943, 234, 38793]"#,
        r#"     }"#,
        r#"}"#,
    );

    let mut tokenizer = Tokenizer::new(&input);
    assert_eq!(tokenizer.next_token(), Ok(Token::LeftCurlyBranckt));
    assert_eq!(tokenizer.next_token(), Ok(Token::String("Image".to_string())));
    assert_eq!(tokenizer.next_token(), Ok(Token::Colon));
    assert_eq!(tokenizer.next_token(), Ok(Token::LeftCurlyBranckt));

    assert_eq!(tokenizer.next_token(), Ok(Token::String("Width".to_string())));
    assert_eq!(tokenizer.next_token(), Ok(Token::Colon));
    assert_eq!(tokenizer.next_token(), Ok(Token::Number("800".to_string())));
    assert_eq!(tokenizer.next_token(), Ok(Token::Comma));

    assert_eq!(tokenizer.next_token(), Ok(Token::String("Height".to_string())));
    assert_eq!(tokenizer.next_token(), Ok(Token::Colon));
    assert_eq!(tokenizer.next_token(), Ok(Token::Number("600".to_string())));
    assert_eq!(tokenizer.next_token(), Ok(Token::Comma));

    assert_eq!(tokenizer.next_token(), Ok(Token::String("Title".to_string())));
    assert_eq!(tokenizer.next_token(), Ok(Token::Colon));
    assert_eq!(tokenizer.next_token(), Ok(Token::String("View from 15th Floor".to_string())));
    assert_eq!(tokenizer.next_token(), Ok(Token::Comma));

    assert_eq!(tokenizer.next_token(), Ok(Token::String("Thumbnail".to_string())));
    assert_eq!(tokenizer.next_token(), Ok(Token::Colon));
    assert_eq!(tokenizer.next_token(), Ok(Token::LeftCurlyBranckt));

    assert_eq!(tokenizer.next_token(), Ok(Token::String("Url".to_string())));
    assert_eq!(tokenizer.next_token(), Ok(Token::Colon));
    assert_eq!(tokenizer.next_token(), Ok(Token::String("http://www.example.com/image/481989943".to_string())));
    assert_eq!(tokenizer.next_token(), Ok(Token::Comma));

    assert_eq!(tokenizer.next_token(), Ok(Token::String("Height".to_string())));
    assert_eq!(tokenizer.next_token(), Ok(Token::Colon));
    assert_eq!(tokenizer.next_token(), Ok(Token::Number("125".to_string())));
    assert_eq!(tokenizer.next_token(), Ok(Token::Comma));

    assert_eq!(tokenizer.next_token(), Ok(Token::String("Width".to_string())));
    assert_eq!(tokenizer.next_token(), Ok(Token::Colon));
    assert_eq!(tokenizer.next_token(), Ok(Token::Number("100".to_string())));

    assert_eq!(tokenizer.next_token(), Ok(Token::RightCurlyBranckt));
    assert_eq!(tokenizer.next_token(), Ok(Token::Comma));

    assert_eq!(tokenizer.next_token(), Ok(Token::String("Animated".to_string())));
    assert_eq!(tokenizer.next_token(), Ok(Token::Colon));
    assert_eq!(tokenizer.next_token(), Ok(Token::Boolean(false)));
    assert_eq!(tokenizer.next_token(), Ok(Token::Comma));

    assert_eq!(tokenizer.next_token(), Ok(Token::String("IDs".to_string())));
    assert_eq!(tokenizer.next_token(), Ok(Token::Colon));

    assert_eq!(tokenizer.next_token(), Ok(Token::LeftSquareBrancket));

    assert_eq!(tokenizer.next_token(), Ok(Token::Number("116".to_string())));
    assert_eq!(tokenizer.next_token(), Ok(Token::Comma));

    assert_eq!(tokenizer.next_token(), Ok(Token::Number("943".to_string())));
    assert_eq!(tokenizer.next_token(), Ok(Token::Comma));

    assert_eq!(tokenizer.next_token(), Ok(Token::Number("234".to_string())));
    assert_eq!(tokenizer.next_token(), Ok(Token::Comma));

    assert_eq!(tokenizer.next_token(), Ok(Token::Number("38793".to_string())));

    assert_eq!(tokenizer.next_token(), Ok(Token::RightSquareBrancket));

    assert_eq!(tokenizer.next_token(), Ok(Token::RightCurlyBranckt));
    assert_eq!(tokenizer.next_token(), Ok(Token::RightCurlyBranckt));
}

#[test]
fn tokenzie_with_iterator() {
    let input = r#"{ "elm1" : 123, "elm2" : 456 , "elm3" : "apple", "elm4": false }"#;
    let mut tokenizer = Tokenizer::new(input);
    assert_eq!(tokenizer.next(), Some(Ok(Token::LeftCurlyBranckt)));

    assert_eq!(tokenizer.next(), Some(Ok(Token::String("elm1".to_string()))));
    assert_eq!(tokenizer.next(), Some(Ok(Token::Colon)));
    assert_eq!(tokenizer.next(), Some(Ok(Token::Number("123".to_string()))));
    assert_eq!(tokenizer.next(), Some(Ok(Token::Comma)));

    assert_eq!(tokenizer.next(), Some(Ok(Token::String("elm2".to_string()))));
    assert_eq!(tokenizer.next(), Some(Ok(Token::Colon)));
    assert_eq!(tokenizer.next(), Some(Ok(Token::Number("456".to_string()))));
    assert_eq!(tokenizer.next(), Some(Ok(Token::Comma)));

    assert_eq!(tokenizer.next(), Some(Ok(Token::String("elm3".to_string()))));
    assert_eq!(tokenizer.next(), Some(Ok(Token::Colon)));
    assert_eq!(tokenizer.next(), Some(Ok(Token::String("apple".to_string()))));
    assert_eq!(tokenizer.next(), Some(Ok(Token::Comma)));

    assert_eq!(tokenizer.next(), Some(Ok(Token::String("elm4".to_string()))));
    assert_eq!(tokenizer.next(), Some(Ok(Token::Colon)));
    assert_eq!(tokenizer.next(), Some(Ok(Token::Boolean(false))));

    assert_eq!(tokenizer.next(), Some(Ok(Token::RightCurlyBranckt)));
    assert_eq!(tokenizer.next(), None);
}
