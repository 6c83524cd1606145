use json_lint::members::Members;
use json_lint::parser::{Node, Parser};
use json_lint::tokenizer::Token;
use std::collections::VecDeque;

#[test]
fn parse_int() {
    let mut tokens = VecDeque::new();
    tokens.push_back(Token::Number("123".to_string()));
    tokens.push_back(Token::Eof);

    let expected = Node::Number("123".to_string());
    let node = Parser::new(tokens).parse();

    assert_eq!(node, Ok(expected));
}

#[test]
fn parse_boolean() {
    let mut tokens = VecDeque::new();
    tokens.push_back(Token::Boolean(true));
    tokens.push_back(Token::Eof);

    let expected = Node::Boolean(true);
    let node = Parser::new(tokens).parse();

    assert_eq!(node, Ok(expected));
}

#[test]
fn parse_null() {
    let mut tokens = VecDeque::new();
    tokens.push_back(Token::Null);
    tokens.push_back(Token::Eof);

    let expected = Node::Null;
    let node = Parser::new(tokens).parse();

    assert_eq!(node, Ok(expected));
}

#[test]
fn parse_object() {
    let mut tokens = VecDeque::new();
    tokens.push_back(Token::LeftCurlyBranckt);

    tokens.push_back(Token::String("elm1".to_string()));
    tokens.push_back(Token::Colon);
    tokens.push_back(Token::Number("123".to_string()));
    tokens.push_back(Token::Comma);

    tokens.push_back(Token::String("elm2".to_string()));
    tokens.push_back(Token::Colon);
    tokens.push_back(Token::Number("456".to_string()));
    tokens.push_back(Token::Comma);

    tokens.push_back(Token::String("elm3".to_string()));
    tokens.push_back(Token::Colon);
    tokens.push_back(Token::String("apple".to_string()));
    tokens.push_back(Token::Comma);

    tokens.push_back(Token::String("elm4".to_string()));
    tokens.push_back(Token::Colon);
    tokens.push_back(Token::Boolean(false));

    tokens.push_back(Token::RightCurlyBranckt);
    tokens.push_back(Token::Eof);

    let expected = Node::Object(
        Members::from_pairs(vec![
            ("elm1".to_string(), Node::Number("123".to_string())),
            ("elm2".to_string(), Node::Number("456".to_string())),
            ("elm3".to_string(), Node::String("apple".to_string())),
            ("elm4".to_string(), Node::Boolean(false))
        ]));
    let node = Parser::new(tokens).parse();

    assert_eq!(node, Ok(expected));
}

#[test]
fn parse_array() {
    let mut tokens = VecDeque::new();

    tokens.push_back(Token::LeftSquareBrancket);

    tokens.push_back(Token::Number("123".to_string()));
    tokens.push_back(Token::Comma);

    tokens.push_back(Token::Number("456".to_string()));
    tokens.push_back(Token::Comma);

    tokens.push_back(Token::String("apple".to_string()));
    tokens.push_back(Token::Comma);

    tokens.push_back(Token::Boolean(true));

    tokens.push_back(Token::RightSquareBrancket);
    tokens.push_back(Token::Eof);

    let expected = Node::Array(
        Vec::from([
            Node::Number("123".to_string()),
            Node::Number("456".to_string()),
            Node::String("apple".to_string()),
            Node::Boolean(true)
        ]));
    let node = Parser::new(tokens).parse();

    assert_eq!(node, Ok(expected));
}

#[test]
fn parse_large_json1() {
    let mut tokens = VecDeque::new();

    tokens.push_back(Token::LeftCurlyBranckt);
    tokens.push_back(Token::String("Image".to_string()));
    tokens.push_back(Token::Colon);
    tokens.push_back(Token::LeftCurlyBranckt);

    tokens.push_back(Token::String("Width".to_string()));
    tokens.push_back(Token::Colon);
    tokens.push_back(Token::Number("800".to_string()));
    tokens.push_back(Token::Comma);

    tokens.push_back(Token::String("Height".to_string()));
    tokens.push_back(Token::Colon);
    tokens.push_back(Token::Number("600".to_string()));
    tokens.push_back(Token::Comma);

    tokens.push_back(Token::String("Title".to_string()));
    tokens.push_back(Token::Colon);
    tokens.push_back(Token::String("View from 15th Floor".to_string()));
    tokens.push_back(Token::Comma);

    tokens.push_back(Token::String("Thumbnail".to_string()));
    tokens.push_back(Token::Colon);
    tokens.push_back(Token::LeftCurlyBranckt);

    tokens.push_back(Token::String("Url".to_string()));
    tokens.push_back(Token::Colon);
    tokens.push_back(Token::String(
        "http://www.example.com/image/481989943".to_string(),
    ));
    tokens.push_back(Token::Comma);

    tokens.push_back(Token::String("Height".to_string()));
    tokens.push_back(Token::Colon);
    tokens.push_back(Token::Number("125".to_string()));
    tokens.push_back(Token::Comma);

    tokens.push_back(Token::String("Width".to_string()));
    tokens.push_back(Token::Colon);
    tokens.push_back(Token::Number("100".to_string()));

    tokens.push_back(Token::RightCurlyBranckt);
    tokens.push_back(Token::Comma);

    tokens.push_back(Token::String("Animated".to_string()));
    tokens.push_back(Token::Colon);
    tokens.push_back(Token::Boolean(false));
    tokens.push_back(Token::Comma);

    tokens.push_back(Token::String("IDs".to_string()));
    tokens.push_back(Token::Colon);
    tokens.push_back(Token::LeftSquareBrancket);

    tokens.push_back(Token::Number("116".to_string()));
    tokens.push_back(Token::Comma);

    tokens.push_back(Token::Number("943".to_string()));
    tokens.push_back(Token::Comma);

    tokens.push_back(Token::Number("234".to_string()));
    tokens.push_back(Token::Comma);

    tokens.push_back(Token::Number("38793".to_string()));

    tokens.push_back(Token::RightSquareBrancket);

    tokens.push_back(Token::RightCurlyBranckt);
    tokens.push_back(Token::RightCurlyBranckt);

    let expected = Node::Object(
        Members::from_pairs(vec![
            ("Image".to_string(), Node::Object(
                    Members::from_pairs(vec![
                        ("Width".to_string(), Node::Number("800".to_string())),
                        ("Height".to_string(), Node::Number("600".to_string())),
                        ("Title".to_string(), Node::String("View from 15th Floor".to_string())),
                        ("Thumbnail".to_string(), Node::Object(
                                Members::from_pairs(vec![
                                    ("Url".to_string(), Node::String("http://www.example.com/image/481989943".to_string())),
                                    ("Height".to_string(), Node::Number("125".to_string())),
                                    ("Width".to_string(), Node::Number("100".to_string()))
                                ]))
                        ),
                        ("Animated".to_string(), Node::Boolean(false)),
                        ("IDs".to_string(), Node::Array(Vec::from([
                                Node::Number("116".to_string()),
                                Node::Number("943".to_string()),
                                Node::Number("234".to_string()),
                                Node::Number("38793".to_string())
                        ])))
                    ])
            ))
        ]));
    let node = Parser::new(tokens).parse();

    assert_eq!(node, Ok(expected));
}
