use json_lint::json_util::{escape, is_digit, is_escape_target, is_unescaped, is_whitespace};
use json_lint::members::Members;
use json_lint::parser::{Node, Parser};
use json_lint::pretty_json;
use json_lint::tokenizer::{describe_holding, Token, Tokenizer};
use std::collections::VecDeque;

fn pretty(json: &str, indent: usize) -> Result<String, String> {
    pretty_json(json.to_string(), indent)
}

fn parse(json: &str) -> Result<Node, String> {
    let tokens = Tokenizer::new(json).collect()?;
    Parser::new(tokens).parse()
}

// ---------------------------------------------------------------------------
// Character classes
// ---------------------------------------------------------------------------

#[test]
fn whitespace_is_space_tab_line_feed_and_carriage_return() {
    assert!(is_whitespace(' '));
    assert!(is_whitespace('\t'));
    assert!(is_whitespace('\n'));
    assert!(is_whitespace('\r'));
    assert!(!is_whitespace('\u{b}'));
    assert!(!is_whitespace('\u{c}'));
    assert!(!is_whitespace('a'));
    assert!(!is_whitespace('\u{a0}'));
}

#[test]
fn unescaped_leaves_out_controls_quote_and_backslash() {
    assert!(!is_unescaped('\u{0}'));
    assert!(!is_unescaped('\u{1f}'));
    assert!(is_unescaped('\u{20}'));
    assert!(is_unescaped('\u{21}'));
    assert!(!is_unescaped('\u{22}'));
    assert!(is_unescaped('\u{23}'));
    assert!(is_unescaped('\u{5b}'));
    assert!(!is_unescaped('\u{5c}'));
    assert!(is_unescaped('\u{5d}'));
    assert!(is_unescaped('\u{7f}'));
    assert!(is_unescaped('é'));
    assert!(is_unescaped('\u{10ffff}'));
}

#[test]
fn escape_targets_and_their_values() {
    assert_eq!(escape('"'), Some('"'));
    assert_eq!(escape('\\'), Some('\\'));
    assert_eq!(escape('/'), Some('/'));
    assert_eq!(escape('b'), Some('\u{8}'));
    assert_eq!(escape('f'), Some('\u{c}'));
    assert_eq!(escape('n'), Some('\n'));
    assert_eq!(escape('r'), Some('\r'));
    assert_eq!(escape('t'), Some('\t'));
    assert_eq!(escape('u'), None);
    assert_eq!(escape('a'), None);
    for c in ['"', '\\', '/', 'b', 'f', 'n', 'r', 't'] {
        assert!(is_escape_target(c));
    }
    for c in ['u', 'a', 'B', ' ', '0'] {
        assert!(!is_escape_target(c));
    }
}

#[test]
fn digits_are_zero_to_nine() {
    assert!(is_digit('0'));
    assert!(is_digit('9'));
    assert!(!is_digit('/'));
    assert!(!is_digit(':'));
    assert!(!is_digit('-'));
    assert!(!is_digit('٣'));
}

// ---------------------------------------------------------------------------
// Tokenizer
// ---------------------------------------------------------------------------

#[test]
fn tokenize_keeps_the_text_of_a_number() {
    let mut tokenizer = Tokenizer::new("  007 -0 99999999999999999999999999");
    assert_eq!(tokenizer.next_token(), Ok(Token::Number("007".to_string())));
    assert_eq!(tokenizer.next_token(), Ok(Token::Number("-0".to_string())));
    assert_eq!(
        tokenizer.next_token(),
        Ok(Token::Number("99999999999999999999999999".to_string()))
    );
    assert_eq!(tokenizer.next_token(), Ok(Token::Eof));
    assert_eq!(tokenizer.next_token(), Ok(Token::Eof));
}

#[test]
fn tokenize_number_stops_at_the_first_other_character() {
    let mut tokenizer = Tokenizer::new("12-3,4");
    assert_eq!(tokenizer.next_token(), Ok(Token::Number("12".to_string())));
    assert_eq!(tokenizer.next_token(), Ok(Token::Number("-3".to_string())));
    assert_eq!(tokenizer.next_token(), Ok(Token::Comma));
    assert_eq!(tokenizer.next_token(), Ok(Token::Number("4".to_string())));
    assert_eq!(tokenizer.next_token(), Ok(Token::Eof));
}

#[test]
fn tokenize_minus_without_digit_fails() {
    let mut tokenizer = Tokenizer::new("-x");
    assert_eq!(
        tokenizer.next_token(),
        Err("The tokenizer expected a digit, but found x.".to_string())
    );
    // The minus sign is gone, the other character is still there.
    assert_eq!(
        tokenizer.next_token(),
        Err("The tokenizer found an unexpected character 'x'.".to_string())
    );

    let mut tokenizer = Tokenizer::new("-");
    assert_eq!(
        tokenizer.next_token(),
        Err("The tokenizer expected a digit, but reached EOF.".to_string())
    );
    assert_eq!(tokenizer.next_token(), Ok(Token::Eof));
}

#[test]
fn tokenize_string_decodes_every_escape() {
    let mut tokenizer = Tokenizer::new(r#""\"\\\/\b\f\n\r\t""#);
    assert_eq!(
        tokenizer.next_token(),
        Ok(Token::String("\"\\/\u{8}\u{c}\n\r\t".to_string()))
    );
    assert_eq!(tokenizer.next_token(), Ok(Token::Eof));
}

#[test]
fn tokenize_string_escaped_quote_does_not_end_it() {
    let mut tokenizer = Tokenizer::new(r#""a\"b" 1"#);
    assert_eq!(tokenizer.next_token(), Ok(Token::String("a\"b".to_string())));
    assert_eq!(tokenizer.next_token(), Ok(Token::Number("1".to_string())));
}

#[test]
fn tokenize_string_keeps_other_characters() {
    let mut tokenizer = Tokenizer::new("\"a b/é{}[]:,\u{10ffff}\"");
    assert_eq!(
        tokenizer.next_token(),
        Ok(Token::String("a b/é{}[]:,\u{10ffff}".to_string()))
    );
    let mut tokenizer = Tokenizer::new("\"\"");
    assert_eq!(tokenizer.next_token(), Ok(Token::String(String::new())));
}

#[test]
fn tokenize_unicode_escape_fails() {
    let mut tokenizer = Tokenizer::new("\"\\u0041\"");
    assert_eq!(
        tokenizer.next_token(),
        Err("The next of \\ must be a escaped character".to_string())
    );
    // The backslash is gone, the character behind it is still there.
    assert_eq!(
        tokenizer.next_token(),
        Err("The tokenizer found an unexpected character 'u'.".to_string())
    );
}

#[test]
fn tokenize_backslash_at_the_end_fails() {
    let mut tokenizer = Tokenizer::new("\"abc\\");
    assert_eq!(
        tokenizer.next_token(),
        Err("The next of \\ must be a escaped character".to_string())
    );
    assert_eq!(tokenizer.next_token(), Ok(Token::Eof));
}

#[test]
fn tokenize_unterminated_string_fails() {
    let mut tokenizer = Tokenizer::new("\"abc");
    assert_eq!(
        tokenizer.next_token(),
        Err(
            "The tokenizer reached EOF before finding \" which represents the end of a string"
                .to_string()
        )
    );
    assert_eq!(tokenizer.next_token(), Ok(Token::Eof));
}

#[test]
fn tokenize_control_character_in_string_fails() {
    let mut tokenizer = Tokenizer::new("\"a\tb\"");
    assert_eq!(
        tokenizer.next_token(),
        Err("The tokenizer found a unexpected character while tokenizing string.".to_string())
    );
    // The character is not consumed.
    assert_eq!(
        tokenizer.next_token(),
        Err("The tokenizer found an unexpected character 'b'.".to_string())
    );
}

#[test]
fn tokenize_malformed_keywords_fail() {
    let mut tokenizer = Tokenizer::new("trux");
    assert_eq!(
        tokenizer.next_token(),
        Err("The tokenizer expected e, but found x.".to_string())
    );
    assert_eq!(tokenizer.next_token(), Ok(Token::Eof));

    let mut tokenizer = Tokenizer::new("tr");
    assert_eq!(
        tokenizer.next_token(),
        Err("The tokenizer expected u, but reached EOF.".to_string())
    );

    let mut tokenizer = Tokenizer::new("fals,");
    assert_eq!(
        tokenizer.next_token(),
        Err("The tokenizer expected e, but found ,.".to_string())
    );

    let mut tokenizer = Tokenizer::new("nul");
    assert_eq!(
        tokenizer.next_token(),
        Err("The tokenizer expected l, but reached EOF.".to_string())
    );

    let mut tokenizer = Tokenizer::new("nUll");
    assert_eq!(
        tokenizer.next_token(),
        Err("The tokenizer expected u, but found U.".to_string())
    );
    assert_eq!(
        tokenizer.next_token(),
        Err("The tokenizer found an unexpected character 'l'.".to_string())
    );
}

#[test]
fn tokenize_keyword_needs_no_separator() {
    let mut tokenizer = Tokenizer::new("truefalsenull1");
    assert_eq!(tokenizer.next_token(), Ok(Token::Boolean(true)));
    assert_eq!(tokenizer.next_token(), Ok(Token::Boolean(false)));
    assert_eq!(tokenizer.next_token(), Ok(Token::Null));
    assert_eq!(tokenizer.next_token(), Ok(Token::Number("1".to_string())));
    assert_eq!(tokenizer.next_token(), Ok(Token::Eof));
}

#[test]
fn tokenize_unexpected_character_is_not_consumed() {
    let mut tokenizer = Tokenizer::new(" \t\r\n x");
    let expected = Err("The tokenizer found an unexpected character 'x'.".to_string());
    assert_eq!(tokenizer.next_token(), expected);
    assert_eq!(tokenizer.next_token(), expected);
    assert_eq!(tokenizer.next(), Some(expected));
}

#[test]
fn tokenize_only_whitespace_is_the_end() {
    let mut tokenizer = Tokenizer::new(" \t\r\n ");
    assert_eq!(tokenizer.next_token(), Ok(Token::Eof));
    let mut tokenizer = Tokenizer::new(" \t\r\n ");
    assert_eq!(tokenizer.next(), None);
    assert_eq!(tokenizer.next(), None);
}

#[test]
fn collect_gives_all_tokens_without_the_end() {
    let tokens = Tokenizer::new(r#" [1, "a" , true] "#).collect();
    let expected: VecDeque<Token> = VecDeque::from(vec![
        Token::LeftSquareBrancket,
        Token::Number("1".to_string()),
        Token::Comma,
        Token::String("a".to_string()),
        Token::Comma,
        Token::Boolean(true),
        Token::RightSquareBrancket,
    ]);
    assert_eq!(tokens, Ok(expected));
    assert_eq!(Tokenizer::new("").collect(), Ok(VecDeque::new()));
}

#[test]
fn collect_stops_at_the_first_failure() {
    assert_eq!(
        Tokenizer::new("[1, ? , tru").collect(),
        Err("The tokenizer found an unexpected character '?'.".to_string())
    );
}

#[test]
fn same_as_compares_variant_and_value() {
    let all = [
        Token::Null,
        Token::Number("1".to_string()),
        Token::Number("2".to_string()),
        Token::String("1".to_string()),
        Token::String("2".to_string()),
        Token::Boolean(true),
        Token::Boolean(false),
        Token::Colon,
        Token::Comma,
        Token::LeftSquareBrancket,
        Token::RightSquareBrancket,
        Token::LeftCurlyBranckt,
        Token::RightCurlyBranckt,
        Token::Eof,
    ];
    for (i, a) in all.iter().enumerate() {
        for (j, b) in all.iter().enumerate() {
            assert_eq!(a.same_as(b), i == j);
            assert_eq!(a.same_as(b), a == b);
        }
    }
}

#[test]
fn describe_is_the_pretty_debug_text() {
    let all = [
        Token::Null,
        Token::Number("-12".to_string()),
        Token::String("apple".to_string()),
        Token::String("a\"b\\c\nd\te\u{1}".to_string()),
        Token::String(String::new()),
        Token::Boolean(true),
        Token::Boolean(false),
        Token::Colon,
        Token::Comma,
        Token::LeftSquareBrancket,
        Token::RightSquareBrancket,
        Token::LeftCurlyBranckt,
        Token::RightCurlyBranckt,
        Token::Eof,
    ];
    for token in all.iter() {
        assert_eq!(token.describe(), format!("{:#?}", token));
    }
    assert_eq!(Token::RightCurlyBranckt.describe(), "RightCurlyBranckt");
    assert_eq!(
        Token::String("a\"b".to_string()).describe(),
        "String(\n    \"a\\\"b\",\n)"
    );
    assert_eq!(Token::Number("7".to_string()).describe(), "Number(\n    \"7\",\n)");
}

#[test]
fn describe_holding_puts_the_value_on_a_line_of_its_own() {
    assert_eq!(describe_holding("Number", "\"7\""), "Number(\n    \"7\",\n)");
    assert_eq!(describe_holding("Boolean", "true"), "Boolean(\n    true,\n)");
    assert_eq!(describe_holding("", ""), "(\n    ,\n)");
}

// ---------------------------------------------------------------------------
// Parser
// ---------------------------------------------------------------------------

#[test]
fn parse_string_value() {
    assert_eq!(parse(r#""apple""#), Ok(Node::String("apple".to_string())));
}

#[test]
fn parse_leaves_what_follows_the_value() {
    let tokens = Tokenizer::new("1 2 ]").collect().unwrap();
    let mut parser = Parser::new(tokens);
    assert_eq!(parser.parse(), Ok(Node::Number("1".to_string())));
    assert_eq!(parser.parse(), Ok(Node::Number("2".to_string())));
    assert_eq!(
        parser.parse(),
        Err("Parse found an unexpected token RightSquareBrancket while parsing value.".to_string())
    );
    // The token that starts no value is left where it is.
    assert_eq!(
        parser.parse(),
        Err("Parse found an unexpected token RightSquareBrancket while parsing value.".to_string())
    );
}

#[test]
fn parse_nothing_fails_with_end_of_input() {
    assert_eq!(
        parse(""),
        Err("Parse reached end of input while parsing value.".to_string())
    );
    assert_eq!(
        Parser::new(VecDeque::new()).parse(),
        Err("Parse reached end of input while parsing value.".to_string())
    );
}

#[test]
fn parse_end_token_is_no_value() {
    let tokens: VecDeque<Token> = VecDeque::from(vec![Token::Eof]);
    assert_eq!(
        Parser::new(tokens).parse(),
        Err("Parse found an unexpected token Eof while parsing value.".to_string())
    );
}

#[test]
fn parse_missing_value_names_the_token_found() {
    assert_eq!(
        parse(r#"{"a":}"#),
        Err("Parse found an unexpected token RightCurlyBranckt while parsing value.".to_string())
    );
}

#[test]
fn parse_trailing_comma_fails() {
    assert_eq!(
        parse("[1,]"),
        Err("Parse found an unexpected token RightSquareBrancket while parsing value.".to_string())
    );
    assert_eq!(
        parse(r#"{"a":1,}"#),
        Err("Parse found an unexpected token RightCurlyBranckt while parsing string.".to_string())
    );
}

#[test]
fn parse_missing_colon_fails() {
    assert_eq!(
        parse(r#"{"a" 1}"#),
        Err(
            "Expected a token Colon, but found an unexpected token Number(\n    \"1\",\n)"
                .to_string()
        )
    );
    assert_eq!(
        parse(r#"{"a""#),
        Err("Expected a token Colon, but reached end of input".to_string())
    );
}

#[test]
fn parse_missing_comma_fails() {
    assert_eq!(
        parse(r#"[1 "x"]"#),
        Err(
            "Expected a token Comma, but found an unexpected token String(\n    \"x\",\n)"
                .to_string()
        )
    );
    assert_eq!(
        parse(r#"{"a":1 true}"#),
        Err(
            "Expected a token Comma, but found an unexpected token Boolean(\n    true,\n)"
                .to_string()
        )
    );
    assert_eq!(
        parse("[1:2]"),
        Err("Expected a token Comma, but found an unexpected token Colon".to_string())
    );
}

#[test]
fn parse_unclosed_container_fails_with_end_of_input() {
    assert_eq!(
        parse("[1"),
        Err("Expected a token Comma, but reached end of input".to_string())
    );
    assert_eq!(
        parse(r#"{"a":1"#),
        Err("Expected a token Comma, but reached end of input".to_string())
    );
    assert_eq!(
        parse("["),
        Err("Parse reached end of input while parsing value.".to_string())
    );
    assert_eq!(
        parse("{"),
        Err("Parse reached end of input while parsing string.".to_string())
    );
    assert_eq!(
        parse(r#"{"a":"#),
        Err("Parse reached end of input while parsing value.".to_string())
    );
}

#[test]
fn parse_key_that_is_no_string_fails() {
    assert_eq!(
        parse("{1:2}"),
        Err(
            "Parse found an unexpected token Number(\n    \"1\",\n) while parsing string."
                .to_string()
        )
    );
}

#[test]
fn parse_after_a_failure_the_tokens_taken_are_gone() {
    // `[`, `1` and the colon are taken; `2` and `]` are left.
    let tokens = Tokenizer::new("[1:2]").collect().unwrap();
    let mut parser = Parser::new(tokens);
    assert!(parser.parse().is_err());
    assert_eq!(parser.parse(), Ok(Node::Number("2".to_string())));
    assert_eq!(
        parser.parse(),
        Err("Parse found an unexpected token RightSquareBrancket while parsing value.".to_string())
    );
}

#[test]
fn parse_duplicate_key_keeps_first_place_and_last_value() {
    let node = parse(r#"{"a":1,"b":2,"a":3}"#).unwrap();
    match &node {
        Node::Object(members) => {
            assert_eq!(members.len(), 2);
            let (key, value) = members.get(0).unwrap();
            assert_eq!(key, "a");
            assert_eq!(value, &Node::Number("3".to_string()));
            let (key, value) = members.get(1).unwrap();
            assert_eq!(key, "b");
            assert_eq!(value, &Node::Number("2".to_string()));
            assert_eq!(members.get(2), None);
        }
        _ => panic!("an object was expected"),
    }
    assert_eq!(
        pretty(r#"{"a":1,"b":2,"a":3}"#, 1),
        Ok("{\n \"a\": 3,\n \"b\": 2\n}".to_string())
    );
}

#[test]
fn parse_nested_empty_containers() {
    assert_eq!(
        parse("[[],{},[{}]]"),
        Ok(Node::Array(vec![
            Node::Array(vec![]),
            Node::Object(Members::new()),
            Node::Array(vec![Node::Object(Members::new())]),
        ]))
    );
}

// ---------------------------------------------------------------------------
// Members
// ---------------------------------------------------------------------------

#[test]
fn members_start_empty() {
    let members = Members::new();
    assert_eq!(members.len(), 0);
    assert_eq!(members.get(0), None);
}

#[test]
fn members_insert_appends_new_keys_in_order() {
    let mut members = Members::new();
    members.insert("zebra".to_string(), Node::Null);
    members.insert("apple".to_string(), Node::Boolean(true));
    members.insert("mango".to_string(), Node::Number("1".to_string()));
    assert_eq!(members.len(), 3);
    assert_eq!(members.get(0), Some((&"zebra".to_string(), &Node::Null)));
    assert_eq!(members.get(1), Some((&"apple".to_string(), &Node::Boolean(true))));
    assert_eq!(
        members.get(2),
        Some((&"mango".to_string(), &Node::Number("1".to_string())))
    );
    assert_eq!(members.get(3), None);
}

#[test]
fn members_insert_replaces_the_value_in_place() {
    let mut members = Members::new();
    members.insert("a".to_string(), Node::Null);
    members.insert("b".to_string(), Node::Null);
    members.insert("a".to_string(), Node::Boolean(false));
    assert_eq!(members.len(), 2);
    assert_eq!(members.get(0), Some((&"a".to_string(), &Node::Boolean(false))));
    assert_eq!(members.get(1), Some((&"b".to_string(), &Node::Null)));
}

#[test]
fn members_from_pairs_inserts_in_turn() {
    let members = Members::from_pairs(vec![
        ("k2".to_string(), Node::Number("1".to_string())),
        ("k1".to_string(), Node::Number("2".to_string())),
        ("k2".to_string(), Node::Number("3".to_string())),
    ]);
    assert_eq!(members.len(), 2);
    assert_eq!(
        members.get(0),
        Some((&"k2".to_string(), &Node::Number("3".to_string())))
    );
    assert_eq!(
        members.get(1),
        Some((&"k1".to_string(), &Node::Number("2".to_string())))
    );
    assert_eq!(Members::from_pairs(vec![]).len(), 0);
}

// ---------------------------------------------------------------------------
// The three stages together
// ---------------------------------------------------------------------------

#[test]
fn pretty_primitive_literals() {
    assert_eq!(pretty("null", 4), Ok("null".to_string()));
    assert_eq!(pretty("true", 4), Ok("true".to_string()));
    assert_eq!(pretty("false", 4), Ok("false".to_string()));
    assert_eq!(pretty("0", 4), Ok("0".to_string()));
    assert_eq!(pretty("123", 4), Ok("123".to_string()));
    assert_eq!(pretty("-123", 4), Ok("-123".to_string()));
    assert_eq!(pretty("  \n 42 \t", 4), Ok("42".to_string()));
    assert_eq!(pretty(r#""apple""#, 4), Ok("\"apple\"".to_string()));
}

#[test]
fn pretty_string_is_written_decoded() {
    assert_eq!(
        pretty(r#""\"\\\/\b\f\n\r\t""#, 4),
        Ok("\"\"\\/\u{8}\u{c}\n\r\t\"".to_string())
    );
    assert_eq!(pretty(r#""a\/b""#, 4), Ok("\"a/b\"".to_string()));
}

#[test]
fn pretty_empty_containers_have_no_line_break() {
    for indent in [0, 1, 4] {
        assert_eq!(pretty("{}", indent), Ok("{}".to_string()));
        assert_eq!(pretty("[]", indent), Ok("[]".to_string()));
        assert_eq!(pretty(" { \n } ", indent), Ok("{}".to_string()));
        assert_eq!(pretty(" [ \n ] ", indent), Ok("[]".to_string()));
    }
    assert_eq!(
        pretty(r#"{"a":[],"b":{}}"#, 2),
        Ok("{\n  \"a\": [],\n  \"b\": {}\n}".to_string())
    );
}

#[test]
fn pretty_object_scenario() {
    assert_eq!(
        pretty(r#"{"elm1":123,"elm2":456,"elm3":"apple","elm4":false}"#, 4),
        Ok(format!(
            "{}\n{}\n{}\n{}\n{}\n{}",
            r#"{"#,
            r#"    "elm1": 123,"#,
            r#"    "elm2": 456,"#,
            r#"    "elm3": "apple","#,
            r#"    "elm4": false"#,
            r#"}"#
        ))
    );
}

#[test]
fn pretty_array_scenario() {
    let text = pretty(r#"[123,456,"apple",true]"#, 4).unwrap();
    assert_eq!(text, "[\n    123,\n    456,\n    \"apple\",\n    true\n]");
    assert_eq!(text.lines().count(), 6);
}

#[test]
fn pretty_nested_scenario() {
    let input = format!(
        "{}\n{}\n{}\n{}\n{}\n{}\n{}\n{}\n{}\n{}\n{}\n{}\n{}\n{}\n",
        r#"{"#,
        r#"   "Image": {"#,
        r#"       "Width":  800,"#,
        r#"       "Height": 600,"#,
        r#"       "Title":  "View from 15th Floor","#,
        r#"       "Thumbnail": {"#,
        r#"           "Url":    "http://www.example.com/image/481989943","#,
        r#"           "Height": 125,"#,
        r#"           "Width":  100"#,
        r#"       },"#,
        r#"       "Animated" : false,"#,
        r#"       "IDs": [116, 943, 234, 38793]"#,
        r#"     }"#,
        r#"}"#,
    );
    let expected = format!(
        "{}\n{}\n{}\n{}\n{}\n{}\n{}\n{}\n{}\n{}\n{}\n{}\n{}\n{}\n{}\n{}\n{}\n{}\n{}",
        r#"{"#,
        r#"    "Image": {"#,
        r#"        "Width": 800,"#,
        r#"        "Height": 600,"#,
        r#"        "Title": "View from 15th Floor","#,
        r#"        "Thumbnail": {"#,
        r#"            "Url": "http://www.example.com/image/481989943","#,
        r#"            "Height": 125,"#,
        r#"            "Width": 100"#,
        r#"        },"#,
        r#"        "Animated": false,"#,
        r#"        "IDs": ["#,
        r#"            116,"#,
        r#"            943,"#,
        r#"            234,"#,
        r#"            38793"#,
        r#"        ]"#,
        r#"    }"#,
        r#"}"#,
    );
    assert_eq!(pretty_json(input, 4), Ok(expected));
}

#[test]
fn pretty_indent_width_is_per_level() {
    let json = r#"{"a":[1,{"b":[]}]}"#;
    assert_eq!(
        pretty(json, 0),
        Ok("{\n\"a\": [\n1,\n{\n\"b\": []\n}\n]\n}".to_string())
    );
    assert_eq!(
        pretty(json, 1),
        Ok("{\n \"a\": [\n  1,\n  {\n   \"b\": []\n  }\n ]\n}".to_string())
    );
    assert_eq!(
        pretty(json, 3),
        Ok("{\n   \"a\": [\n      1,\n      {\n         \"b\": []\n      }\n   ]\n}".to_string())
    );
}

#[test]
fn pretty_keeps_the_order_of_the_keys() {
    assert_eq!(
        pretty(r#"{"zebra":1,"apple":2,"mango":3}"#, 2),
        Ok("{\n  \"zebra\": 1,\n  \"apple\": 2,\n  \"mango\": 3\n}".to_string())
    );
}

#[test]
fn pretty_again_changes_nothing() {
    let inputs = [
        "null",
        "-12",
        r#""a/b c""#,
        "[]",
        "{}",
        r#"[123,456,"apple",true]"#,
        r#"{"elm1":123,"elm2":456,"elm3":"apple","elm4":false}"#,
        r#"{"a":{"b":[1,[2,[]],{"c":null}],"d":{}},"a":[true]}"#,
    ];
    for indent in [0, 1, 2, 4, 7] {
        for input in inputs {
            let once = pretty(input, indent).unwrap();
            assert_eq!(pretty(&once, indent), Ok(once.clone()));
            assert_eq!(parse(&once), parse(input));
        }
    }
}

#[test]
fn pretty_again_fails_on_a_string_that_needs_an_escape() {
    let once = pretty(r#""a\"b""#, 4).unwrap();
    assert_eq!(once, "\"a\"b\"");
    assert_ne!(pretty(&once, 4), Ok(once));
}

#[test]
fn pretty_reports_the_tokenizer_before_the_parser() {
    // The text is scanned to its end before anything is parsed.
    assert_eq!(
        pretty("] tru", 4),
        Err("The tokenizer expected e, but reached EOF.".to_string())
    );
    assert_eq!(
        pretty("]", 4),
        Err("Parse found an unexpected token RightSquareBrancket while parsing value.".to_string())
    );
    assert_eq!(
        pretty("\"abc", 4),
        Err(
            "The tokenizer reached EOF before finding \" which represents the end of a string"
                .to_string()
        )
    );
}

#[test]
fn pretty_ignores_what_follows_the_value() {
    assert_eq!(pretty("1 2", 4), Ok("1".to_string()));
    assert_eq!(pretty("[] ]", 4), Ok("[]".to_string()));
}
