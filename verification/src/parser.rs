//! The parser: from tokens to one document, by recursive descent.
//!
//! The grammar is specified by [`parse_value`], a function from the tokens
//! that are left to the document (or the failure) they start with and the
//! tokens left after it. [`Parser::parse`] computes exactly that function on
//! the parser's remaining tokens.
use crate::document::{insert_member, Document};
use crate::members::Members;
use crate::tokenizer::{describe, tokens_view, Token, TokenView};
use std::collections::VecDeque;
use vstd::prelude::*;
use vstd::string::StringExecFns;

verus! {

/// A parsed JSON value: the tree that the parser builds and the generator
/// writes out.
#[derive(Debug, PartialEq, Eq)]
pub enum Node {
    Null,
    Object(Members),
    Array(Vec<Node>),
    Boolean(bool),
    Number(String),
    String(String),
}

impl View for Node {
    type V = Document;

    open spec fn view(&self) -> Document
        decreases self,
    {
        match self {
            Node::Null => Document::Null,
            Node::Object(members) => Document::Object(members@),
            Node::Array(items) => Document::Array(
                Seq::new(
                    items.len() as nat,
                    |i: int|
                        if 0 <= i < items.len() {
                            items[i].view()
                        } else {
                            Document::Null
                        },
                ),
            ),
            Node::Boolean(b) => Document::Boolean(*b),
            Node::Number(text) => Document::Number(text@),
            Node::String(text) => Document::String(text@),
        }
    }
}

/// The values of a sequence of nodes.
pub open spec fn nodes_view(nodes: Seq<Node>) -> Seq<Document> {
    nodes.map_values(|node: Node| node@)
}

/// The value of an array node is the array of its items' values.
pub proof fn lemma_array_view(items: Vec<Node>)
    ensures
        Node::Array(items)@ == Document::Array(nodes_view(items@)),
{
    assert(Node::Array(items)@->Array_0 =~= nodes_view(items@));
}

/// The value of what a parsing function returns: the document, or the text
/// of the failure.
pub open spec fn node_result_view(r: Result<Node, String>) -> Result<Document, Seq<char>> {
    match r {
        Ok(node) => Ok(node@),
        Err(message) => Err(message@),
    }
}

/// The value of what parsing a member returns.
pub open spec fn member_result_view(r: Result<(String, Node), String>) -> Result<
    (Seq<char>, Document),
    Seq<char>,
> {
    match r {
        Ok(member) => Ok((member.0@, member.1@)),
        Err(message) => Err(message@),
    }
}

/// The value of a result that holds nothing but a failure.
pub open spec fn unit_result_view(r: Result<(), String>) -> Result<(), Seq<char>> {
    match r {
        Ok(()) => Ok(()),
        Err(message) => Err(message@),
    }
}

/// What parsing one value yields: the document or the text of the failure,
/// and the tokens that are left afterwards.
pub struct Parsed {
    pub outcome: Result<Document, Seq<char>>,
    pub rest: Seq<TokenView>,
}

/// What parsing one member of an object yields.
pub struct ParsedMember {
    pub outcome: Result<(Seq<char>, Document), Seq<char>>,
    pub rest: Seq<TokenView>,
}

// ---------------------------------------------------------------------------
// The texts of the failures
// ---------------------------------------------------------------------------

/// The token `found` stood where `what` had to begin.
pub open spec fn unexpected_token_text(found: TokenView, what: Seq<char>) -> Seq<char> {
    "Parse found an unexpected token "@ + describe(found) + " while parsing "@ + what + "."@
}

/// The tokens ended where `what` had to begin.
pub open spec fn end_of_input_text(what: Seq<char>) -> Seq<char> {
    "Parse reached end of input while parsing "@ + what + "."@
}

/// The token `found` stood where `expected` had to stand.
pub open spec fn expected_token_text(expected: TokenView, found: TokenView) -> Seq<char> {
    "Expected a token "@ + describe(expected) + ", but found an unexpected token "@ + describe(
        found,
    )
}

/// The tokens ended where `expected` had to stand.
pub open spec fn expected_end_text(expected: TokenView) -> Seq<char> {
    "Expected a token "@ + describe(expected) + ", but reached end of input"@
}

// ---------------------------------------------------------------------------
// The grammar as a function on tokens
//
//   value   := object | array | number | string | boolean | null
//   object  := '{' '}' | '{' member (',' member)* '}'
//   member  := string ':' value
//   array   := '[' ']' | '[' value (',' value)* ']'
// ---------------------------------------------------------------------------

/// `tokens` without their first, if they have one.
pub open spec fn after_one(tokens: Seq<TokenView>) -> Seq<TokenView> {
    if tokens.len() > 0 {
        tokens.skip(1)
    } else {
        tokens
    }
}

/// Whether `tokens` start with `token`.
pub open spec fn starts_with(tokens: Seq<TokenView>, token: TokenView) -> bool {
    tokens.len() > 0 && tokens[0] == token
}

/// Takes one token, which has to be `expected`. The token is taken whether it
/// is the expected one or not.
pub open spec fn consume_spec(tokens: Seq<TokenView>, expected: TokenView) -> Result<
    (),
    Seq<char>,
> {
    if tokens.len() == 0 {
        Err(expected_end_text(expected))
    } else if tokens[0] != expected {
        Err(expected_token_text(expected, tokens[0]))
    } else {
        Ok(())
    }
}

/// Takes one token, which has to be a number.
pub open spec fn parse_number(tokens: Seq<TokenView>) -> Parsed {
    if tokens.len() == 0 {
        Parsed { outcome: Err(end_of_input_text("int"@)), rest: tokens }
    } else {
        match tokens[0] {
            TokenView::Number(text) => Parsed {
                outcome: Ok(Document::Number(text)),
                rest: tokens.skip(1),
            },
            other => Parsed {
                outcome: Err(unexpected_token_text(other, "int"@)),
                rest: tokens.skip(1),
            },
        }
    }
}

/// Takes one token, which has to be a string.
pub open spec fn parse_string(tokens: Seq<TokenView>) -> Parsed {
    if tokens.len() == 0 {
        Parsed { outcome: Err(end_of_input_text("string"@)), rest: tokens }
    } else {
        match tokens[0] {
            TokenView::String(text) => Parsed {
                outcome: Ok(Document::String(text)),
                rest: tokens.skip(1),
            },
            other => Parsed {
                outcome: Err(unexpected_token_text(other, "string"@)),
                rest: tokens.skip(1),
            },
        }
    }
}

/// Takes one token, which has to be a truth value.
pub open spec fn parse_boolean(tokens: Seq<TokenView>) -> Parsed {
    if tokens.len() == 0 {
        Parsed { outcome: Err(end_of_input_text("boolean"@)), rest: tokens }
    } else {
        match tokens[0] {
            TokenView::Boolean(b) => Parsed {
                outcome: Ok(Document::Boolean(b)),
                rest: tokens.skip(1),
            },
            other => Parsed {
                outcome: Err(unexpected_token_text(other, "boolean"@)),
                rest: tokens.skip(1),
            },
        }
    }
}

/// Takes one token, which has to be `null`.
pub open spec fn parse_null(tokens: Seq<TokenView>) -> Parsed {
    if tokens.len() == 0 {
        Parsed { outcome: Err(end_of_input_text("null"@)), rest: tokens }
    } else {
        match tokens[0] {
            TokenView::Null => Parsed { outcome: Ok(Document::Null), rest: tokens.skip(1) },
            other => Parsed {
                outcome: Err(unexpected_token_text(other, "null"@)),
                rest: tokens.skip(1),
            },
        }
    }
}

/// Parses the value that `tokens` start with. A token that starts no value is
/// reported and left where it is.
pub open spec fn parse_value(tokens: Seq<TokenView>) -> Parsed
    decreases tokens.len(), 3int,
{
    if tokens.len() == 0 {
        Parsed { outcome: Err(end_of_input_text("value"@)), rest: tokens }
    } else {
        match tokens[0] {
            TokenView::LeftCurlyBranckt => parse_object(tokens),
            TokenView::LeftSquareBrancket => parse_array(tokens),
            TokenView::Number(_) => parse_number(tokens),
            TokenView::String(_) => parse_string(tokens),
            TokenView::Boolean(_) => parse_boolean(tokens),
            TokenView::Null => parse_null(tokens),
            other => Parsed { outcome: Err(unexpected_token_text(other, "value"@)), rest: tokens },
        }
    }
}

/// Parses an object: `{`, then `}` at once or the members.
pub open spec fn parse_object(tokens: Seq<TokenView>) -> Parsed
    decreases tokens.len(), 2int,
{
    match consume_spec(tokens, TokenView::LeftCurlyBranckt) {
        Err(message) => Parsed { outcome: Err(message), rest: after_one(tokens) },
        Ok(()) => if starts_with(tokens.skip(1), TokenView::RightCurlyBranckt) {
            Parsed { outcome: Ok(Document::Object(Seq::empty())), rest: tokens.skip(2) }
        } else {
            parse_member_list(tokens.skip(1), Seq::empty())
        },
    }
}

/// Parses a member and what follows it in an object; `members` are the
/// members parsed so far. A key that `members` has already gets the new
/// value in its old place.
pub open spec fn parse_member_list(
    tokens: Seq<TokenView>,
    members: Seq<(Seq<char>, Document)>,
) -> Parsed
    decreases tokens.len(), 1int,
{
    let first = parse_member(tokens);
    match first.outcome {
        Err(message) => Parsed { outcome: Err(message), rest: first.rest },
        Ok((key, value)) => if first.rest.len() < tokens.len() {
            parse_member_tail(first.rest, insert_member(members, key, value))
        } else {
            // Never: a member takes three tokens at least.
            Parsed { outcome: Ok(Document::Object(members)), rest: first.rest }
        },
    }
}

/// Parses what follows a member in an object: `}`, or `,` and more members.
pub open spec fn parse_member_tail(
    tokens: Seq<TokenView>,
    members: Seq<(Seq<char>, Document)>,
) -> Parsed
    decreases tokens.len(), 2int,
{
    if starts_with(tokens, TokenView::RightCurlyBranckt) {
        Parsed { outcome: Ok(Document::Object(members)), rest: tokens.skip(1) }
    } else {
        match consume_spec(tokens, TokenView::Comma) {
            Err(message) => Parsed { outcome: Err(message), rest: after_one(tokens) },
            Ok(()) => parse_member_list(tokens.skip(1), members),
        }
    }
}

/// Parses one member: a string, `:` and a value.
pub open spec fn parse_member(tokens: Seq<TokenView>) -> ParsedMember
    decreases tokens.len(), 0int,
{
    let key = parse_string(tokens);
    match key.outcome {
        Err(message) => ParsedMember { outcome: Err(message), rest: key.rest },
        Ok(name) => match consume_spec(key.rest, TokenView::Colon) {
            Err(message) => ParsedMember { outcome: Err(message), rest: after_one(key.rest) },
            Ok(()) => {
                let value = parse_value(tokens.skip(2));
                match value.outcome {
                    Err(message) => ParsedMember { outcome: Err(message), rest: value.rest },
                    Ok(document) => ParsedMember {
                        outcome: Ok((name->String_0, document)),
                        rest: value.rest,
                    },
                }
            },
        },
    }
}

/// Parses an array: `[`, then `]` at once or the items.
pub open spec fn parse_array(tokens: Seq<TokenView>) -> Parsed
    decreases tokens.len(), 2int,
{
    match consume_spec(tokens, TokenView::LeftSquareBrancket) {
        Err(message) => Parsed { outcome: Err(message), rest: after_one(tokens) },
        Ok(()) => if starts_with(tokens.skip(1), TokenView::RightSquareBrancket) {
            Parsed { outcome: Ok(Document::Array(Seq::empty())), rest: tokens.skip(2) }
        } else {
            parse_item_list(tokens.skip(1), Seq::empty())
        },
    }
}

/// Parses an item and what follows it in an array; `items` are the items
/// parsed so far.
pub open spec fn parse_item_list(tokens: Seq<TokenView>, items: Seq<Document>) -> Parsed
    decreases tokens.len(), 4int,
{
    let first = parse_value(tokens);
    match first.outcome {
        Err(message) => Parsed { outcome: Err(message), rest: first.rest },
        Ok(item) => if first.rest.len() < tokens.len() {
            parse_item_tail(first.rest, items.push(item))
        } else {
            // Never: a value takes one token at least.
            Parsed { outcome: Ok(Document::Array(items)), rest: first.rest }
        },
    }
}

/// Parses what follows an item in an array: `]`, or `,` and more items.
pub open spec fn parse_item_tail(tokens: Seq<TokenView>, items: Seq<Document>) -> Parsed
    decreases tokens.len(), 2int,
{
    if starts_with(tokens, TokenView::RightSquareBrancket) {
        Parsed { outcome: Ok(Document::Array(items)), rest: tokens.skip(1) }
    } else {
        match consume_spec(tokens, TokenView::Comma) {
            Err(message) => Parsed { outcome: Err(message), rest: after_one(tokens) },
            Ok(()) => parse_item_list(tokens.skip(1), items),
        }
    }
}

/// Parsing one member never lengthens the tokens, and a member that was
/// parsed has taken tokens.
pub proof fn lemma_parse_member_consumes(tokens: Seq<TokenView>)
    ensures
        parse_member(tokens).rest.len() <= tokens.len(),
        parse_member(tokens).outcome is Ok ==> parse_member(tokens).rest.len() < tokens.len(),
    decreases tokens.len(), 0int,
{
    if tokens.len() >= 2 {
        lemma_parse_value_consumes(tokens.skip(2));
    }
}

/// Parsing the members of an object never lengthens the tokens, and members
/// that were parsed have taken tokens.
pub proof fn lemma_parse_member_list_consumes(
    tokens: Seq<TokenView>,
    members: Seq<(Seq<char>, Document)>,
)
    ensures
        parse_member_list(tokens, members).rest.len() <= tokens.len(),
        parse_member_list(tokens, members).outcome is Ok ==> parse_member_list(
            tokens,
            members,
        ).rest.len() < tokens.len(),
    decreases tokens.len(), 1int,
{
    lemma_parse_member_consumes(tokens);
    let first = parse_member(tokens);
    if let Ok((key, value)) = first.outcome {
        lemma_parse_member_tail_consumes(first.rest, insert_member(members, key, value));
    }
}

/// Parsing what follows a member never lengthens the tokens, and takes one
/// token at least where it ends well.
pub proof fn lemma_parse_member_tail_consumes(
    tokens: Seq<TokenView>,
    members: Seq<(Seq<char>, Document)>,
)
    ensures
        parse_member_tail(tokens, members).rest.len() <= tokens.len(),
        parse_member_tail(tokens, members).outcome is Ok ==> parse_member_tail(
            tokens,
            members,
        ).rest.len() < tokens.len(),
    decreases tokens.len(), 2int,
{
    if tokens.len() > 0 && !starts_with(tokens, TokenView::RightCurlyBranckt) {
        lemma_parse_member_list_consumes(tokens.skip(1), members);
    }
}

/// Parsing the items of an array never lengthens the tokens, and items that
/// were parsed have taken tokens.
pub proof fn lemma_parse_item_list_consumes(tokens: Seq<TokenView>, items: Seq<Document>)
    ensures
        parse_item_list(tokens, items).rest.len() <= tokens.len(),
        parse_item_list(tokens, items).outcome is Ok ==> parse_item_list(tokens, items).rest.len()
            < tokens.len(),
    decreases tokens.len(), 4int,
{
    lemma_parse_value_consumes(tokens);
    let first = parse_value(tokens);
    if let Ok(item) = first.outcome {
        lemma_parse_item_tail_consumes(first.rest, items.push(item));
    }
}

/// Parsing what follows an item never lengthens the tokens, and takes one
/// token at least where it ends well.
pub proof fn lemma_parse_item_tail_consumes(tokens: Seq<TokenView>, items: Seq<Document>)
    ensures
        parse_item_tail(tokens, items).rest.len() <= tokens.len(),
        parse_item_tail(tokens, items).outcome is Ok ==> parse_item_tail(tokens, items).rest.len()
            < tokens.len(),
    decreases tokens.len(), 2int,
{
    if tokens.len() > 0 && !starts_with(tokens, TokenView::RightSquareBrancket) {
        lemma_parse_item_list_consumes(tokens.skip(1), items);
    }
}

/// Parsing a value never lengthens the tokens, and a value that was parsed
/// has taken one token at least.
pub proof fn lemma_parse_value_consumes(tokens: Seq<TokenView>)
    ensures
        parse_value(tokens).rest.len() <= tokens.len(),
        parse_value(tokens).outcome is Ok ==> parse_value(tokens).rest.len() < tokens.len(),
    decreases tokens.len(), 3int,
{
    if tokens.len() > 0 {
        match tokens[0] {
            TokenView::LeftCurlyBranckt => {
                if !starts_with(tokens.skip(1), TokenView::RightCurlyBranckt) {
                    lemma_parse_member_list_consumes(tokens.skip(1), Seq::empty());
                }
            },
            TokenView::LeftSquareBrancket => {
                if !starts_with(tokens.skip(1), TokenView::RightSquareBrancket) {
                    lemma_parse_item_list_consumes(tokens.skip(1), Seq::empty());
                }
            },
            _ => {},
        }
    }
}

// ---------------------------------------------------------------------------
// The failures as strings
// ---------------------------------------------------------------------------

fn unexpected_token(found: &Token, what: &str) -> (r: String)
    ensures
        r@ == unexpected_token_text(found@, what@),
{
    let mut message = String::from_str("Parse found an unexpected token ");
    message.append(found.describe().as_str());
    message.append(" while parsing ");
    message.append(what);
    message.append(".");
    message
}

fn end_of_input(what: &str) -> (r: String)
    ensures
        r@ == end_of_input_text(what@),
{
    let mut message = String::from_str("Parse reached end of input while parsing ");
    message.append(what);
    message.append(".");
    message
}

fn expected_token(expected: &Token, found: &Token) -> (r: String)
    ensures
        r@ == expected_token_text(expected@, found@),
{
    let mut message = String::from_str("Expected a token ");
    message.append(expected.describe().as_str());
    message.append(", but found an unexpected token ");
    message.append(found.describe().as_str());
    message
}

fn expected_end(expected: &Token) -> (r: String)
    ensures
        r@ == expected_end_text(expected@),
{
    let mut message = String::from_str("Expected a token ");
    message.append(expected.describe().as_str());
    message.append(", but reached end of input");
    message
}

// ---------------------------------------------------------------------------
// The parser
// ---------------------------------------------------------------------------

/// A cursor over the tokens: it holds the tokens not yet consumed, and every
/// value it parses is cut from their front.
pub struct Parser {
    tokens: VecDeque<Token>,
}

impl View for Parser {
    type V = Seq<TokenView>;

    /// The tokens not yet consumed.
    closed spec fn view(&self) -> Seq<TokenView> {
        tokens_view(self.tokens@)
    }
}

impl Parser {
    /// A parser at the start of `tokens`.
    pub fn new(tokens: VecDeque<Token>) -> (r: Self)
        ensures
            r@ == tokens_view(tokens@),
    {
        Self { tokens }
    }

    /// Parses the value that the tokens start with and moves past it. Tokens
    /// that follow the value are left in the parser. After a failure the
    /// parser stands where [`parse_value`] says.
    pub fn parse(&mut self) -> (r: Result<Node, String>)
        ensures
            node_result_view(r) == parse_value(old(self)@).outcome,
            final(self)@ == parse_value(old(self)@).rest,
    {
        self.json_text()
    }

    fn json_text(&mut self) -> (r: Result<Node, String>)
        ensures
            node_result_view(r) == parse_value(old(self)@).outcome,
            final(self)@ == parse_value(old(self)@).rest,
    {
        self.value()
    }

    fn value(&mut self) -> (r: Result<Node, String>)
        ensures
            node_result_view(r) == parse_value(old(self)@).outcome,
            final(self)@ == parse_value(old(self)@).rest,
        decreases old(self)@.len(), 3int,
    {
        match self.front() {
            Some(Token::LeftCurlyBranckt) => self.object(),
            Some(Token::LeftSquareBrancket) => self.array(),
            Some(Token::Number(_)) => self.number(),
            Some(Token::String(_)) => self.string(),
            Some(Token::Boolean(_)) => self.boolean(),
            Some(Token::Null) => self.null(),
            Some(token) => Err(unexpected_token(token, "value")),
            None => Err(end_of_input("value")),
        }
    }

    /// Takes the next token, which has to be `token`.
    fn consume(&mut self, token: Token) -> (r: Result<(), String>)
        ensures
            unit_result_view(r) == consume_spec(old(self)@, token@),
            final(self)@ == after_one(old(self)@),
    {
        match self.pop() {
            Some(head) => {
                if head.same_as(&token) {
                    Ok(())
                } else {
                    Err(expected_token(&token, &head))
                }
            },
            None => Err(expected_end(&token)),
        }
    }

    /// Takes the next token if it is `token`, and tells whether it did.
    fn accept(&mut self, token: Token) -> (r: bool)
        ensures
            r == starts_with(old(self)@, token@),
            final(self)@ == (if r {
                old(self)@.skip(1)
            } else {
                old(self)@
            }),
    {
        let found = match self.front() {
            Some(head) => head.same_as(&token),
            None => false,
        };
        if found {
            self.pop();
        }
        found
    }

    fn front(&self) -> (r: Option<&Token>)
        ensures
            match r {
                Some(token) => self@.len() > 0 && token@ == self@[0],
                None => self@.len() == 0,
            },
    {
        if self.tokens.len() > 0 {
            Some(&self.tokens[0])
        } else {
            None
        }
    }

    fn pop(&mut self) -> (r: Option<Token>)
        ensures
            match r {
                Some(token) => old(self)@.len() > 0 && token@ == old(self)@[0],
                None => old(self)@.len() == 0,
            },
            final(self)@ == after_one(old(self)@),
    {
        let r = self.tokens.pop_front();
        assert(self@ == after_one(old(self)@));
        r
    }

    fn object(&mut self) -> (r: Result<Node, String>)
        ensures
            node_result_view(r) == parse_object(old(self)@).outcome,
            final(self)@ == parse_object(old(self)@).rest,
        decreases old(self)@.len(), 2int,
    {
        let mut kvm = Members::new();
        self.consume(Token::LeftCurlyBranckt)?;

        if self.accept(Token::RightCurlyBranckt) {
            assert(self@ == old(self)@.skip(2));
            return Ok(Node::Object(kvm));
        }
        proof {
            lemma_parse_member_consumes(self@);
        }
        let (key, value) = self.member()?;
        kvm.insert(key, value);

        loop
            invariant_except_break
                parse_member_tail(self@, kvm@) == parse_object(old(self)@),
                self@.len() < old(self)@.len(),
            ensures
                node_result_view(Ok(Node::Object(kvm))) == parse_object(old(self)@).outcome,
                self@ == parse_object(old(self)@).rest,
            decreases self@.len(),
        {
            if self.accept(Token::RightCurlyBranckt) {
                break ;
            }
            self.consume(Token::Comma)?;
            proof {
                lemma_parse_member_consumes(self@);
            }
            let (key, value) = self.member()?;
            kvm.insert(key, value);
        }

        Ok(Node::Object(kvm))
    }

    fn member(&mut self) -> (r: Result<(String, Node), String>)
        ensures
            member_result_view(r) == parse_member(old(self)@).outcome,
            final(self)@ == parse_member(old(self)@).rest,
        decreases old(self)@.len(), 0int,
    {
        let key = match self.string()? {
            Node::String(value) => value,
            _ => {
                assert(false);
                String::new()
            },
        };

        self.consume(Token::Colon)?;
        assert(self@ == old(self)@.skip(2));

        let value = self.value()?;

        Ok((key, value))
    }

    fn array(&mut self) -> (r: Result<Node, String>)
        ensures
            node_result_view(r) == parse_array(old(self)@).outcome,
            final(self)@ == parse_array(old(self)@).rest,
        decreases old(self)@.len(), 2int,
    {
        let mut values: Vec<Node> = Vec::new();
        self.consume(Token::LeftSquareBrancket)?;

        if self.accept(Token::RightSquareBrancket) {
            assert(self@ == old(self)@.skip(2));
            proof {
                lemma_array_view(values);
                assert(nodes_view(values@) == Seq::<Document>::empty());
            }
            return Ok(Node::Array(values));
        }
        proof {
            lemma_parse_value_consumes(self@);
        }
        let first = self.value()?;
        values.push(first);
        assert(nodes_view(values@) == Seq::<Document>::empty().push(first@));

        loop
            invariant_except_break
                parse_item_tail(self@, nodes_view(values@)) == parse_array(old(self)@),
                self@.len() < old(self)@.len(),
            ensures
                node_result_view(Ok(Node::Array(values))) == parse_array(old(self)@).outcome,
                self@ == parse_array(old(self)@).rest,
            decreases self@.len(),
        {
            if self.accept(Token::RightSquareBrancket) {
                proof {
                    lemma_array_view(values);
                }
                break ;
            }
            self.consume(Token::Comma)?;
            proof {
                lemma_parse_value_consumes(self@);
            }
            let ghost before = nodes_view(values@);
            let next = self.value()?;
            values.push(next);
            assert(nodes_view(values@) == before.push(next@));
        }

        Ok(Node::Array(values))
    }

    fn number(&mut self) -> (r: Result<Node, String>)
        ensures
            node_result_view(r) == parse_number(old(self)@).outcome,
            final(self)@ == parse_number(old(self)@).rest,
    {
        match self.pop() {
            Some(Token::Number(num)) => Ok(Node::Number(num)),
            Some(other) => Err(unexpected_token(&other, "int")),
            None => Err(end_of_input("int")),
        }
    }

    fn boolean(&mut self) -> (r: Result<Node, String>)
        ensures
            node_result_view(r) == parse_boolean(old(self)@).outcome,
            final(self)@ == parse_boolean(old(self)@).rest,
    {
        match self.pop() {
            Some(Token::Boolean(v)) => Ok(Node::Boolean(v)),
            Some(other) => Err(unexpected_token(&other, "boolean")),
            None => Err(end_of_input("boolean")),
        }
    }

    fn null(&mut self) -> (r: Result<Node, String>)
        ensures
            node_result_view(r) == parse_null(old(self)@).outcome,
            final(self)@ == parse_null(old(self)@).rest,
    {
        match self.pop() {
            Some(Token::Null) => Ok(Node::Null),
            Some(other) => Err(unexpected_token(&other, "null")),
            None => Err(end_of_input("null")),
        }
    }

    fn string(&mut self) -> (r: Result<Node, String>)
        ensures
            node_result_view(r) == parse_string(old(self)@).outcome,
            final(self)@ == parse_string(old(self)@).rest,
            r matches Ok(node) ==> node is String,
    {
        match self.pop() {
            Some(Token::String(value)) => Ok(Node::String(value)),
            Some(other) => Err(unexpected_token(&other, "string")),
            None => Err(end_of_input("string")),
        }
    }
}

} // verus!
