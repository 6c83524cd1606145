//! The tokenizer: from characters to tokens, one token per call.
//!
//! The scanner is specified by [`lex`], a function from the characters that
//! are left to the token (or the failure) they start with and the characters
//! left after it. [`Tokenizer::next_token`] computes exactly that function on
//! the tokenizer's remaining input.
use crate::json_util::{escape, is_digit, is_escape_target, is_unescaped, is_whitespace};
use crate::json_util::{
    spec_escape, spec_is_digit, spec_is_escape_target, spec_is_unescaped, spec_is_whitespace,
};
use crate::text::{debug_string, debug_text};
use std::collections::VecDeque;
use vstd::prelude::*;
use vstd::string::StringExecFns;

verus! {

/// One lexical unit. A number keeps the text it was written with; a string
/// holds its decoded text, without the quotes and with every escape resolved.
#[derive(Debug, PartialEq, Eq)]
pub enum Token {
    Null,
    Number(String),
    String(String),
    Boolean(bool),
    Colon,
    Comma,
    LeftSquareBrancket,
    RightSquareBrancket,
    LeftCurlyBranckt,
    RightCurlyBranckt,
    Eof,
}

/// The mathematical value of a [`Token`].
pub enum TokenView {
    Null,
    Number(Seq<char>),
    String(Seq<char>),
    Boolean(bool),
    Colon,
    Comma,
    LeftSquareBrancket,
    RightSquareBrancket,
    LeftCurlyBranckt,
    RightCurlyBranckt,
    Eof,
}

impl View for Token {
    type V = TokenView;

    open spec fn view(&self) -> TokenView {
        match self {
            Token::Null => TokenView::Null,
            Token::Number(text) => TokenView::Number(text@),
            Token::String(text) => TokenView::String(text@),
            Token::Boolean(b) => TokenView::Boolean(*b),
            Token::Colon => TokenView::Colon,
            Token::Comma => TokenView::Comma,
            Token::LeftSquareBrancket => TokenView::LeftSquareBrancket,
            Token::RightSquareBrancket => TokenView::RightSquareBrancket,
            Token::LeftCurlyBranckt => TokenView::LeftCurlyBranckt,
            Token::RightCurlyBranckt => TokenView::RightCurlyBranckt,
            Token::Eof => TokenView::Eof,
        }
    }
}

/// The text that names a token that holds a value: the name of the variant,
/// and the value, as `written`, in parentheses on a line of its own.
pub open spec fn holding_text(name: Seq<char>, written: Seq<char>) -> Seq<char> {
    name + "(\n    "@ + written + ",\n)"@
}

/// The text that names `token` in a message: the name of its variant, and for
/// a token that holds a text or a truth value, that value as [`holding_text`]
/// puts it. A text is written as `{:?}` writes a string, so the whole is the
/// text that `{:#?}` writes for the token.
pub open spec fn describe(token: TokenView) -> Seq<char> {
    match token {
        TokenView::Null => "Null"@,
        TokenView::Number(text) => holding_text("Number"@, debug_text(text)),
        TokenView::String(text) => holding_text("String"@, debug_text(text)),
        TokenView::Boolean(b) => holding_text(
            "Boolean"@,
            if b {
                "true"@
            } else {
                "false"@
            },
        ),
        TokenView::Colon => "Colon"@,
        TokenView::Comma => "Comma"@,
        TokenView::LeftSquareBrancket => "LeftSquareBrancket"@,
        TokenView::RightSquareBrancket => "RightSquareBrancket"@,
        TokenView::LeftCurlyBranckt => "LeftCurlyBranckt"@,
        TokenView::RightCurlyBranckt => "RightCurlyBranckt"@,
        TokenView::Eof => "Eof"@,
    }
}

/// The text that names a token that holds a value, from the name of the
/// variant and the value as it is to be written.
pub fn describe_holding(name: &str, written: &str) -> (r: String)
    ensures
        r@ == holding_text(name@, written@),
{
    let mut r = String::from_str(name);
    r.append("(\n    ");
    r.append(written);
    r.append(",\n)");
    r
}

impl Token {
    /// Whether the two tokens are the same: the same variant, holding the
    /// same value.
    pub fn same_as(&self, other: &Token) -> (r: bool)
        ensures
            r == (self@ == other@),
    {
        match self {
            Token::Null => matches!(other, Token::Null),
            Token::Number(a) => match other {
                Token::Number(b) => *a == *b,
                _ => false,
            },
            Token::String(a) => match other {
                Token::String(b) => *a == *b,
                _ => false,
            },
            Token::Boolean(a) => match other {
                Token::Boolean(b) => *a == *b,
                _ => false,
            },
            Token::Colon => matches!(other, Token::Colon),
            Token::Comma => matches!(other, Token::Comma),
            Token::LeftSquareBrancket => matches!(other, Token::LeftSquareBrancket),
            Token::RightSquareBrancket => matches!(other, Token::RightSquareBrancket),
            Token::LeftCurlyBranckt => matches!(other, Token::LeftCurlyBranckt),
            Token::RightCurlyBranckt => matches!(other, Token::RightCurlyBranckt),
            Token::Eof => matches!(other, Token::Eof),
        }
    }

    /// The text that names the token in a message.
    pub fn describe(&self) -> (r: String)
        ensures
            r@ == describe(self@),
    {
        match self {
            Token::Null => String::from_str("Null"),
            Token::Number(text) => describe_holding(
                "Number",
                debug_string(text.as_str()).as_str(),
            ),
            Token::String(text) => describe_holding(
                "String",
                debug_string(text.as_str()).as_str(),
            ),
            Token::Boolean(b) => describe_holding(
                "Boolean",
                if *b {
                    "true"
                } else {
                    "false"
                },
            ),
            Token::Colon => String::from_str("Colon"),
            Token::Comma => String::from_str("Comma"),
            Token::LeftSquareBrancket => String::from_str("LeftSquareBrancket"),
            Token::RightSquareBrancket => String::from_str("RightSquareBrancket"),
            Token::LeftCurlyBranckt => String::from_str("LeftCurlyBranckt"),
            Token::RightCurlyBranckt => String::from_str("RightCurlyBranckt"),
            Token::Eof => String::from_str("Eof"),
        }
    }
}

/// The values of a sequence of tokens.
pub open spec fn tokens_view(tokens: Seq<Token>) -> Seq<TokenView> {
    tokens.map_values(|t: Token| t@)
}

/// The value of what a scanning function returns: the token's value, or the
/// text of the failure.
pub open spec fn outcome_view(r: Result<Token, String>) -> Result<TokenView, Seq<char>> {
    match r {
        Ok(token) => Ok(token@),
        Err(message) => Err(message@),
    }
}

/// What scanning one token yields: the token or the text of the failure, and
/// the characters that are left afterwards.
pub struct Lexed {
    pub outcome: Result<TokenView, Seq<char>>,
    pub rest: Seq<char>,
}

// ---------------------------------------------------------------------------
// The texts of the failures
// ---------------------------------------------------------------------------

/// A character that starts no token.
pub open spec fn unexpected_character_text(c: char) -> Seq<char> {
    "The tokenizer found an unexpected character '"@ + seq![c] + "'."@
}

/// Another character stood where `expected` had to stand.
pub open spec fn expected_found_text(expected: char, found: char) -> Seq<char> {
    "The tokenizer expected "@ + seq![expected] + ", but found "@ + seq![found] + "."@
}

/// The input ended where `expected` had to stand.
pub open spec fn expected_eof_text(expected: char) -> Seq<char> {
    "The tokenizer expected "@ + seq![expected] + ", but reached EOF."@
}

/// Another character stood where a number needed its first digit.
pub open spec fn digit_found_text(found: char) -> Seq<char> {
    "The tokenizer expected a digit, but found "@ + seq![found] + "."@
}

/// The input ended where a number needed its first digit.
pub open spec fn digit_eof_text() -> Seq<char> {
    "The tokenizer expected a digit, but reached EOF."@
}

/// A backslash in a string was not followed by one of the escape targets.
pub open spec fn bad_escape_text() -> Seq<char> {
    "The next of \\ must be a escaped character"@
}

/// The input ended inside a string.
pub open spec fn unterminated_string_text() -> Seq<char> {
    "The tokenizer reached EOF before finding \" which represents the end of a string"@
}

/// A string held a character that may not stand there unescaped.
pub open spec fn bad_string_character_text() -> Seq<char> {
    "The tokenizer found a unexpected character while tokenizing string."@
}

// ---------------------------------------------------------------------------
// The scanner as a function on characters
// ---------------------------------------------------------------------------

/// `s` without its leading whitespace.
pub open spec fn skip_whitespace(s: Seq<char>) -> Seq<char>
    decreases s.len(),
{
    if s.len() > 0 && spec_is_whitespace(s[0]) {
        skip_whitespace(s.skip(1))
    } else {
        s
    }
}

/// How many digits `s` starts with.
pub open spec fn count_digits(s: Seq<char>) -> nat
    decreases s.len(),
{
    if s.len() > 0 && spec_is_digit(s[0]) {
        1 + count_digits(s.skip(1))
    } else {
        0
    }
}

/// Scans a number: an optional `-`, then as many digits as follow, of which
/// there must be one at least. The token holds that text unchanged.
pub open spec fn lex_number(s: Seq<char>) -> Lexed {
    let sign: int = if s.len() > 0 && s[0] == '-' {
        1
    } else {
        0
    };
    let digits = count_digits(s.skip(sign));
    if digits > 0 {
        Lexed { outcome: Ok(TokenView::Number(s.take(sign + digits))), rest: s.skip(sign + digits) }
    } else if s.len() > sign {
        Lexed { outcome: Err(digit_found_text(s[sign])), rest: s.skip(sign) }
    } else {
        Lexed { outcome: Err(digit_eof_text()), rest: s.skip(sign) }
    }
}

/// Scans the keyword `word`, character by character: `token` if `s` starts
/// with all of it. The first character that differs is consumed and reported.
pub open spec fn lex_word(s: Seq<char>, word: Seq<char>, token: TokenView) -> Lexed
    decreases word.len(),
{
    if word.len() == 0 {
        Lexed { outcome: Ok(token), rest: s }
    } else if s.len() == 0 {
        Lexed { outcome: Err(expected_eof_text(word[0])), rest: s }
    } else if s[0] != word[0] {
        Lexed { outcome: Err(expected_found_text(word[0], s[0])), rest: s.skip(1) }
    } else {
        lex_word(s.skip(1), word.skip(1), token)
    }
}

/// Scans the body of a string, the opening quote already consumed; `text` is
/// what has been decoded so far. The string ends at the first quote that no
/// backslash precedes.
pub open spec fn lex_string(s: Seq<char>, text: Seq<char>) -> Lexed
    decreases s.len(),
{
    if s.len() == 0 {
        Lexed { outcome: Err(unterminated_string_text()), rest: s }
    } else if s[0] == '"' {
        Lexed { outcome: Ok(TokenView::String(text)), rest: s.skip(1) }
    } else if s[0] == '\\' {
        if s.len() > 1 && spec_is_escape_target(s[1]) {
            lex_string(s.skip(2), text.push(spec_escape(s[1])->0))
        } else {
            Lexed { outcome: Err(bad_escape_text()), rest: s.skip(1) }
        }
    } else if spec_is_unescaped(s[0]) {
        lex_string(s.skip(1), text.push(s[0]))
    } else {
        Lexed { outcome: Err(bad_string_character_text()), rest: s }
    }
}

/// Scans the token that `s` starts with, whitespace aside: what it is and
/// what is left after it. At the end of the input the token is
/// [`TokenView::Eof`].
pub open spec fn lex(s: Seq<char>) -> Lexed {
    let s = skip_whitespace(s);
    if s.len() == 0 {
        Lexed { outcome: Ok(TokenView::Eof), rest: s }
    } else if spec_is_digit(s[0]) || s[0] == '-' {
        lex_number(s)
    } else if s[0] == '{' {
        Lexed { outcome: Ok(TokenView::LeftCurlyBranckt), rest: s.skip(1) }
    } else if s[0] == '}' {
        Lexed { outcome: Ok(TokenView::RightCurlyBranckt), rest: s.skip(1) }
    } else if s[0] == '[' {
        Lexed { outcome: Ok(TokenView::LeftSquareBrancket), rest: s.skip(1) }
    } else if s[0] == ']' {
        Lexed { outcome: Ok(TokenView::RightSquareBrancket), rest: s.skip(1) }
    } else if s[0] == ':' {
        Lexed { outcome: Ok(TokenView::Colon), rest: s.skip(1) }
    } else if s[0] == ',' {
        Lexed { outcome: Ok(TokenView::Comma), rest: s.skip(1) }
    } else if s[0] == '"' {
        lex_string(s.skip(1), Seq::empty())
    } else if s[0] == 't' {
        lex_word(s, "true"@, TokenView::Boolean(true))
    } else if s[0] == 'f' {
        lex_word(s, "false"@, TokenView::Boolean(false))
    } else if s[0] == 'n' {
        lex_word(s, "null"@, TokenView::Null)
    } else {
        Lexed { outcome: Err(unexpected_character_text(s[0])), rest: s }
    }
}

/// `result` with `tokens` put in front of the tokens it holds.
pub open spec fn prepend_tokens(
    tokens: Seq<TokenView>,
    result: Result<Seq<TokenView>, Seq<char>>,
) -> Result<Seq<TokenView>, Seq<char>> {
    match result {
        Ok(more) => Ok(tokens + more),
        Err(message) => Err(message),
    }
}

/// All the tokens of `s` up to the end of the input, the closing
/// [`TokenView::Eof`] left out; or the text of the first failure.
pub open spec fn lex_all(s: Seq<char>) -> Result<Seq<TokenView>, Seq<char>>
    decreases s.len(),
{
    let first = lex(s);
    match first.outcome {
        Err(message) => Err(message),
        Ok(TokenView::Eof) => Ok(Seq::empty()),
        Ok(token) => {
            proof {
                lemma_lex_consumes(s);
            }
            prepend_tokens(seq![token], lex_all(first.rest))
        },
    }
}

/// Skipping whitespace never lengthens the input.
pub proof fn lemma_skip_whitespace_len(s: Seq<char>)
    ensures
        skip_whitespace(s).len() <= s.len(),
    decreases s.len(),
{
    if s.len() > 0 && spec_is_whitespace(s[0]) {
        lemma_skip_whitespace_len(s.skip(1));
    }
}

/// No more digits are counted than there are characters.
pub proof fn lemma_count_digits_len(s: Seq<char>)
    ensures
        count_digits(s) <= s.len(),
    decreases s.len(),
{
    if s.len() > 0 && spec_is_digit(s[0]) {
        lemma_count_digits_len(s.skip(1));
    }
}

/// A keyword that was found has been consumed whole.
pub proof fn lemma_lex_word_consumes(s: Seq<char>, word: Seq<char>, token: TokenView)
    ensures
        lex_word(s, word, token).rest.len() <= s.len(),
        lex_word(s, word, token).outcome is Ok ==> lex_word(s, word, token).rest.len() + word.len()
            == s.len(),
    decreases word.len(),
{
    if word.len() > 0 && s.len() > 0 && s[0] == word[0] {
        lemma_lex_word_consumes(s.skip(1), word.skip(1), token);
    }
}

/// Scanning a string body never lengthens the input.
pub proof fn lemma_lex_string_consumes(s: Seq<char>, text: Seq<char>)
    ensures
        lex_string(s, text).rest.len() <= s.len(),
    decreases s.len(),
{
    if s.len() == 0 || s[0] == '"' {
    } else if s[0] == '\\' {
        if s.len() > 1 && spec_is_escape_target(s[1]) {
            lemma_lex_string_consumes(s.skip(2), text.push(spec_escape(s[1])->0));
        }
    } else if spec_is_unescaped(s[0]) {
        lemma_lex_string_consumes(s.skip(1), text.push(s[0]));
    }
}

/// Scanning never lengthens the input, and every token but
/// [`TokenView::Eof`] takes at least one character.
pub proof fn lemma_lex_consumes(s: Seq<char>)
    ensures
        lex(s).rest.len() <= s.len(),
        lex(s).outcome is Ok && lex(s).outcome != Ok::<TokenView, Seq<char>>(TokenView::Eof)
            ==> lex(s).rest.len() < s.len(),
{
    reveal_strlit("true");
    reveal_strlit("false");
    reveal_strlit("null");
    lemma_skip_whitespace_len(s);
    let t = skip_whitespace(s);
    if t.len() > 0 {
        let sign: int = if t[0] == '-' {
            1
        } else {
            0
        };
        lemma_count_digits_len(t.skip(sign));
        lemma_lex_string_consumes(t.skip(1), Seq::empty());
        lemma_lex_word_consumes(t, "true"@, TokenView::Boolean(true));
        lemma_lex_word_consumes(t, "false"@, TokenView::Boolean(false));
        lemma_lex_word_consumes(t, "null"@, TokenView::Null);
    }
}

// ---------------------------------------------------------------------------
// The failures as strings
// ---------------------------------------------------------------------------

fn unexpected_character(c: char) -> (r: String)
    ensures
        r@ == unexpected_character_text(c),
{
    let mut message = String::from_str("The tokenizer found an unexpected character '");
    message.push(c);
    message.append("'.");
    message
}

fn expected_found(expected: char, found: char) -> (r: String)
    ensures
        r@ == expected_found_text(expected, found),
{
    let mut message = String::from_str("The tokenizer expected ");
    message.push(expected);
    message.append(", but found ");
    message.push(found);
    message.append(".");
    message
}

fn expected_eof(expected: char) -> (r: String)
    ensures
        r@ == expected_eof_text(expected),
{
    let mut message = String::from_str("The tokenizer expected ");
    message.push(expected);
    message.append(", but reached EOF.");
    message
}

fn digit_found(found: char) -> (r: String)
    ensures
        r@ == digit_found_text(found),
{
    let mut message = String::from_str("The tokenizer expected a digit, but found ");
    message.push(found);
    message.append(".");
    message
}

// ---------------------------------------------------------------------------
// The tokenizer
// ---------------------------------------------------------------------------

/// A cursor over the input: it holds the characters not yet consumed, and
/// every token it hands out is cut from their front.
pub struct Tokenizer {
    input: VecDeque<char>,
}

impl View for Tokenizer {
    type V = Seq<char>;

    /// The characters not yet consumed.
    closed spec fn view(&self) -> Seq<char> {
        self.input@
    }
}

impl Tokenizer {
    /// A tokenizer at the start of `input`.
    pub fn new(input: &str) -> (r: Self)
        ensures
            r@ == input@,
    {
        let mut queue: VecDeque<char> = VecDeque::new();
        for c in it: input.chars()
            invariant
                it.seq() == input@,
                queue@ == it.seq().take(it.index() as int),
        {
            queue.push_back(c);
        }
        Tokenizer { input: queue }
    }

    /// Scans the next token and moves past it. At the end of the input the
    /// token is `Eof`, again at every further call. After a failure the
    /// tokenizer stands where [`lex`] says.
    pub fn next_token(&mut self) -> (r: Result<Token, String>)
        ensures
            outcome_view(r) == lex(old(self)@).outcome,
            final(self)@ == lex(old(self)@).rest,
    {
        self.skip_whitespaces();
        match self.front() {
            None => Ok(Token::Eof),
            Some(c) => {
                if is_digit(c) || c == '-' {
                    self.tokenize_number()
                } else if c == '{' {
                    self.pop();
                    Ok(Token::LeftCurlyBranckt)
                } else if c == '}' {
                    self.pop();
                    Ok(Token::RightCurlyBranckt)
                } else if c == '[' {
                    self.pop();
                    Ok(Token::LeftSquareBrancket)
                } else if c == ']' {
                    self.pop();
                    Ok(Token::RightSquareBrancket)
                } else if c == ':' {
                    self.pop();
                    Ok(Token::Colon)
                } else if c == ',' {
                    self.pop();
                    Ok(Token::Comma)
                } else if c == '"' {
                    self.tokenize_string()
                } else if c == 't' {
                    self.tokenize_true()
                } else if c == 'f' {
                    self.tokenize_false()
                } else if c == 'n' {
                    self.tokenize_null()
                } else {
                    Err(unexpected_character(c))
                }
            },
        }
    }

    /// The next token as an iterator hands it out: `None` in place of `Eof`,
    /// and a failure as an item.
    pub fn next(&mut self) -> (r: Option<Result<Token, String>>)
        ensures
            final(self)@ == lex(old(self)@).rest,
            match r {
                Some(item) => outcome_view(item) == lex(old(self)@).outcome && lex(
                    old(self)@,
                ).outcome != Ok::<TokenView, Seq<char>>(TokenView::Eof),
                None => lex(old(self)@).outcome == Ok::<TokenView, Seq<char>>(TokenView::Eof),
            },
    {
        match self.next_token() {
            Ok(Token::Eof) => None,
            result => Some(result),
        }
    }

    /// All the tokens that are left, up to the end of the input, or the first
    /// failure.
    pub fn collect(self) -> (r: Result<VecDeque<Token>, String>)
        ensures
            match r {
                Ok(tokens) => lex_all(self@) == Ok::<Seq<TokenView>, Seq<char>>(
                    tokens_view(tokens@),
                ),
                Err(message) => lex_all(self@) == Err::<Seq<TokenView>, Seq<char>>(message@),
            },
    {
        let mut tokenizer = self;
        let mut tokens: VecDeque<Token> = VecDeque::new();
        assert(tokens_view(tokens@) == Seq::<TokenView>::empty());
        loop
            invariant
                lex_all(self@) == prepend_tokens(tokens_view(tokens@), lex_all(tokenizer@)),
            decreases tokenizer@.len(),
        {
            proof {
                lemma_lex_consumes(tokenizer@);
            }
            let ghost before = tokens_view(tokens@);
            match tokenizer.next() {
                None => {
                    assert(before + Seq::<TokenView>::empty() == before);
                    return Ok(tokens);
                },
                Some(Err(message)) => {
                    return Err(message);
                },
                Some(Ok(token)) => {
                    let ghost value = token@;
                    tokens.push_back(token);
                    assert(tokens_view(tokens@) == before.push(value));
                    assert(forall|more: Seq<TokenView>|
                        before + (seq![value] + more) == before.push(value) + more);
                },
            }
        }
    }

    fn skip_whitespaces(&mut self)
        ensures
            final(self)@ == skip_whitespace(old(self)@),
    {
        loop
            invariant
                skip_whitespace(self@) == skip_whitespace(old(self)@),
            ensures
                self@ == skip_whitespace(old(self)@),
            decreases self@.len(),
        {
            match self.front() {
                Some(c) => {
                    if is_whitespace(c) {
                        self.pop();
                    } else {
                        break ;
                    }
                },
                None => {
                    break ;
                },
            }
        }
    }

    fn tokenize_string(&mut self) -> (r: Result<Token, String>)
        requires
            old(self)@.len() > 0,
            old(self)@[0] == '"',
        ensures
            outcome_view(r) == lex_string(old(self)@.skip(1), Seq::empty()).outcome,
            final(self)@ == lex_string(old(self)@.skip(1), Seq::empty()).rest,
    {
        let mut ident = String::new();
        self.consume('"')?;
        loop
            invariant
                lex_string(self@, ident@) == lex_string(old(self)@.skip(1), Seq::empty()),
            decreases self@.len(),
        {
            match self.front() {
                None => {
                    return Err(
                        String::from_str(
                            "The tokenizer reached EOF before finding \" which represents the end of a string",
                        ),
                    );
                },
                Some(c) => {
                    if c == '\\' {
                        let ghost before = self@;
                        self.pop();
                        match self.pop_escape() {
                            Some(escaped) => {
                                assert(self@ == before.skip(2));
                                ident.push(escaped);
                            },
                            None => {
                                return Err(
                                    String::from_str("The next of \\ must be a escaped character"),
                                );
                            },
                        }
                    } else if c == '"' {
                        self.pop();
                        return Ok(Token::String(ident));
                    } else if is_unescaped(c) {
                        self.pop();
                        ident.push(c);
                    } else {
                        return Err(
                            String::from_str(
                                "The tokenizer found a unexpected character while tokenizing string.",
                            ),
                        );
                    }
                },
            }
        }
    }

    fn tokenize_number(&mut self) -> (r: Result<Token, String>)
        ensures
            outcome_view(r) == lex_number(old(self)@).outcome,
            final(self)@ == lex_number(old(self)@).rest,
    {
        let mut text = String::new();
        let negative = match self.front() {
            Some(c) => c == '-',
            None => false,
        };
        if negative {
            self.pop();
            text.push('-');
        }
        let ghost sign: int = if negative {
            1
        } else {
            0
        };
        let ghost digits_len: int = count_digits(old(self)@.skip(sign)) as int;
        assert(self@ == old(self)@.skip(sign));
        assert(text@ == old(self)@.take(sign));
        let digits = self.read_digits();
        assert(self@ == old(self)@.skip(sign + digits_len));
        if digits.as_str().is_empty() {
            match self.front() {
                Some(c) => Err(digit_found(c)),
                None => Err(String::from_str("The tokenizer expected a digit, but reached EOF.")),
            }
        } else {
            text.append(digits.as_str());
            assert(text@ == old(self)@.take(sign + digits_len));
            Ok(Token::Number(text))
        }
    }

    fn tokenize_true(&mut self) -> (r: Result<Token, String>)
        ensures
            outcome_view(r) == lex_word(old(self)@, "true"@, TokenView::Boolean(true)).outcome,
            final(self)@ == lex_word(old(self)@, "true"@, TokenView::Boolean(true)).rest,
    {
        proof {
            reveal_strlit("true");
            reveal_with_fuel(lex_word, 5);
        }
        self.consume('t')?;
        self.consume('r')?;
        self.consume('u')?;
        self.consume('e')?;

        Ok(Token::Boolean(true))
    }

    fn tokenize_false(&mut self) -> (r: Result<Token, String>)
        ensures
            outcome_view(r) == lex_word(old(self)@, "false"@, TokenView::Boolean(false)).outcome,
            final(self)@ == lex_word(old(self)@, "false"@, TokenView::Boolean(false)).rest,
    {
        proof {
            reveal_strlit("false");
            reveal_with_fuel(lex_word, 6);
        }
        self.consume('f')?;
        self.consume('a')?;
        self.consume('l')?;
        self.consume('s')?;
        self.consume('e')?;

        Ok(Token::Boolean(false))
    }

    fn tokenize_null(&mut self) -> (r: Result<Token, String>)
        ensures
            outcome_view(r) == lex_word(old(self)@, "null"@, TokenView::Null).outcome,
            final(self)@ == lex_word(old(self)@, "null"@, TokenView::Null).rest,
    {
        proof {
            reveal_strlit("null");
            reveal_with_fuel(lex_word, 5);
        }
        self.consume('n')?;
        self.consume('u')?;
        self.consume('l')?;
        self.consume('l')?;

        Ok(Token::Null)
    }

    /// Takes the digits that the input starts with.
    fn read_digits(&mut self) -> (digits: String)
        ensures
            digits@ == old(self)@.take(count_digits(old(self)@) as int),
            final(self)@ == old(self)@.skip(count_digits(old(self)@) as int),
            count_digits(old(self)@) <= old(self)@.len(),
    {
        let mut digits = String::new();
        loop
            invariant
                old(self)@ == digits@ + self@,
                count_digits(old(self)@) == digits@.len() + count_digits(self@),
            ensures
                old(self)@ == digits@ + self@,
                count_digits(old(self)@) == digits@.len(),
            decreases self@.len(),
        {
            match self.pop_digit() {
                Some(c) => {
                    digits.push(c);
                },
                None => {
                    break ;
                },
            }
        }
        digits
    }

    /// Takes the next character and tells whether it is `c`.
    fn consume(&mut self, c: char) -> (r: Result<char, String>)
        ensures
            old(self)@.len() == 0 ==> final(self)@ == old(self)@ && r is Err && r->Err_0@
                == expected_eof_text(c),
            old(self)@.len() > 0 ==> final(self)@ == old(self)@.skip(1),
            old(self)@.len() > 0 && old(self)@[0] == c ==> r == Ok::<char, String>(c),
            old(self)@.len() > 0 && old(self)@[0] != c ==> r is Err && r->Err_0@
                == expected_found_text(c, old(self)@[0]),
    {
        match self.pop() {
            Some(top) => {
                if top == c {
                    Ok(top)
                } else {
                    Err(expected_found(c, top))
                }
            },
            None => Err(expected_eof(c)),
        }
    }

    fn front(&self) -> (r: Option<char>)
        ensures
            r == (if self@.len() > 0 {
                Some(self@[0])
            } else {
                None
            }),
    {
        if self.input.len() > 0 {
            Some(self.input[0])
        } else {
            None
        }
    }

    fn pop(&mut self) -> (r: Option<char>)
        ensures
            r == (if old(self)@.len() > 0 {
                Some(old(self)@[0])
            } else {
                None
            }),
            final(self)@ == (if old(self)@.len() > 0 {
                old(self)@.skip(1)
            } else {
                old(self)@
            }),
    {
        self.input.pop_front()
    }

    /// Takes the next character if it is a digit.
    fn pop_digit(&mut self) -> (r: Option<char>)
        ensures
            old(self)@.len() > 0 && spec_is_digit(old(self)@[0]) ==> r == Some(old(self)@[0])
                && final(self)@ == old(self)@.skip(1),
            !(old(self)@.len() > 0 && spec_is_digit(old(self)@[0])) ==> r is None && final(self)@
                == old(self)@,
    {
        match self.front() {
            Some(c) => {
                if is_digit(c) {
                    self.pop()
                } else {
                    None
                }
            },
            None => None,
        }
    }

    /// Takes the next character if it may follow a backslash, and gives the
    /// character that the two stand for.
    fn pop_escape(&mut self) -> (r: Option<char>)
        ensures
            old(self)@.len() > 0 && spec_is_escape_target(old(self)@[0]) ==> r == spec_escape(
                old(self)@[0],
            ) && r is Some && final(self)@ == old(self)@.skip(1),
            !(old(self)@.len() > 0 && spec_is_escape_target(old(self)@[0])) ==> r is None
                && final(self)@ == old(self)@,
    {
        match self.front() {
            Some(c) => {
                if is_escape_target(c) {
                    self.pop();
                    escape(c)
                } else {
                    None
                }
            },
            None => None,
        }
    }
}

} // verus!
