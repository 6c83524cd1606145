//! What holds of the three stages together: a text that the generator wrote
//! is read back as the document it was written from, and writing a text
//! again changes nothing.
use crate::document::{
    has_key, insert_member, keys_unique, lemma_insert_member_each, lemma_insert_member_unique,
    lemma_insert_new_key, unique_keys, Document,
};
use crate::generator::{quote, render, render_items, render_member, render_members, spaces};
use crate::json_util::{
    spec_escape, spec_is_digit, spec_is_escape_target, spec_is_unescaped, spec_is_whitespace,
};
use crate::tokenizer::{
    count_digits, lemma_lex_consumes, lex, lex_all, lex_number, lex_string, lex_word,
    prepend_tokens, skip_whitespace, Lexed, TokenView,
};
use crate::parser::{
    lemma_parse_member_consumes, lemma_parse_value_consumes, parse_array, parse_item_list,
    parse_item_tail, parse_member, parse_member_list, parse_member_tail, parse_object,
    parse_value, starts_with, Parsed, ParsedMember,
};
use crate::{parse_text, pretty};
use vstd::prelude::*;

verus! {

// ---------------------------------------------------------------------------
// Scanning a text that starts with a known token
// ---------------------------------------------------------------------------

/// Every character of `s` is whitespace.
pub open spec fn is_blank(s: Seq<char>) -> bool {
    forall|i: int| 0 <= i < s.len() ==> spec_is_whitespace(#[trigger] s[i])
}

/// Every character of `s` is a digit.
pub open spec fn all_digits(s: Seq<char>) -> bool {
    forall|i: int| 0 <= i < s.len() ==> spec_is_digit(#[trigger] s[i])
}

/// Every character of `s` may stand in a string as it is.
pub open spec fn is_plain(s: Seq<char>) -> bool {
    forall|i: int| 0 <= i < s.len() ==> spec_is_unescaped(#[trigger] s[i])
}

/// `s` is the text of an integer: an optional `-` and one digit or more.
pub open spec fn is_integer(s: Seq<char>) -> bool {
    if s.len() > 0 && s[0] == '-' {
        s.len() > 1 && all_digits(s.skip(1))
    } else {
        s.len() > 0 && all_digits(s)
    }
}

/// `s` does not go on with a digit.
pub open spec fn no_digit_ahead(s: Seq<char>) -> bool {
    s.len() == 0 || !spec_is_digit(s[0])
}

/// The token that the one character `c` is, if it is one.
pub open spec fn symbol(c: char) -> Option<TokenView> {
    if c == '{' {
        Some(TokenView::LeftCurlyBranckt)
    } else if c == '}' {
        Some(TokenView::RightCurlyBranckt)
    } else if c == '[' {
        Some(TokenView::LeftSquareBrancket)
    } else if c == ']' {
        Some(TokenView::RightSquareBrancket)
    } else if c == ':' {
        Some(TokenView::Colon)
    } else if c == ',' {
        Some(TokenView::Comma)
    } else {
        None
    }
}

/// Whitespace before a token changes nothing of what is scanned.
pub proof fn lemma_lex_blank(blank: Seq<char>, s: Seq<char>)
    requires
        is_blank(blank),
    ensures
        skip_whitespace(blank + s) == skip_whitespace(s),
        lex(blank + s) == lex(s),
        lex_all(blank + s) == lex_all(s),
    decreases blank.len(),
{
    if blank.len() > 0 {
        assert((blank + s)[0] == blank[0]);
        assert((blank + s).skip(1) == blank.skip(1) + s);
        assert(is_blank(blank.skip(1))) by {
            assert forall|i: int| 0 <= i < blank.skip(1).len() implies spec_is_whitespace(
                #[trigger] blank.skip(1)[i],
            ) by {
                assert(blank.skip(1)[i] == blank[i + 1]);
            }
        }
        lemma_lex_blank(blank.skip(1), s);
    } else {
        assert(blank + s == s);
    }
}

/// A text that starts with a one-character token gives that token, and then
/// what the rest gives.
pub proof fn lemma_lex_symbol(c: char, s: Seq<char>)
    requires
        symbol(c) is Some,
    ensures
        lex(seq![c] + s) == (Lexed { outcome: Ok(symbol(c)->0), rest: s }),
        lex_all(seq![c] + s) == prepend_tokens(seq![symbol(c)->0], lex_all(s)),
{
    let text = seq![c] + s;
    assert(text[0] == c);
    assert(text.skip(1) == s);
    assert(skip_whitespace(text) == text);
}

/// A text that starts with the whole of `word` is scanned as `token`.
pub proof fn lemma_lex_word_found(word: Seq<char>, s: Seq<char>, token: TokenView)
    ensures
        lex_word(word + s, word, token) == (Lexed { outcome: Ok(token), rest: s }),
    decreases word.len(),
{
    if word.len() == 0 {
        assert(word + s == s);
    } else {
        assert((word + s)[0] == word[0]);
        assert((word + s).skip(1) == word.skip(1) + s);
        lemma_lex_word_found(word.skip(1), s, token);
    }
}

/// The three keywords are scanned as their tokens.
pub proof fn lemma_lex_keyword(s: Seq<char>)
    ensures
        lex("null"@ + s) == (Lexed { outcome: Ok(TokenView::Null), rest: s }),
        lex("true"@ + s) == (Lexed { outcome: Ok(TokenView::Boolean(true)), rest: s }),
        lex("false"@ + s) == (Lexed { outcome: Ok(TokenView::Boolean(false)), rest: s }),
        lex_all("null"@ + s) == prepend_tokens(seq![TokenView::Null], lex_all(s)),
        lex_all("true"@ + s) == prepend_tokens(seq![TokenView::Boolean(true)], lex_all(s)),
        lex_all("false"@ + s) == prepend_tokens(seq![TokenView::Boolean(false)], lex_all(s)),
{
    reveal_strlit("null");
    reveal_strlit("true");
    reveal_strlit("false");
    lemma_lex_word_found("null"@, s, TokenView::Null);
    lemma_lex_word_found("true"@, s, TokenView::Boolean(true));
    lemma_lex_word_found("false"@, s, TokenView::Boolean(false));
    assert(("null"@ + s)[0] == 'n');
    assert(("true"@ + s)[0] == 't');
    assert(("false"@ + s)[0] == 'f');
    assert(skip_whitespace("null"@ + s) == "null"@ + s);
    assert(skip_whitespace("true"@ + s) == "true"@ + s);
    assert(skip_whitespace("false"@ + s) == "false"@ + s);
}

/// Digits that no further digit follows are counted whole.
pub proof fn lemma_count_digits(digits: Seq<char>, s: Seq<char>)
    requires
        all_digits(digits),
        no_digit_ahead(s),
    ensures
        count_digits(digits + s) == digits.len(),
    decreases digits.len(),
{
    if digits.len() == 0 {
        assert(digits + s == s);
    } else {
        assert((digits + s)[0] == digits[0]);
        assert((digits + s).skip(1) == digits.skip(1) + s);
        assert(all_digits(digits.skip(1))) by {
            assert forall|i: int| 0 <= i < digits.skip(1).len() implies spec_is_digit(
                #[trigger] digits.skip(1)[i],
            ) by {
                assert(digits.skip(1)[i] == digits[i + 1]);
            }
        }
        lemma_count_digits(digits.skip(1), s);
    }
}

/// The text of an integer that no digit follows is scanned as a number that
/// holds that text.
pub proof fn lemma_lex_integer(text: Seq<char>, s: Seq<char>)
    requires
        is_integer(text),
        no_digit_ahead(s),
    ensures
        lex(text + s) == (Lexed { outcome: Ok(TokenView::Number(text)), rest: s }),
        lex_all(text + s) == prepend_tokens(seq![TokenView::Number(text)], lex_all(s)),
{
    let all = text + s;
    assert(all[0] == text[0]);
    assert(skip_whitespace(all) == all);
    let sign: int = if text[0] == '-' {
        1
    } else {
        0
    };
    assert(all.skip(sign) == text.skip(sign) + s);
    assert(text.skip(0) == text);
    lemma_count_digits(text.skip(sign), s);
    assert(all.take(text.len() as int) == text);
    assert(all.skip(text.len() as int) == s);
    assert(text.skip(sign)[0] == text[sign]);
    assert(lex_number(all) == (Lexed { outcome: Ok(TokenView::Number(text)), rest: s }));
}

/// A string body of characters that need no escape, closed by a quotation
/// mark, is scanned as the string of those characters.
pub proof fn lemma_lex_string_plain(text: Seq<char>, s: Seq<char>, before: Seq<char>)
    requires
        is_plain(text),
    ensures
        lex_string(text + "\""@ + s, before) == (Lexed {
            outcome: Ok(TokenView::String(before + text)),
            rest: s,
        }),
    decreases text.len(),
{
    reveal_strlit("\"");
    let all = text + "\""@ + s;
    if text.len() == 0 {
        assert(all[0] == '"');
        assert(all.skip(1) == s);
        assert(before + text == before);
    } else {
        assert(all[0] == text[0]);
        assert(spec_is_unescaped(text[0]));
        assert(all.skip(1) == text.skip(1) + "\""@ + s);
        assert(is_plain(text.skip(1))) by {
            assert forall|i: int| 0 <= i < text.skip(1).len() implies spec_is_unescaped(
                #[trigger] text.skip(1)[i],
            ) by {
                assert(text.skip(1)[i] == text[i + 1]);
            }
        }
        lemma_lex_string_plain(text.skip(1), s, before.push(text[0]));
        assert(before.push(text[0]) + text.skip(1) == before + text);
    }
}

/// A quoted text of characters that need no escape is scanned as the string
/// of those characters.
pub proof fn lemma_lex_quoted(text: Seq<char>, s: Seq<char>)
    requires
        is_plain(text),
    ensures
        lex(quote(text) + s) == (Lexed { outcome: Ok(TokenView::String(text)), rest: s }),
        lex_all(quote(text) + s) == prepend_tokens(seq![TokenView::String(text)], lex_all(s)),
{
    reveal_strlit("\"");
    let all = quote(text) + s;
    assert(all[0] == '"');
    assert(skip_whitespace(all) == all);
    assert(all.skip(1) == text + "\""@ + s);
    lemma_lex_string_plain(text, s, Seq::empty());
    assert(Seq::<char>::empty() + text == text);
}

// ---------------------------------------------------------------------------
// The documents whose text can be read back
// ---------------------------------------------------------------------------

/// Every number in `document` is the text of an integer.
pub open spec fn integer_numbers(document: Document) -> bool
    decreases document,
{
    match document {
        Document::Number(text) => is_integer(text),
        Document::Array(items) => forall|i: int|
            0 <= i < items.len() ==> integer_numbers(#[trigger] items[i]),
        Document::Object(members) => forall|i: int|
            0 <= i < members.len() ==> integer_numbers((#[trigger] members[i]).1),
        _ => true,
    }
}

/// Every string and every key in `document` is made of characters that need
/// no escape.
pub open spec fn plain_strings(document: Document) -> bool
    decreases document,
{
    match document {
        Document::String(text) => is_plain(text),
        Document::Array(items) => forall|i: int|
            0 <= i < items.len() ==> plain_strings(#[trigger] items[i]),
        Document::Object(members) => forall|i: int|
            0 <= i < members.len() ==> is_plain((#[trigger] members[i]).0) && plain_strings(
                members[i].1,
            ),
        _ => true,
    }
}

/// The documents whose text the tokenizer reads back as it was meant. The
/// generator writes numbers and strings as they are, so the numbers have to
/// be integers and the strings free of characters that need an escape.
pub open spec fn readable(document: Document) -> bool {
    integer_numbers(document) && plain_strings(document)
}

/// The tokens that `document` is written with.
pub open spec fn tokens_of(document: Document) -> Seq<TokenView>
    decreases document,
{
    match document {
        Document::Null => seq![TokenView::Null],
        Document::Boolean(b) => seq![TokenView::Boolean(b)],
        Document::Number(text) => seq![TokenView::Number(text)],
        Document::String(text) => seq![TokenView::String(text)],
        Document::Array(items) => seq![TokenView::LeftSquareBrancket] + item_tokens(items)
            + seq![TokenView::RightSquareBrancket],
        Document::Object(members) => seq![TokenView::LeftCurlyBranckt] + member_tokens(members)
            + seq![TokenView::RightCurlyBranckt],
    }
}

/// The tokens of the items of an array, a comma between one and the next.
pub open spec fn item_tokens(items: Seq<Document>) -> Seq<TokenView>
    decreases items,
{
    if items.len() == 0 {
        Seq::empty()
    } else if items.len() == 1 {
        tokens_of(items[0])
    } else {
        tokens_of(items[0]) + seq![TokenView::Comma] + item_tokens(items.skip(1))
    }
}

/// The tokens of one member of an object: the key, a colon and the value.
pub open spec fn tokens_of_member(member: (Seq<char>, Document)) -> Seq<TokenView>
    decreases member,
{
    seq![TokenView::String(member.0), TokenView::Colon] + tokens_of(member.1)
}

/// The tokens of the members of an object, a comma between one and the next.
pub open spec fn member_tokens(members: Seq<(Seq<char>, Document)>) -> Seq<TokenView>
    decreases members,
{
    if members.len() == 0 {
        Seq::empty()
    } else if members.len() == 1 {
        tokens_of_member(members[0])
    } else {
        tokens_of_member(members[0]) + seq![TokenView::Comma] + member_tokens(members.skip(1))
    }
}

// ---------------------------------------------------------------------------
// Scanning the text of a document
// ---------------------------------------------------------------------------

/// More whitespace behind whitespace is whitespace.
proof fn lemma_blank_more(prefix: Seq<char>, indent: nat)
    requires
        is_blank(prefix),
    ensures
        is_blank(prefix + spaces(indent)),
        is_blank("\n"@ + prefix),
        is_blank("\n"@),
        is_blank(" "@),
{
    reveal_strlit("\n");
    reveal_strlit(" ");
}

/// A line break, the indentation and a closing bracket are scanned as the
/// bracket.
proof fn lemma_lex_closing(close: char, prefix: Seq<char>, s: Seq<char>, more: Seq<TokenView>)
    requires
        symbol(close) is Some,
        is_blank(prefix),
        lex_all(s) == Ok::<Seq<TokenView>, Seq<char>>(more),
    ensures
        lex_all("\n"@ + prefix + seq![close] + s) == Ok::<Seq<TokenView>, Seq<char>>(
            seq![symbol(close)->0] + more,
        ),
        no_digit_ahead("\n"@ + prefix + seq![close] + s),
{
    reveal_strlit("\n");
    lemma_blank_more(prefix, 0);
    lemma_lex_symbol(close, s);
    lemma_lex_blank("\n"@ + prefix, seq![close] + s);
    assert("\n"@ + prefix + seq![close] + s == ("\n"@ + prefix) + (seq![close] + s));
    assert(("\n"@ + prefix + seq![close] + s)[0] == '\n');
}

/// An opening bracket and a line break are scanned as the bracket.
proof fn lemma_lex_opening(open: char, s: Seq<char>, more: Seq<TokenView>)
    requires
        symbol(open) is Some,
        lex_all(s) == Ok::<Seq<TokenView>, Seq<char>>(more),
    ensures
        lex_all(seq![open] + "\n"@ + s) == Ok::<Seq<TokenView>, Seq<char>>(
            seq![symbol(open)->0] + more,
        ),
{
    lemma_blank_more(Seq::empty(), 0);
    lemma_lex_blank("\n"@, s);
    lemma_lex_symbol(open, "\n"@ + s);
    assert(seq![open] + "\n"@ + s == seq![open] + ("\n"@ + s));
}

/// A pair of brackets with nothing between them is scanned as the two.
proof fn lemma_lex_empty(open: char, close: char, s: Seq<char>, more: Seq<TokenView>)
    requires
        symbol(open) is Some,
        symbol(close) is Some,
        lex_all(s) == Ok::<Seq<TokenView>, Seq<char>>(more),
    ensures
        lex_all(seq![open, close] + s) == Ok::<Seq<TokenView>, Seq<char>>(
            seq![symbol(open)->0, symbol(close)->0] + more,
        ),
{
    lemma_lex_symbol(close, s);
    lemma_lex_symbol(open, seq![close] + s);
    assert(seq![open, close] + s == seq![open] + (seq![close] + s));
    assert(seq![symbol(open)->0, symbol(close)->0] + more == seq![symbol(open)->0] + (
        seq![symbol(close)->0] + more));
}

/// A comma and a line break are scanned as the comma.
proof fn lemma_lex_comma(s: Seq<char>, more: Seq<TokenView>)
    requires
        lex_all(s) == Ok::<Seq<TokenView>, Seq<char>>(more),
    ensures
        lex_all(",\n"@ + s) == Ok::<Seq<TokenView>, Seq<char>>(seq![TokenView::Comma] + more),
        no_digit_ahead(",\n"@ + s),
{
    reveal_strlit(",\n");
    reveal_strlit("\n");
    lemma_blank_more(Seq::empty(), 0);
    lemma_lex_blank("\n"@, s);
    lemma_lex_symbol(',', "\n"@ + s);
    assert(",\n"@ + s == seq![','] + ("\n"@ + s));
    assert((",\n"@ + s)[0] == ',');
}

/// A colon and a space are scanned as the colon.
proof fn lemma_lex_colon(s: Seq<char>, more: Seq<TokenView>)
    requires
        lex_all(s) == Ok::<Seq<TokenView>, Seq<char>>(more),
    ensures
        lex_all(": "@ + s) == Ok::<Seq<TokenView>, Seq<char>>(seq![TokenView::Colon] + more),
{
    reveal_strlit(": ");
    reveal_strlit(" ");
    lemma_blank_more(Seq::empty(), 0);
    lemma_lex_blank(" "@, s);
    lemma_lex_symbol(':', " "@ + s);
    assert(": "@ + s == seq![':'] + (" "@ + s));
}

/// How the text of a container is put together.
proof fn lemma_container_text(inner: Seq<char>, prefix: Seq<char>, s: Seq<char>)
    ensures
        "[]"@ + s == seq!['[', ']'] + s,
        "{}"@ + s == seq!['{', '}'] + s,
        "[\n"@ + inner + "\n"@ + prefix + "]"@ + s == seq!['['] + "\n"@ + (inner + ("\n"@ + prefix
            + seq![']'] + s)),
        "{\n"@ + inner + "\n"@ + prefix + "}"@ + s == seq!['{'] + "\n"@ + (inner + ("\n"@ + prefix
            + seq!['}'] + s)),
{
    reveal_strlit("[]");
    reveal_strlit("{}");
    reveal_strlit("[\n");
    reveal_strlit("{\n");
    reveal_strlit("\n");
    reveal_strlit("]");
    reveal_strlit("}");
    assert("[]"@ == seq!['[', ']']);
    assert("{}"@ == seq!['{', '}']);
    assert("[\n"@ == seq!['['] + "\n"@);
    assert("{\n"@ == seq!['{'] + "\n"@);
    assert("]"@ == seq![']']);
    assert("}"@ == seq!['}']);
}

/// The text of a readable document, whatever follows it but a digit, is
/// scanned as the tokens of the document, and then as what follows.
pub proof fn lemma_lex_render(
    document: Document,
    indent: nat,
    prefix: Seq<char>,
    s: Seq<char>,
    more: Seq<TokenView>,
)
    requires
        readable(document),
        is_blank(prefix),
        no_digit_ahead(s),
        lex_all(s) == Ok::<Seq<TokenView>, Seq<char>>(more),
    ensures
        lex_all(render(document, indent, prefix) + s) == Ok::<Seq<TokenView>, Seq<char>>(
            tokens_of(document) + more,
        ),
    decreases document, 0int,
{
    match document {
        Document::Null => {
            lemma_lex_keyword(s);
        },
        Document::Boolean(b) => {
            lemma_lex_keyword(s);
        },
        Document::Number(text) => {
            lemma_lex_integer(text, s);
        },
        Document::String(text) => {
            lemma_lex_quoted(text, s);
        },
        Document::Array(items) => {
            lemma_lex_render_array(items, indent, prefix, s, more);
        },
        Document::Object(members) => {
            lemma_lex_render_object(members, indent, prefix, s, more);
        },
    }
}

/// The text of an array is scanned as its brackets with the items' tokens
/// between them.
pub proof fn lemma_lex_render_array(
    items: Seq<Document>,
    indent: nat,
    prefix: Seq<char>,
    s: Seq<char>,
    more: Seq<TokenView>,
)
    requires
        forall|i: int| 0 <= i < items.len() ==> readable(#[trigger] items[i]),
        is_blank(prefix),
        lex_all(s) == Ok::<Seq<TokenView>, Seq<char>>(more),
    ensures
        lex_all(render(Document::Array(items), indent, prefix) + s) == Ok::<
            Seq<TokenView>,
            Seq<char>,
        >(tokens_of(Document::Array(items)) + more),
    decreases items, 1int,
{
    let inner = prefix + spaces(indent);
    let body = render_items(items, indent, inner);
    lemma_container_text(body, prefix, s);
    if items.len() == 0 {
        lemma_lex_empty('[', ']', s, more);
        assert(tokens_of(Document::Array(items)) + more == seq![
            TokenView::LeftSquareBrancket,
            TokenView::RightSquareBrancket,
        ] + more);
    } else {
        let tail = "\n"@ + prefix + seq![']'] + s;
        let tail_tokens = seq![TokenView::RightSquareBrancket] + more;
        lemma_lex_closing(']', prefix, s, more);
        lemma_blank_more(prefix, indent);
        lemma_lex_render_items(items, indent, inner, tail, tail_tokens);
        lemma_lex_opening('[', body + tail, item_tokens(items) + tail_tokens);
        assert(tokens_of(Document::Array(items)) + more == seq![TokenView::LeftSquareBrancket] + (
            item_tokens(items) + tail_tokens));
    }
}

/// The text of an object is scanned as its brackets with the members' tokens
/// between them.
pub proof fn lemma_lex_render_object(
    members: Seq<(Seq<char>, Document)>,
    indent: nat,
    prefix: Seq<char>,
    s: Seq<char>,
    more: Seq<TokenView>,
)
    requires
        forall|i: int|
            0 <= i < members.len() ==> is_plain((#[trigger] members[i]).0) && readable(
                members[i].1,
            ),
        is_blank(prefix),
        lex_all(s) == Ok::<Seq<TokenView>, Seq<char>>(more),
    ensures
        lex_all(render(Document::Object(members), indent, prefix) + s) == Ok::<
            Seq<TokenView>,
            Seq<char>,
        >(tokens_of(Document::Object(members)) + more),
    decreases members, 1int,
{
    let inner = prefix + spaces(indent);
    let body = render_members(members, indent, inner);
    lemma_container_text(body, prefix, s);
    if members.len() == 0 {
        lemma_lex_empty('{', '}', s, more);
        assert(tokens_of(Document::Object(members)) + more == seq![
            TokenView::LeftCurlyBranckt,
            TokenView::RightCurlyBranckt,
        ] + more);
    } else {
        let tail = "\n"@ + prefix + seq!['}'] + s;
        let tail_tokens = seq![TokenView::RightCurlyBranckt] + more;
        lemma_lex_closing('}', prefix, s, more);
        lemma_blank_more(prefix, indent);
        lemma_lex_render_members(members, indent, inner, tail, tail_tokens);
        lemma_lex_opening('{', body + tail, member_tokens(members) + tail_tokens);
        assert(tokens_of(Document::Object(members)) + more == seq![TokenView::LeftCurlyBranckt] + (
            member_tokens(members) + tail_tokens));
    }
}

/// The lines of the items of an array are scanned as the items' tokens with
/// commas between them.
pub proof fn lemma_lex_render_items(
    items: Seq<Document>,
    indent: nat,
    prefix: Seq<char>,
    s: Seq<char>,
    more: Seq<TokenView>,
)
    requires
        items.len() > 0,
        forall|i: int| 0 <= i < items.len() ==> readable(#[trigger] items[i]),
        is_blank(prefix),
        no_digit_ahead(s),
        lex_all(s) == Ok::<Seq<TokenView>, Seq<char>>(more),
    ensures
        lex_all(render_items(items, indent, prefix) + s) == Ok::<Seq<TokenView>, Seq<char>>(
            item_tokens(items) + more,
        ),
    decreases items, 0int,
{
    let first = render(items[0], indent, prefix);
    if items.len() == 1 {
        lemma_lex_render(items[0], indent, prefix, s, more);
        lemma_lex_blank(prefix, first + s);
        assert(render_items(items, indent, prefix) + s == prefix + (first + s));
    } else {
        let rest = items.skip(1);
        assert forall|i: int| 0 <= i < rest.len() implies readable(#[trigger] rest[i]) by {
            assert(rest[i] == items[i + 1]);
        }
        lemma_lex_render_items(rest, indent, prefix, s, more);
        let following = render_items(rest, indent, prefix) + s;
        let tail = ",\n"@ + following;
        let tail_tokens = seq![TokenView::Comma] + (item_tokens(rest) + more);
        lemma_lex_comma(following, item_tokens(rest) + more);
        lemma_lex_render(items[0], indent, prefix, tail, tail_tokens);
        lemma_lex_blank(prefix, first + tail);
        assert(render_items(items, indent, prefix) + s == prefix + (first + tail));
        assert(item_tokens(items) + more == tokens_of(items[0]) + tail_tokens);
    }
}

/// The line of one member is scanned as the key, a colon and the value's
/// tokens.
pub proof fn lemma_lex_render_member(
    member: (Seq<char>, Document),
    indent: nat,
    prefix: Seq<char>,
    s: Seq<char>,
    more: Seq<TokenView>,
)
    requires
        is_plain(member.0),
        readable(member.1),
        is_blank(prefix),
        no_digit_ahead(s),
        lex_all(s) == Ok::<Seq<TokenView>, Seq<char>>(more),
    ensures
        lex_all(render_member(member, indent, prefix) + s) == Ok::<Seq<TokenView>, Seq<char>>(
            tokens_of_member(member) + more,
        ),
    decreases member, 0int,
{
    let value = render(member.1, indent, prefix) + s;
    lemma_lex_render(member.1, indent, prefix, s, more);
    lemma_lex_colon(value, tokens_of(member.1) + more);
    let after_key = ": "@ + value;
    lemma_lex_quoted(member.0, after_key);
    lemma_lex_blank(prefix, quote(member.0) + after_key);
    assert(render_member(member, indent, prefix) + s == prefix + (quote(member.0) + after_key));
    assert(tokens_of_member(member) + more == seq![TokenView::String(member.0)] + (
        seq![TokenView::Colon] + (tokens_of(member.1) + more)));
}

/// The lines of the members of an object are scanned as the members' tokens
/// with commas between them.
pub proof fn lemma_lex_render_members(
    members: Seq<(Seq<char>, Document)>,
    indent: nat,
    prefix: Seq<char>,
    s: Seq<char>,
    more: Seq<TokenView>,
)
    requires
        members.len() > 0,
        forall|i: int|
            0 <= i < members.len() ==> is_plain((#[trigger] members[i]).0) && readable(
                members[i].1,
            ),
        is_blank(prefix),
        no_digit_ahead(s),
        lex_all(s) == Ok::<Seq<TokenView>, Seq<char>>(more),
    ensures
        lex_all(render_members(members, indent, prefix) + s) == Ok::<Seq<TokenView>, Seq<char>>(
            member_tokens(members) + more,
        ),
    decreases members, 0int,
{
    let first = render_member(members[0], indent, prefix);
    if members.len() == 1 {
        lemma_lex_render_member(members[0], indent, prefix, s, more);
    } else {
        let rest = members.skip(1);
        assert forall|i: int| 0 <= i < rest.len() implies is_plain((#[trigger] rest[i]).0)
            && readable(rest[i].1) by {
            assert(rest[i] == members[i + 1]);
        }
        lemma_lex_render_members(rest, indent, prefix, s, more);
        let following = render_members(rest, indent, prefix) + s;
        let tail = ",\n"@ + following;
        let tail_tokens = seq![TokenView::Comma] + (member_tokens(rest) + more);
        lemma_lex_comma(following, member_tokens(rest) + more);
        lemma_lex_render_member(members[0], indent, prefix, tail, tail_tokens);
        assert(render_members(members, indent, prefix) + s == first + tail);
        assert(member_tokens(members) + more == tokens_of_member(members[0]) + tail_tokens);
    }
}

// ---------------------------------------------------------------------------
// Parsing the tokens of a document
// ---------------------------------------------------------------------------

/// The tokens of a document start with a token that starts a value.
pub proof fn lemma_tokens_of_first(document: Document)
    ensures
        tokens_of(document).len() > 0,
        match document {
            Document::Null => tokens_of(document)[0] == TokenView::Null,
            Document::Boolean(b) => tokens_of(document)[0] == TokenView::Boolean(b),
            Document::Number(text) => tokens_of(document)[0] == TokenView::Number(text),
            Document::String(text) => tokens_of(document)[0] == TokenView::String(text),
            Document::Array(_) => tokens_of(document)[0] == TokenView::LeftSquareBrancket,
            Document::Object(_) => tokens_of(document)[0] == TokenView::LeftCurlyBranckt,
        },
{
}

/// The tokens of a document whose objects have no key twice are parsed as
/// that document, and what follows them is left.
pub proof fn lemma_parse_tokens_of(document: Document, rest: Seq<TokenView>)
    requires
        unique_keys(document),
    ensures
        parse_value(tokens_of(document) + rest) == (Parsed { outcome: Ok(document), rest }),
    decreases document, 0int,
{
    let tokens = tokens_of(document) + rest;
    lemma_tokens_of_first(document);
    assert(tokens[0] == tokens_of(document)[0]);
    match document {
        Document::Array(items) => {
            lemma_parse_array_tokens(items, rest);
        },
        Document::Object(members) => {
            lemma_parse_object_tokens(members, rest);
        },
        _ => {
            assert(tokens.skip(1) == rest);
        },
    }
}

/// The tokens of an array are parsed as that array.
pub proof fn lemma_parse_array_tokens(items: Seq<Document>, rest: Seq<TokenView>)
    requires
        forall|i: int| 0 <= i < items.len() ==> unique_keys(#[trigger] items[i]),
    ensures
        parse_array(tokens_of(Document::Array(items)) + rest) == (Parsed {
            outcome: Ok(Document::Array(items)),
            rest,
        }),
    decreases items, 1int,
{
    let tokens = tokens_of(Document::Array(items)) + rest;
    let close = seq![TokenView::RightSquareBrancket] + rest;
    assert(tokens[0] == TokenView::LeftSquareBrancket);
    assert(tokens.skip(1) == item_tokens(items) + close);
    if items.len() == 0 {
        assert(tokens.skip(1)[0] == TokenView::RightSquareBrancket);
        assert(tokens.skip(2) == rest);
        assert(items == Seq::<Document>::empty());
    } else {
        lemma_tokens_of_first(items[0]);
        assert(tokens.skip(1)[0] == tokens_of(items[0])[0]);
        lemma_parse_item_tokens(items, Seq::empty(), rest);
        assert(item_tokens(items) + seq![TokenView::RightSquareBrancket] + rest == item_tokens(
            items,
        ) + close);
        assert(Seq::<Document>::empty() + items == items);
    }
}

/// The tokens of the items of an array, up to the closing bracket, are
/// parsed as those items.
pub proof fn lemma_parse_item_tokens(
    items: Seq<Document>,
    before: Seq<Document>,
    rest: Seq<TokenView>,
)
    requires
        items.len() > 0,
        forall|i: int| 0 <= i < items.len() ==> unique_keys(#[trigger] items[i]),
    ensures
        parse_item_list(
            item_tokens(items) + seq![TokenView::RightSquareBrancket] + rest,
            before,
        ) == (Parsed { outcome: Ok(Document::Array(before + items)), rest }),
    decreases items, 0int,
{
    let tokens = item_tokens(items) + seq![TokenView::RightSquareBrancket] + rest;
    let close = seq![TokenView::RightSquareBrancket] + rest;
    lemma_tokens_of_first(items[0]);
    if items.len() == 1 {
        assert(tokens == tokens_of(items[0]) + close);
        lemma_parse_tokens_of(items[0], close);
        assert(close[0] == TokenView::RightSquareBrancket);
        assert(close.skip(1) == rest);
        assert(before.push(items[0]) == before + items);
    } else {
        let others = items.skip(1);
        let following = item_tokens(others) + seq![TokenView::RightSquareBrancket] + rest;
        let tail = seq![TokenView::Comma] + following;
        assert(tokens == tokens_of(items[0]) + tail);
        lemma_parse_tokens_of(items[0], tail);
        assert(tail[0] == TokenView::Comma);
        assert(tail.skip(1) == following);
        assert forall|i: int| 0 <= i < others.len() implies unique_keys(#[trigger] others[i]) by {
            assert(others[i] == items[i + 1]);
        }
        lemma_parse_item_tokens(others, before.push(items[0]), rest);
        assert(before.push(items[0]) + others == before + items);
    }
}

/// The tokens of one member are parsed as that member.
pub proof fn lemma_parse_member_tokens(member: (Seq<char>, Document), rest: Seq<TokenView>)
    requires
        unique_keys(member.1),
    ensures
        parse_member(tokens_of_member(member) + rest) == (ParsedMember {
            outcome: Ok(member),
            rest,
        }),
    decreases member, 0int,
{
    let tokens = tokens_of_member(member) + rest;
    assert(tokens[0] == TokenView::String(member.0));
    assert(tokens.skip(1)[0] == TokenView::Colon);
    assert(tokens.skip(2) == tokens_of(member.1) + rest);
    lemma_parse_tokens_of(member.1, rest);
}

/// The tokens of an object are parsed as that object.
pub proof fn lemma_parse_object_tokens(members: Seq<(Seq<char>, Document)>, rest: Seq<TokenView>)
    requires
        keys_unique(members),
        forall|i: int| 0 <= i < members.len() ==> unique_keys((#[trigger] members[i]).1),
    ensures
        parse_object(tokens_of(Document::Object(members)) + rest) == (Parsed {
            outcome: Ok(Document::Object(members)),
            rest,
        }),
    decreases members, 1int,
{
    let tokens = tokens_of(Document::Object(members)) + rest;
    let close = seq![TokenView::RightCurlyBranckt] + rest;
    assert(tokens[0] == TokenView::LeftCurlyBranckt);
    assert(tokens.skip(1) == member_tokens(members) + close);
    if members.len() == 0 {
        assert(tokens.skip(1)[0] == TokenView::RightCurlyBranckt);
        assert(tokens.skip(2) == rest);
        assert(members == Seq::<(Seq<char>, Document)>::empty());
    } else {
        assert(tokens_of_member(members[0])[0] == TokenView::String(members[0].0));
        assert(member_tokens(members)[0] == TokenView::String(members[0].0));
        assert(tokens.skip(1)[0] == TokenView::String(members[0].0));
        assert(Seq::<(Seq<char>, Document)>::empty() + members == members);
        lemma_parse_member_list_tokens(members, Seq::empty(), rest);
        assert(member_tokens(members) + seq![TokenView::RightCurlyBranckt] + rest
            == member_tokens(members) + close);
    }
}

/// The tokens of the members of an object, up to the closing bracket, are
/// parsed as those members.
pub proof fn lemma_parse_member_list_tokens(
    members: Seq<(Seq<char>, Document)>,
    before: Seq<(Seq<char>, Document)>,
    rest: Seq<TokenView>,
)
    requires
        members.len() > 0,
        keys_unique(before + members),
        forall|i: int| 0 <= i < members.len() ==> unique_keys((#[trigger] members[i]).1),
    ensures
        parse_member_list(
            member_tokens(members) + seq![TokenView::RightCurlyBranckt] + rest,
            before,
        ) == (Parsed { outcome: Ok(Document::Object(before + members)), rest }),
    decreases members, 0int,
{
    let tokens = member_tokens(members) + seq![TokenView::RightCurlyBranckt] + rest;
    let close = seq![TokenView::RightCurlyBranckt] + rest;
    let all = before + members;
    let first = members[0];
    assert(!has_key(before, first.0)) by {
        if has_key(before, first.0) {
            let i = choose|i: int| 0 <= i < before.len() && (#[trigger] before[i]).0 == first.0;
            assert(all[i] == before[i]);
            assert(all[before.len() as int] == first);
        }
    }
    lemma_insert_new_key(before, first.0, first.1);
    assert(tokens_of_member(first).len() >= 2);
    if members.len() == 1 {
        assert(tokens == tokens_of_member(first) + close);
        lemma_parse_member_tokens(first, close);
        assert(close[0] == TokenView::RightCurlyBranckt);
        assert(close.skip(1) == rest);
        assert(before.push(first) == before + members);
    } else {
        let others = members.skip(1);
        let following = member_tokens(others) + seq![TokenView::RightCurlyBranckt] + rest;
        let tail = seq![TokenView::Comma] + following;
        assert(tokens == tokens_of_member(first) + tail);
        lemma_parse_member_tokens(first, tail);
        assert(tail[0] == TokenView::Comma);
        assert(tail.skip(1) == following);
        assert forall|i: int| 0 <= i < others.len() implies unique_keys(
            (#[trigger] others[i]).1,
        ) by {
            assert(others[i] == members[i + 1]);
        }
        assert(before.push(first) + others == before + members);
        lemma_parse_member_list_tokens(others, before.push(first), rest);
    }
}

/// The text of a readable document whose objects have no key twice reads
/// back as that document, at every indent width; so writing it again gives
/// the same text.
pub proof fn lemma_render_reads_back(document: Document, indent: nat)
    requires
        unique_keys(document),
        readable(document),
    ensures
        parse_text(render(document, indent, Seq::empty())) == Ok::<Document, Seq<char>>(document),
        pretty(render(document, indent, Seq::empty()), indent) == Ok::<Seq<char>, Seq<char>>(
            render(document, indent, Seq::empty()),
        ),
{
    let nothing = Seq::<char>::empty();
    let text = render(document, indent, nothing);
    assert(lex_all(nothing) == Ok::<Seq<TokenView>, Seq<char>>(Seq::empty()));
    lemma_lex_render(document, indent, nothing, nothing, Seq::empty());
    assert(text + nothing == text);
    assert(tokens_of(document) + Seq::<TokenView>::empty() == tokens_of(document));
    lemma_parse_tokens_of(document, Seq::empty());
}

// ---------------------------------------------------------------------------
// What holds of every text that was read
// ---------------------------------------------------------------------------

/// A number token holds the text of an integer.
pub open spec fn integer_token(token: TokenView) -> bool {
    match token {
        TokenView::Number(text) => is_integer(text),
        _ => true,
    }
}

/// Every number token among `tokens` holds the text of an integer.
pub open spec fn integer_tokens(tokens: Seq<TokenView>) -> bool {
    forall|i: int| 0 <= i < tokens.len() ==> integer_token(#[trigger] tokens[i])
}

/// The digits that were counted are digits.
pub proof fn lemma_counted_are_digits(s: Seq<char>)
    ensures
        count_digits(s) <= s.len(),
        all_digits(s.take(count_digits(s) as int)),
    decreases s.len(),
{
    if s.len() > 0 && spec_is_digit(s[0]) {
        let tail = s.skip(1);
        lemma_counted_are_digits(tail);
        let n = count_digits(s) as int;
        assert forall|i: int| 0 <= i < s.take(n).len() implies spec_is_digit(
            #[trigger] s.take(n)[i],
        ) by {
            if i > 0 {
                assert(s.take(n)[i] == tail.take(n - 1)[i - 1]);
            }
        }
    }
}

/// A keyword is scanned as its own token or not at all.
pub proof fn lemma_lex_word_token(s: Seq<char>, word: Seq<char>, token: TokenView)
    ensures
        lex_word(s, word, token).outcome is Ok ==> lex_word(s, word, token).outcome == Ok::<
            TokenView,
            Seq<char>,
        >(token),
    decreases word.len(),
{
    if word.len() > 0 && s.len() > 0 && s[0] == word[0] {
        lemma_lex_word_token(s.skip(1), word.skip(1), token);
    }
}

/// A string body is scanned as a string or not at all.
pub proof fn lemma_lex_string_token(s: Seq<char>, text: Seq<char>)
    ensures
        lex_string(s, text).outcome matches Ok(token) ==> token is String,
    decreases s.len(),
{
    if s.len() == 0 || s[0] == '"' {
    } else if s[0] == '\\' {
        if s.len() > 1 && spec_is_escape_target(s[1]) {
            lemma_lex_string_token(s.skip(2), text.push(spec_escape(s[1])->0));
        }
    } else if spec_is_unescaped(s[0]) {
        lemma_lex_string_token(s.skip(1), text.push(s[0]));
    }
}

/// The tokenizer hands out no number but an integer.
pub proof fn lemma_lex_integer_token(s: Seq<char>)
    ensures
        lex(s).outcome matches Ok(token) ==> integer_token(token),
{
    let t = skip_whitespace(s);
    if t.len() > 0 {
        if spec_is_digit(t[0]) || t[0] == '-' {
            let sign: int = if t[0] == '-' {
                1
            } else {
                0
            };
            let digits = count_digits(t.skip(sign)) as int;
            lemma_counted_are_digits(t.skip(sign));
            if digits > 0 {
                let text = t.take(sign + digits);
                assert(text[0] == t[0]);
                assert(text.skip(sign) == t.skip(sign).take(digits));
                assert(text.skip(0) == text);
            }
        } else {
            lemma_lex_string_token(t.skip(1), Seq::empty());
            lemma_lex_word_token(t, "true"@, TokenView::Boolean(true));
            lemma_lex_word_token(t, "false"@, TokenView::Boolean(false));
            lemma_lex_word_token(t, "null"@, TokenView::Null);
        }
    }
}

/// Every number among the tokens of a text is an integer.
pub proof fn lemma_lex_all_integer(s: Seq<char>)
    ensures
        lex_all(s) matches Ok(tokens) ==> integer_tokens(tokens),
    decreases s.len(),
{
    let first = lex(s);
    lemma_lex_integer_token(s);
    match first.outcome {
        Ok(TokenView::Eof) => {},
        Ok(token) => {
            lemma_lex_consumes(s);
            lemma_lex_all_integer(first.rest);
            if let Ok(more) = lex_all(first.rest) {
                let tokens = seq![token] + more;
                assert forall|i: int| 0 <= i < tokens.len() implies integer_token(
                    #[trigger] tokens[i],
                ) by {
                    if i > 0 {
                        assert(tokens[i] == more[i - 1]);
                    }
                }
            }
        },
        Err(_) => {},
    }
}

/// What holds of every parsed document: no object has a key twice; and,
/// where `strict` says that the numbers among the tokens were integers, the
/// numbers of the document are integers.
pub open spec fn sound(document: Document, strict: bool) -> bool {
    unique_keys(document) && (strict ==> integer_numbers(document))
}

/// [`sound`] of each of the items of an array.
pub open spec fn sound_items(items: Seq<Document>, strict: bool) -> bool {
    forall|i: int| 0 <= i < items.len() ==> sound(#[trigger] items[i], strict)
}

/// [`sound`] of the members of an object.
pub open spec fn sound_members(members: Seq<(Seq<char>, Document)>, strict: bool) -> bool {
    keys_unique(members) && forall|i: int|
        0 <= i < members.len() ==> sound((#[trigger] members[i]).1, strict)
}

/// What is left of tokens whose numbers are integers has integers for numbers.
proof fn lemma_integer_tokens_skip(tokens: Seq<TokenView>, n: int)
    requires
        integer_tokens(tokens),
        0 <= n <= tokens.len(),
    ensures
        integer_tokens(tokens.skip(n)),
{
    assert forall|i: int| 0 <= i < tokens.skip(n).len() implies integer_token(
        #[trigger] tokens.skip(n)[i],
    ) by {
        assert(tokens.skip(n)[i] == tokens[i + n]);
    }
}

/// A parsed value is sound, and the tokens left keep integers for numbers.
pub proof fn lemma_parse_value_sound(tokens: Seq<TokenView>, strict: bool)
    requires
        strict ==> integer_tokens(tokens),
    ensures
        parse_value(tokens).outcome matches Ok(document) ==> sound(document, strict),
        strict ==> integer_tokens(parse_value(tokens).rest),
    decreases tokens.len(), 3int,
{
    if tokens.len() > 0 {
        if strict {
            lemma_integer_tokens_skip(tokens, 1);
            assert(integer_token(tokens[0]));
        }
        match tokens[0] {
            TokenView::LeftCurlyBranckt => {
                if starts_with(tokens.skip(1), TokenView::RightCurlyBranckt) {
                    if strict {
                        lemma_integer_tokens_skip(tokens, 2);
                    }
                } else {
                    lemma_parse_member_list_sound(tokens.skip(1), Seq::empty(), strict);
                }
            },
            TokenView::LeftSquareBrancket => {
                if starts_with(tokens.skip(1), TokenView::RightSquareBrancket) {
                    if strict {
                        lemma_integer_tokens_skip(tokens, 2);
                    }
                } else {
                    lemma_parse_item_list_sound(tokens.skip(1), Seq::empty(), strict);
                }
            },
            _ => {},
        }
    }
}

/// The value of a parsed member is sound.
pub proof fn lemma_parse_member_sound(tokens: Seq<TokenView>, strict: bool)
    requires
        strict ==> integer_tokens(tokens),
    ensures
        parse_member(tokens).outcome matches Ok(member) ==> sound(member.1, strict),
        strict ==> integer_tokens(parse_member(tokens).rest),
    decreases tokens.len(), 0int,
{
    if strict && tokens.len() >= 1 {
        lemma_integer_tokens_skip(tokens, 1);
    }
    if tokens.len() >= 2 {
        if strict {
            lemma_integer_tokens_skip(tokens, 2);
            assert(tokens.skip(1).skip(1) == tokens.skip(2));
        }
        lemma_parse_value_sound(tokens.skip(2), strict);
    }
}

/// An object is sound where the members parsed before were.
pub proof fn lemma_parse_member_list_sound(
    tokens: Seq<TokenView>,
    members: Seq<(Seq<char>, Document)>,
    strict: bool,
)
    requires
        strict ==> integer_tokens(tokens),
        sound_members(members, strict),
    ensures
        parse_member_list(tokens, members).outcome matches Ok(document) ==> sound(
            document,
            strict,
        ),
        strict ==> integer_tokens(parse_member_list(tokens, members).rest),
    decreases tokens.len(), 1int,
{
    lemma_parse_member_sound(tokens, strict);
    lemma_parse_member_consumes(tokens);
    let first = parse_member(tokens);
    if let Ok((key, value)) = first.outcome {
        let after = insert_member(members, key, value);
        lemma_insert_member_unique(members, key, value);
        lemma_insert_member_each(members, key, value);
        assert(sound_members(after, strict)) by {
            assert forall|i: int| 0 <= i < after.len() implies sound(
                (#[trigger] after[i]).1,
                strict,
            ) by {
                if after[i] != (key, value) {
                    assert(after[i] == members[i]);
                }
            }
        }
        lemma_parse_member_tail_sound(first.rest, after, strict);
    }
}

/// An object is sound where the members parsed before were, seen from behind
/// a member.
pub proof fn lemma_parse_member_tail_sound(
    tokens: Seq<TokenView>,
    members: Seq<(Seq<char>, Document)>,
    strict: bool,
)
    requires
        strict ==> integer_tokens(tokens),
        sound_members(members, strict),
    ensures
        parse_member_tail(tokens, members).outcome matches Ok(document) ==> sound(
            document,
            strict,
        ),
        strict ==> integer_tokens(parse_member_tail(tokens, members).rest),
    decreases tokens.len(), 2int,
{
    if tokens.len() > 0 {
        if strict {
            lemma_integer_tokens_skip(tokens, 1);
        }
        if !starts_with(tokens, TokenView::RightCurlyBranckt) {
            lemma_parse_member_list_sound(tokens.skip(1), members, strict);
        }
    }
}

/// An array is sound where the items parsed before were.
pub proof fn lemma_parse_item_list_sound(
    tokens: Seq<TokenView>,
    items: Seq<Document>,
    strict: bool,
)
    requires
        strict ==> integer_tokens(tokens),
        sound_items(items, strict),
    ensures
        parse_item_list(tokens, items).outcome matches Ok(document) ==> sound(document, strict),
        strict ==> integer_tokens(parse_item_list(tokens, items).rest),
    decreases tokens.len(), 4int,
{
    lemma_parse_value_sound(tokens, strict);
    lemma_parse_value_consumes(tokens);
    let first = parse_value(tokens);
    if let Ok(item) = first.outcome {
        let after = items.push(item);
        assert(sound_items(after, strict)) by {
            assert forall|i: int| 0 <= i < after.len() implies sound(
                #[trigger] after[i],
                strict,
            ) by {
                if i < items.len() {
                    assert(after[i] == items[i]);
                }
            }
        }
        lemma_parse_item_tail_sound(first.rest, after, strict);
    }
}

/// An array is sound where the items parsed before were, seen from behind an
/// item.
pub proof fn lemma_parse_item_tail_sound(
    tokens: Seq<TokenView>,
    items: Seq<Document>,
    strict: bool,
)
    requires
        strict ==> integer_tokens(tokens),
        sound_items(items, strict),
    ensures
        parse_item_tail(tokens, items).outcome matches Ok(document) ==> sound(document, strict),
        strict ==> integer_tokens(parse_item_tail(tokens, items).rest),
    decreases tokens.len(), 2int,
{
    if tokens.len() > 0 {
        if strict {
            lemma_integer_tokens_skip(tokens, 1);
        }
        if !starts_with(tokens, TokenView::RightSquareBrancket) {
            lemma_parse_item_list_sound(tokens.skip(1), items, strict);
        }
    }
}

/// In a document that was read from a text, no object has a key twice and
/// every number is an integer.
pub proof fn lemma_parse_text_sound(json: Seq<char>)
    ensures
        parse_text(json) matches Ok(document) ==> unique_keys(document) && integer_numbers(
            document,
        ),
{
    lemma_lex_all_integer(json);
    if let Ok(tokens) = lex_all(json) {
        lemma_parse_value_sound(tokens, true);
    }
}

/// Writing a text that was written changes nothing: where `json` holds a
/// document whose strings and keys are free of characters that need an
/// escape, the text written from it is read as the same document and written
/// as the same text again, at the same indent width.
///
/// The strings have to be left out that hold a quotation mark, a backslash or
/// a control character: the generator writes them as they are, and the
/// tokenizer does not read them back.
pub proof fn lemma_pretty_idempotent(json: Seq<char>, indent: nat)
    requires
        parse_text(json) matches Ok(document) && plain_strings(document),
    ensures
        pretty(json, indent) matches Ok(text) && pretty(text, indent) == pretty(json, indent)
            && parse_text(text) == parse_text(json),
{
    let document = parse_text(json)->Ok_0;
    lemma_parse_text_sound(json);
    lemma_render_reads_back(document, indent);
}

// ---------------------------------------------------------------------------
// The literals
// ---------------------------------------------------------------------------

/// One unit of the body of a string literal: a character that stands for
/// itself, or a backslash and the character behind it.
pub enum Piece {
    Plain(char),
    Escaped(char),
}

/// A literal of one of the primitive kinds, as it is written: `null`, `true`
/// or `false`, the text of an integer, or the pieces of a string.
pub enum Literal {
    Null,
    Boolean(bool),
    Integer(Seq<char>),
    String(Seq<Piece>),
}

/// A plain character has to be one that needs no escape, and the character
/// behind a backslash one of the escape targets.
pub open spec fn piece_valid(piece: Piece) -> bool {
    match piece {
        Piece::Plain(c) => spec_is_unescaped(c),
        Piece::Escaped(c) => spec_is_escape_target(c),
    }
}

/// The characters that the piece is written with.
pub open spec fn piece_source(piece: Piece) -> Seq<char> {
    match piece {
        Piece::Plain(c) => seq![c],
        Piece::Escaped(c) => seq!['\\', c],
    }
}

/// The character that the piece stands for.
pub open spec fn piece_value(piece: Piece) -> char {
    match piece {
        Piece::Plain(c) => c,
        Piece::Escaped(c) => spec_escape(c)->0,
    }
}

/// The characters that the pieces are written with.
pub open spec fn pieces_source(pieces: Seq<Piece>) -> Seq<char>
    decreases pieces.len(),
{
    if pieces.len() == 0 {
        Seq::empty()
    } else {
        piece_source(pieces[0]) + pieces_source(pieces.skip(1))
    }
}

/// The characters that the pieces stand for.
pub open spec fn pieces_value(pieces: Seq<Piece>) -> Seq<char> {
    pieces.map_values(|piece: Piece| piece_value(piece))
}

/// Whether the literal is written as the grammar asks.
pub open spec fn literal_valid(literal: Literal) -> bool {
    match literal {
        Literal::Integer(text) => is_integer(text),
        Literal::String(pieces) => forall|i: int|
            0 <= i < pieces.len() ==> piece_valid(#[trigger] pieces[i]),
        _ => true,
    }
}

/// The text of the literal.
pub open spec fn literal_source(literal: Literal) -> Seq<char> {
    match literal {
        Literal::Null => "null"@,
        Literal::Boolean(b) => if b {
            "true"@
        } else {
            "false"@
        },
        Literal::Integer(text) => text,
        Literal::String(pieces) => "\""@ + pieces_source(pieces) + "\""@,
    }
}

/// The document that the literal stands for.
pub open spec fn literal_document(literal: Literal) -> Document {
    match literal {
        Literal::Null => Document::Null,
        Literal::Boolean(b) => Document::Boolean(b),
        Literal::Integer(text) => Document::Number(text),
        Literal::String(pieces) => Document::String(pieces_value(pieces)),
    }
}

/// The body of a string literal, closed by a quotation mark, is scanned as
/// the string of the characters that its pieces stand for.
pub proof fn lemma_lex_string_pieces(pieces: Seq<Piece>, s: Seq<char>, before: Seq<char>)
    requires
        forall|i: int| 0 <= i < pieces.len() ==> piece_valid(#[trigger] pieces[i]),
    ensures
        lex_string(pieces_source(pieces) + "\""@ + s, before) == (Lexed {
            outcome: Ok(TokenView::String(before + pieces_value(pieces))),
            rest: s,
        }),
    decreases pieces.len(),
{
    reveal_strlit("\"");
    let all = pieces_source(pieces) + "\""@ + s;
    if pieces.len() == 0 {
        assert(all[0] == '"');
        assert(all.skip(1) == s);
        assert(before + pieces_value(pieces) == before);
    } else {
        let others = pieces.skip(1);
        let following = pieces_source(others) + "\""@ + s;
        assert(piece_valid(pieces[0]));
        assert forall|i: int| 0 <= i < others.len() implies piece_valid(#[trigger] others[i]) by {
            assert(others[i] == pieces[i + 1]);
        }
        let value = piece_value(pieces[0]);
        lemma_lex_string_pieces(others, s, before.push(value));
        assert(before.push(value) + pieces_value(others) == before + pieces_value(pieces));
        match pieces[0] {
            Piece::Plain(c) => {
                assert(all == seq![c] + following);
                assert(all[0] == c);
                assert(all.skip(1) == following);
            },
            Piece::Escaped(c) => {
                assert(all == seq!['\\', c] + following);
                assert(all[0] == '\\');
                assert(all[1] == c);
                assert(all.skip(2) == following);
            },
        }
    }
}

/// A literal of a primitive kind is read as the document it stands for, and
/// written as the text of that document: `null`, `true` and `false` as
/// themselves, an integer as its own text, and a string as the characters
/// that its pieces stand for, between quotation marks.
pub proof fn lemma_literal_round_trip(literal: Literal, indent: nat)
    requires
        literal_valid(literal),
    ensures
        parse_text(literal_source(literal)) == Ok::<Document, Seq<char>>(
            literal_document(literal),
        ),
        pretty(literal_source(literal), indent) == Ok::<Seq<char>, Seq<char>>(
            render(literal_document(literal), indent, Seq::empty()),
        ),
{
    let nothing = Seq::<char>::empty();
    let source = literal_source(literal);
    assert(lex_all(nothing) == Ok::<Seq<TokenView>, Seq<char>>(Seq::empty()));
    assert(source + nothing == source);
    let token = tokens_of(literal_document(literal))[0];
    assert(lex_all(source) == Ok::<Seq<TokenView>, Seq<char>>(seq![token])) by {
        assert(seq![token] + Seq::<TokenView>::empty() == seq![token]);
        match literal {
            Literal::Null => {
                lemma_lex_keyword(nothing);
            },
            Literal::Boolean(b) => {
                lemma_lex_keyword(nothing);
            },
            Literal::Integer(text) => {
                lemma_lex_integer(text, nothing);
            },
            Literal::String(pieces) => {
                reveal_strlit("\"");
                lemma_lex_string_pieces(pieces, nothing, Seq::empty());
                assert(source[0] == '"');
                assert(skip_whitespace(source) == source);
                assert(source.skip(1) == pieces_source(pieces) + "\""@ + nothing);
                assert(Seq::<char>::empty() + pieces_value(pieces) == pieces_value(pieces));
            },
        }
    }
    assert(seq![token].skip(1) == Seq::<TokenView>::empty());
}

} // verus!
