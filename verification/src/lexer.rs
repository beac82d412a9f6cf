use vstd::prelude::*;

use crate::diagnostic::{Diagnostic, Label};
use crate::source::{
    FileId, SourceFile, Span, byte_offset, char_at, is_boundary, lemma_byte_offset_increases,
    lemma_char_at,
};

verus! {

/// The kinds of lexical tokens.
#[derive(Clone, Debug, PartialEq, Eq)]
pub enum TokenKind {
    TypeIdentifier,
    ValueIdentifier,
    Integer,
    Float,
    Symbol(Vec<u8>),
    Require,
    Extern,
    LeftParen,
    RightParen,
    LeftBrace,
    RightBrace,
    LeftBracket,
    RightBracket,
    Comma,
    Dot,
    Semicolon,
    Colon,
    Arrow,
    FatArrow,
    DoubleColon,
    Bind,
    Operator,
    Eof,
}

/// A token with the characters it covers.
#[derive(Clone, Debug, PartialEq, Eq)]
pub struct Token {
    pub kind: TokenKind,
    pub span: Span,
}

pub open spec fn is_ascii_letter(c: char) -> bool {
    ('a' <= c && c <= 'z') || ('A' <= c && c <= 'Z')
}

pub open spec fn is_digit(c: char) -> bool {
    '0' <= c && c <= '9'
}

pub open spec fn is_word_char(c: char) -> bool {
    is_ascii_letter(c) || is_digit(c) || c == '_'
}

/// Tokens of a file: in order, within the text, and closed by an end-of-file token.
pub open spec fn well_formed_tokens(tokens: Seq<Token>, file: FileId, length: int) -> bool {
    &&& tokens.len() >= 1
    &&& tokens.last().kind == TokenKind::Eof
    &&& tokens.last().span.start == length && tokens.last().span.end == length
    &&& forall|i: int|
        0 <= i < tokens.len() ==> {
            &&& (#[trigger] tokens[i]).span.file == file
            &&& tokens[i].span.start <= tokens[i].span.end <= length
            &&& i + 1 < tokens.len() ==> tokens[i].span.end <= tokens[i + 1].span.start
            &&& i + 1 < tokens.len() ==> tokens[i].kind != TokenKind::Eof
            &&& i + 1 < tokens.len() ==> tokens[i].span.start < tokens[i].span.end
        }
}

fn is_letter(c: char) -> (letter: bool)
    ensures
        letter == is_ascii_letter(c),
{
    ('a' <= c && c <= 'z') || ('A' <= c && c <= 'Z')
}

fn is_number(c: char) -> (digit: bool)
    ensures
        digit == is_digit(c),
{
    '0' <= c && c <= '9'
}

fn is_word(c: char) -> (word: bool)
    ensures
        word == is_word_char(c),
{
    is_letter(c) || is_number(c) || c == '_'
}

/// The keyword or identifier kind of the word `chars[start..end]`.
fn word_kind(chars: &Vec<char>, start: usize, end: usize) -> (kind: TokenKind)
    requires
        start < end <= chars@.len(),
    ensures
        kind == TokenKind::Require || kind == TokenKind::Extern || kind == TokenKind::TypeIdentifier
            || kind == TokenKind::ValueIdentifier,
        kind == TokenKind::Require <==> chars@.subrange(start as int, end as int) == "require"@,
        kind == TokenKind::Extern <==> chars@.subrange(start as int, end as int) == "extern"@,
        kind == TokenKind::TypeIdentifier <==> kind != TokenKind::Require && kind
            != TokenKind::Extern && 'A' <= chars@[start as int] <= 'Z',
{
    proof {
        reveal_strlit("require");
        reveal_strlit("extern");
        assert("require"@.len() != "extern"@.len());
    }
    if matches_word(chars, start, end, "require") {
        return TokenKind::Require;
    }
    if matches_word(chars, start, end, "extern") {
        return TokenKind::Extern;
    }
    if 'A' <= chars[start] && chars[start] <= 'Z' {
        TokenKind::TypeIdentifier
    } else {
        TokenKind::ValueIdentifier
    }
}

fn matches_word(chars: &Vec<char>, start: usize, end: usize, word: &str) -> (same: bool)
    requires
        start <= end <= chars@.len(),
    ensures
        same == (chars@.subrange(start as int, end as int) == word@),
{
    let mut expected: Vec<char> = Vec::new();
    crate::text::push_str(&mut expected, word);
    if end - start != expected.len() {
        return false;
    }
    let mut index: usize = 0;
    while index < expected.len()
        invariant
            start <= end <= chars@.len(),
            end - start == expected@.len(),
            expected@ == word@,
            index <= expected@.len(),
            forall|k: int| 0 <= k < index ==> chars@[start + k] == expected@[k],
        decreases expected@.len() - index,
    {
        if chars[start + index] != expected[index] {
            proof {
                assert(chars@.subrange(start as int, end as int)[index as int] != word@[index as int]);
            }
            return false;
        }
        index = index + 1;
    }
    proof {
        assert(chars@.subrange(start as int, end as int) =~= word@);
    }
    true
}

/// The punctuation token that the two characters `c` and `d` make together, if any.
pub open spec fn two_char_punctuation(c: char, d: char) -> Option<TokenKind> {
    if c == '-' && d == '>' {
        Some(TokenKind::Arrow)
    } else if c == '=' && d == '>' {
        Some(TokenKind::FatArrow)
    } else if c == ':' && d == ':' {
        Some(TokenKind::DoubleColon)
    } else if c == ':' && d == '=' {
        Some(TokenKind::Bind)
    } else if (c == '=' || c == '!' || c == '<' || c == '>') && d == '=' {
        Some(TokenKind::Operator)
    } else if (c == '<' && d == '<') || (c == '>' && d == '>') || (c == '&' && d == '&') || (c
        == '|' && d == '|') {
        Some(TokenKind::Operator)
    } else {
        None
    }
}

/// The punctuation token that the character `c` makes alone, if any.
pub open spec fn one_char_punctuation(c: char) -> Option<TokenKind> {
    if c == '(' {
        Some(TokenKind::LeftParen)
    } else if c == ')' {
        Some(TokenKind::RightParen)
    } else if c == '{' {
        Some(TokenKind::LeftBrace)
    } else if c == '}' {
        Some(TokenKind::RightBrace)
    } else if c == '[' {
        Some(TokenKind::LeftBracket)
    } else if c == ']' {
        Some(TokenKind::RightBracket)
    } else if c == ',' {
        Some(TokenKind::Comma)
    } else if c == '.' {
        Some(TokenKind::Dot)
    } else if c == ';' {
        Some(TokenKind::Semicolon)
    } else if c == ':' {
        Some(TokenKind::Colon)
    } else if c == '+' || c == '-' || c == '*' || c == '/' || c == '%' || c == '<' || c == '>'
        || c == '&' || c == '|' || c == '^' || c == '!' || c == '=' || c == '~' {
        Some(TokenKind::Operator)
    } else {
        None
    }
}

/// The punctuation token at `at` and its width: the longest of a two-character and a
/// one-character token.
pub open spec fn punctuation_at(chars: Seq<char>, at: int) -> Option<(TokenKind, usize)> {
    if at + 1 < chars.len() && two_char_punctuation(chars[at], chars[at + 1]) is Some {
        Some((two_char_punctuation(chars[at], chars[at + 1])->0, 2usize))
    } else {
        match one_char_punctuation(chars[at]) {
            Some(kind) => Some((kind, 1usize)),
            None => None,
        }
    }
}

/// The kind of a punctuation token starting at `at` and how many characters it takes.
fn punctuation(chars: &Vec<char>, at: usize) -> (found: Option<(TokenKind, usize)>)
    requires
        at < chars@.len(),
    ensures
        found == punctuation_at(chars@, at as int),
        found matches Some(p) ==> (p.1 == 1 || p.1 == 2) && at + p.1 <= chars@.len(),
        found matches Some(p) ==> p.0 != TokenKind::Eof,
{
    let c = chars[at];
    let next = if chars.len() - at > 1 {
        chars[at + 1]
    } else {
        ' '
    };
    if chars.len() - at > 1 {
        if c == '-' && next == '>' {
            return Some((TokenKind::Arrow, 2));
        }
        if c == '=' && next == '>' {
            return Some((TokenKind::FatArrow, 2));
        }
        if c == ':' && next == ':' {
            return Some((TokenKind::DoubleColon, 2));
        }
        if c == ':' && next == '=' {
            return Some((TokenKind::Bind, 2));
        }
        if (c == '=' || c == '!' || c == '<' || c == '>') && next == '=' {
            return Some((TokenKind::Operator, 2));
        }
        if (c == '<' && next == '<') || (c == '>' && next == '>') || (c == '&' && next == '&') || (
        c == '|' && next == '|') {
            return Some((TokenKind::Operator, 2));
        }
    }
    if c == '(' {
        Some((TokenKind::LeftParen, 1))
    } else if c == ')' {
        Some((TokenKind::RightParen, 1))
    } else if c == '{' {
        Some((TokenKind::LeftBrace, 1))
    } else if c == '}' {
        Some((TokenKind::RightBrace, 1))
    } else if c == '[' {
        Some((TokenKind::LeftBracket, 1))
    } else if c == ']' {
        Some((TokenKind::RightBracket, 1))
    } else if c == ',' {
        Some((TokenKind::Comma, 1))
    } else if c == '.' {
        Some((TokenKind::Dot, 1))
    } else if c == ';' {
        Some((TokenKind::Semicolon, 1))
    } else if c == ':' {
        Some((TokenKind::Colon, 1))
    } else if c == '+' || c == '-' || c == '*' || c == '/' || c == '%' || c == '<' || c == '>'
        || c == '&' || c == '|' || c == '^' || c == '!' || c == '=' || c == '~' {
        Some((TokenKind::Operator, 1))
    } else {
        None
    }
}

/// A blank character: space, tab, line feed or carriage return.
pub open spec fn is_blank_char(c: char) -> bool {
    c == ' ' || c == '\t' || c == '\n' || c == '\r'
}

/// A line comment starts at `p`: two slashes.
pub open spec fn comment_start(chars: Seq<char>, p: int) -> bool {
    0 <= p && p + 1 < chars.len() && chars[p] == '/' && chars[p + 1] == '/'
}

/// The line comment that starts at `p` is still open at `k`: no line feed in `chars[p..=k]`.
pub open spec fn open_comment(chars: Seq<char>, p: int, k: int) -> bool {
    comment_start(chars, p) && forall|q: int| p <= q <= k ==> #[trigger] chars[q] != '\n'
}

/// Offset `k` lies inside a line comment that starts at or after `from`.
pub open spec fn in_comment(chars: Seq<char>, from: int, k: int) -> bool {
    exists|p: int| from <= p <= k && #[trigger] open_comment(chars, p, k)
}

/// The first offset at or after `at` that is neither blank nor inside a line comment.
fn skip_blank(chars: &Vec<char>, at: usize) -> (next: usize)
    requires
        at <= chars@.len(),
    ensures
        at <= next <= chars@.len(),
        forall|k: int|
            at <= k < next ==> is_blank_char(#[trigger] chars@[k]) || in_comment(
                chars@,
                at as int,
                k,
            ),
        next < chars@.len() ==> !is_blank_char(chars@[next as int]) && !in_comment(
            chars@,
            at as int,
            next as int,
        ),
{
    let length = chars.len();
    let mut at = at;
    let ghost first = at as int;
    while at < length && (chars[at] == ' ' || chars[at] == '\t' || chars[at] == '\n' || chars[at]
        == '\r' || (chars[at] == '/' && length - at > 1 && chars[at + 1] == '/'))
        invariant
            first <= at <= length,
            length == chars@.len(),
            forall|k: int|
                first <= k < at ==> is_blank_char(#[trigger] chars@[k]) || in_comment(
                    chars@,
                    first,
                    k,
                ),
            at < length && in_comment(chars@, first, at as int) ==> comment_start(chars@, at as int),
        decreases length - at,
    {
        let start = at;
        at = at + 1;
        if chars[at - 1] == '/' {
            proof {
                assert(comment_start(chars@, start as int));
            }
            while at < length && chars[at] != '\n'
                invariant
                    first <= start < at <= length,
                    length == chars@.len(),
                    comment_start(chars@, start as int),
                    forall|q: int| start <= q < at ==> #[trigger] chars@[q] != '\n',
                    forall|k: int|
                        first <= k < start ==> is_blank_char(#[trigger] chars@[k]) || in_comment(
                            chars@,
                            first,
                            k,
                        ),
                decreases length - at,
            {
                at = at + 1;
            }
            proof {
                assert forall|k: int| first <= k < at implies is_blank_char(#[trigger] chars@[k])
                    || in_comment(chars@, first, k) by {
                    if k >= start {
                        assert(open_comment(chars@, start as int, k));
                    }
                }
                if at < length {
                    assert forall|p: int| first <= p <= at implies !open_comment(
                        chars@,
                        p,
                        at as int,
                    ) by {
                        assert(chars@[at as int] == '\n');
                    }
                }
            }
        } else {
            proof {
                assert(is_blank_char(chars@[start as int]));
                if at < length && in_comment(chars@, first, at as int) {
                    let p = choose|p: int| first <= p <= at && #[trigger] open_comment(
                        chars@,
                        p,
                        at as int,
                    );
                    if p <= start {
                        assert(open_comment(chars@, p, start as int));
                        assert(in_comment(chars@, first, start as int));
                        assert(comment_start(chars@, start as int));
                    }
                }
            }
        }
    }
    proof {
        if at < length {
            assert(!comment_start(chars@, at as int));
        }
    }
    at
}

/// The end of the run of word characters that starts at `from`.
pub open spec fn run_end(chars: Seq<char>, from: int) -> int
    decreases chars.len() - from,
{
    if 0 <= from < chars.len() && is_word_char(chars[from]) {
        run_end(chars, from + 1)
    } else {
        from
    }
}

/// The keyword or identifier kind of a word, by its characters.
pub open spec fn word_kind_of(word: Seq<char>) -> TokenKind {
    if word == "require"@ {
        TokenKind::Require
    } else if word == "extern"@ {
        TokenKind::Extern
    } else if 'A' <= word[0] <= 'Z' {
        TokenKind::TypeIdentifier
    } else {
        TokenKind::ValueIdentifier
    }
}

/// The symbol literal that opens with `"` at `start` closes with the `"` at `close`: every
/// character between is an ASCII character other than `"` and a line feed.
pub open spec fn literal_closes(chars: Seq<char>, start: int, close: int) -> bool {
    &&& start < close < chars.len()
    &&& chars[close] == '"'
    &&& forall|k: int|
        start < k < close ==> #[trigger] chars[k] != '"' && chars[k] != '\n' && (chars[k] as u32)
            < 128
}

/// A word starts at `start`: a letter or an underscore.
pub open spec fn starts_word(chars: Seq<char>, start: int) -> bool {
    is_ascii_letter(chars[start]) || chars[start] == '_'
}

/// `found` is the number that starts at `start`: an integer, or a float where a fraction
/// follows the integer part.
pub open spec fn is_number_token(chars: Seq<char>, start: int, found: (TokenKind, usize)) -> bool {
    let end = run_end(chars, start + 1);
    if end + 1 < chars.len() && chars[end] == '.' && is_digit(chars[end + 1]) {
        found.0 == TokenKind::Float && found.1 == run_end(chars, end + 1)
    } else {
        found.0 == TokenKind::Integer && found.1 == end
    }
}

/// `found` is the symbol literal that starts at `start`: its bytes are the characters up to the
/// closing `"`.
pub open spec fn is_literal_token(chars: Seq<char>, start: int, found: (TokenKind, usize)) -> bool {
    &&& literal_closes(chars, start, found.1 - 1)
    &&& found.0 matches TokenKind::Symbol(bytes)
    &&& bytes@.len() == found.1 - start - 2
    &&& forall|i: int| 0 <= i < bytes@.len() ==> #[trigger] bytes@[i] == chars[start + 1 + i] as u8
}

/// The end offset of the run of word characters starting at `at`.
fn word_end(chars: &Vec<char>, at: usize) -> (end: usize)
    requires
        at <= chars@.len(),
    ensures
        at <= end <= chars@.len(),
        forall|k: int| at <= k < end ==> is_word_char(#[trigger] chars@[k]),
        end < chars@.len() ==> !is_word_char(chars@[end as int]),
        end == run_end(chars@, at as int),
{
    let mut end = at;
    while end < chars.len() && is_word(chars[end])
        invariant
            at <= end <= chars@.len(),
            forall|k: int| at <= k < end ==> is_word_char(#[trigger] chars@[k]),
            run_end(chars@, end as int) == run_end(chars@, at as int),
        decreases chars@.len() - end,
    {
        end = end + 1;
    }
    end
}

/// The token that starts at `start`, a character that is not blank, and where it ends.
fn next_token(chars: &Vec<char>, file: FileId, start: usize) -> (result: Result<
    (TokenKind, usize),
    Diagnostic,
>)
    requires
        start < chars@.len(),
    ensures
        starts_word(chars@, start as int) ==> (result matches Ok(found) && found.1 == run_end(
            chars@,
            start + 1,
        ) && found.0 == word_kind_of(chars@.subrange(start as int, found.1 as int))),
        is_digit(chars@[start as int]) ==> (result matches Ok(found) && is_number_token(
            chars@,
            start as int,
            found,
        )),
        chars@[start as int] == '"' ==> match result {
            Ok(found) => is_literal_token(chars@, start as int, found),
            Err(_) => forall|close: int| !literal_closes(chars@, start as int, close),
        },
        !starts_word(chars@, start as int) && !is_digit(chars@[start as int]) && chars@[start as int]
            != '"' ==> match result {
            Ok(found) => punctuation_at(chars@, start as int) == Some(
                (found.0, (found.1 - start) as usize),
            ),
            Err(_) => punctuation_at(chars@, start as int) is None,
        },
        result matches Ok(found) ==> start < found.1 <= chars@.len() && found.0 != TokenKind::Eof,
        result matches Ok(found) ==> is_token_at(
            chars@,
            Token { kind: found.0, span: Span { file, start, end: found.1 } },
        ),
        result is Err ==> token_fails(chars@, start as int),
        result matches Err(found) ==> found.primary matches Some(label) && label.span.file == file
            && label.span.start <= label.span.end <= chars@.len(),
{
    proof {
        reveal(is_token_at);
        reveal(token_fails);
    }
    let length = chars.len();
    let c = chars[start];
    if is_letter(c) || c == '_' {
        let end = word_end(chars, start + 1);
        let kind = word_kind(chars, start, end);
        Ok((kind, end))
    } else if is_number(c) {
        let mut end = word_end(chars, start + 1);
        if length - end > 1 && chars[end] == '.' && is_number(chars[end + 1]) {
            end = word_end(chars, end + 1);
            Ok((TokenKind::Float, end))
        } else {
            Ok((TokenKind::Integer, end))
        }
    } else if c == '"' {
        let mut at = start + 1;
        let mut bytes: Vec<u8> = Vec::new();
        while at < length && chars[at] != '"' && chars[at] != '\n' && (chars[at] as u32) < 128
            invariant
                start < at <= length,
                length == chars@.len(),
                chars@[start as int] == '"',
                bytes@.len() == at - start - 1,
                forall|i: int| 0 <= i < bytes@.len() ==> #[trigger] bytes@[i] == chars@[start + 1 + i] as u8,
                forall|k: int|
                    start < k < at ==> #[trigger] chars@[k] != '"' && chars@[k] != '\n' && (
                    chars@[k] as u32) < 128,
            decreases length - at,
        {
            bytes.push(chars[at] as u8);
            at = at + 1;
        }
        if at >= length || chars[at] != '"' {
            proof {
                assert forall|close: int| !literal_closes(chars@, start as int, close) by {
                    if literal_closes(chars@, start as int, close) && close > at {
                        assert(chars@[at as int] != '"' && chars@[at as int] != '\n' && (
                        chars@[at as int] as u32) < 128);
                    }
                }
            }
            let end = if at < length {
                at + 1
            } else {
                length
            };
            return Err(
                Diagnostic::error("unterminated symbol literal").with_primary(
                    Span::new(file, start, end),
                    "close the literal with `\"` on the same line",
                ),
            );
        }
        Ok((TokenKind::Symbol(bytes), at + 1))
    } else {
        match punctuation(chars, start) {
            Some((found, width)) => Ok((found, start + width)),
            None => Err(
                Diagnostic::error("unexpected character").with_primary(
                    Span::new(file, start, start + 1),
                    "this character does not start a token",
                ),
            ),
        }
    }
}

/// `token` is the token that starts where its span starts: it covers exactly the word, number,
/// symbol literal or punctuation there.
#[verifier::opaque]
pub open spec fn is_token_at(chars: Seq<char>, token: Token) -> bool {
    let start = token.span.start as int;
    let end = token.span.end as int;
    &&& start < chars.len()
    &&& if starts_word(chars, start) {
        end == run_end(chars, start + 1) && token.kind == word_kind_of(chars.subrange(start, end))
    } else if is_digit(chars[start]) {
        is_number_token(chars, start, (token.kind, token.span.end))
    } else if chars[start] == '"' {
        is_literal_token(chars, start, (token.kind, token.span.end))
    } else {
        punctuation_at(chars, start) == Some((token.kind, (end - start) as usize))
    }
}

/// No token starts at `start`: an unclosed symbol literal or a character that starts nothing.
#[verifier::opaque]
pub open spec fn token_fails(chars: Seq<char>, start: int) -> bool {
    &&& !starts_word(chars, start)
    &&& !is_digit(chars[start])
    &&& if chars[start] == '"' {
        forall|close: int| !literal_closes(chars, start, close)
    } else {
        punctuation_at(chars, start) is None
    }
}

/// `chars[from..to]` is blank or line comments, and `to` is the first offset after them.
#[verifier::opaque]
pub open spec fn skips_to(chars: Seq<char>, from: int, to: int) -> bool {
    &&& from <= to <= chars.len()
    &&& forall|k: int|
        from <= k < to ==> is_blank_char(#[trigger] chars[k]) || in_comment(chars, from, k)
    &&& to < chars.len() ==> !is_blank_char(chars[to]) && !in_comment(chars, from, to)
}

/// Where the token before `tokens[i]` ends; the text starts at zero.
pub open spec fn previous_end(tokens: Seq<Token>, i: int) -> int {
    if i <= 0 {
        0
    } else {
        tokens[i - 1].span.end as int
    }
}

/// `tokens` are the tokens of `file` read from its start: each one, past the blanks and comments
/// after the one before, is the token that starts there.
#[verifier::opaque]
pub open spec fn scanned(chars: Seq<char>, file: FileId, tokens: Seq<Token>) -> bool {
    forall|i: int|
        0 <= i < tokens.len() ==> {
            &&& (#[trigger] tokens[i]).span.file == file
            &&& tokens[i].kind != TokenKind::Eof
            &&& is_token_at(chars, tokens[i])
            &&& skips_to(chars, previous_end(tokens, i), tokens[i].span.start as int)
        }
}

/// `tokens` are the tokens of `file` whose text is `text`: the tokens read from its start, each
/// past the blanks and comments after the one before, then the end-of-file token past the last
/// blanks.
pub open spec fn lexed_chars(tokens: Seq<Token>, file: FileId, text: Seq<char>) -> bool {
    &&& well_formed_tokens(tokens, file, text.len() as int)
    &&& scanned(text, file, tokens.drop_last())
    &&& skips_to(text, previous_end(tokens, tokens.len() - 1), text.len() as int)
}

/// Reading the tokens of `file` from its start reaches an offset where no token starts.
pub open spec fn lexing_fails(file: FileId, text: Seq<char>) -> bool {
    exists|prefix: Seq<Token>, start: int|
        scanned(text, file, prefix) && skips_to(text, previous_end(prefix, prefix.len() as int), start)
            && start < text.len() && token_fails(text, start)
}

proof fn lemma_skips_to(chars: Seq<char>, from: int, to: int)
    requires
        from <= to <= chars.len(),
        forall|k: int| from <= k < to ==> is_blank_char(#[trigger] chars[k]) || in_comment(chars, from, k),
        to < chars.len() ==> !is_blank_char(chars[to]) && !in_comment(chars, from, to),
    ensures
        skips_to(chars, from, to),
{
    reveal(skips_to);
}

proof fn lemma_scanned_push(chars: Seq<char>, file: FileId, tokens: Seq<Token>, token: Token)
    requires
        scanned(chars, file, tokens),
        token.span.file == file,
        token.kind != TokenKind::Eof,
        is_token_at(chars, token),
        skips_to(chars, previous_end(tokens, tokens.len() as int), token.span.start as int),
    ensures
        scanned(chars, file, tokens.push(token)),
        previous_end(tokens.push(token), tokens.len() + 1int) == token.span.end,
{
    reveal(scanned);
    let next = tokens.push(token);
    assert forall|i: int| 0 <= i < next.len() implies {
        &&& (#[trigger] next[i]).span.file == file
        &&& next[i].kind != TokenKind::Eof
        &&& is_token_at(chars, next[i])
        &&& skips_to(chars, previous_end(next, i), next[i].span.start as int)
    } by {
        if i < tokens.len() {
            assert(next[i] == tokens[i]);
            assert(previous_end(next, i) == previous_end(tokens, i));
        } else {
            assert(previous_end(next, i) == previous_end(tokens, tokens.len() as int));
        }
    }
}

/// Splits the text of a file into tokens whose spans count characters.
fn lex_chars(source: &SourceFile) -> (result: Result<Vec<Token>, Diagnostic>)
    requires
        source.wf(),
    ensures
        result matches Ok(tokens) ==> lexed_chars(tokens@, source.spec_id(), source.spec_text()),
        result matches Err(found) ==> found.primary matches Some(label) && label.span.file
            == source.spec_id() && label.span.start <= label.span.end <= source.spec_text().len(),
        result is Err ==> lexing_fails(source.spec_id(), source.spec_text()),
{
    let chars = source.chars();
    let file = source.id();
    let length = chars.len();
    let mut tokens: Vec<Token> = Vec::new();
    let mut at: usize = 0;
    proof {
        assert(scanned(chars@, file, tokens@)) by {
            reveal(scanned);
        }
    }
    loop
        invariant
            chars@ == source.spec_text(),
            length == chars@.len(),
            file == source.spec_id(),
            at <= length,
            forall|i: int|
                0 <= i < tokens@.len() ==> {
                    &&& (#[trigger] tokens@[i]).span.file == file
                    &&& tokens@[i].span.start < tokens@[i].span.end <= at
                    &&& i + 1 < tokens@.len() ==> tokens@[i].span.end <= tokens@[i + 1].span.start
                    &&& tokens@[i].kind != TokenKind::Eof
                },
            scanned(chars@, file, tokens@),
            at == previous_end(tokens@, tokens@.len() as int),
        decreases length - at,
    {
        let ghost from = at as int;
        at = skip_blank(chars, at);
        proof {
            lemma_skips_to(chars@, from, at as int);
        }
        if at == length {
            let ghost before = tokens@;
            tokens.push(Token { kind: TokenKind::Eof, span: Span::new(file, length, length) });
            proof {
                assert forall|i: int| 0 <= i < tokens@.len() implies {
                    &&& (#[trigger] tokens@[i]).span.file == file
                    &&& tokens@[i].span.start <= tokens@[i].span.end <= length
                    &&& i + 1 < tokens@.len() ==> tokens@[i].span.end <= tokens@[i + 1].span.start
                    &&& i + 1 < tokens@.len() ==> tokens@[i].kind != TokenKind::Eof
                    &&& i + 1 < tokens@.len() ==> tokens@[i].span.start < tokens@[i].span.end
                } by {
                    if i + 1 < tokens@.len() {
                        assert(tokens@[i] == before[i]);
                    }
                }
                assert(tokens@.drop_last() =~= before);
                assert(previous_end(tokens@, tokens@.len() - 1) == previous_end(before, before.len() as int));
            }
            return Ok(tokens);
        }
        let start = at;
        match next_token(chars, file, start) {
            Ok((kind, end)) => {
                at = end;
                let ghost before = tokens@;
                tokens.push(Token { kind, span: Span::new(file, start, end) });
                proof {
                    assert forall|i: int| 0 <= i < tokens@.len() implies {
                        &&& (#[trigger] tokens@[i]).span.file == file
                        &&& tokens@[i].span.start < tokens@[i].span.end <= at
                        &&& i + 1 < tokens@.len() ==> tokens@[i].span.end <= tokens@[i
                            + 1].span.start
                        &&& tokens@[i].kind != TokenKind::Eof
                    } by {
                        if i + 1 < tokens@.len() {
                            assert(tokens@[i] == before[i]);
                        }
                    }
                    assert(tokens@ == before.push(tokens@.last()));
                    lemma_scanned_push(chars@, file, before, tokens@.last());
                }
            },
            Err(found) => {
                proof {
                    assert(scanned(chars@, file, tokens@));
                    assert(token_fails(chars@, start as int));
                }
                return Err(found);
            },
        }
    }
}


/// `a` and `b` are the same token: the same place and kind, a symbol literal by its bytes.
pub open spec fn same_token(a: Token, b: Token) -> bool {
    &&& a.span == b.span
    &&& (a.kind == b.kind || (a.kind matches TokenKind::Symbol(x) && b.kind matches TokenKind::Symbol(
        y,
    ) && x@ == y@))
}

proof fn lemma_skips_to_unique(chars: Seq<char>, from: int, a: int, b: int)
    requires
        skips_to(chars, from, a),
        skips_to(chars, from, b),
    ensures
        a == b,
{
    reveal(skips_to);
    if a < b {
        assert(is_blank_char(chars[a]) || in_comment(chars, from, a));
    } else if b < a {
        assert(is_blank_char(chars[b]) || in_comment(chars, from, b));
    }
}

proof fn lemma_token_at_unique(chars: Seq<char>, a: Token, b: Token)
    requires
        is_token_at(chars, a),
        is_token_at(chars, b),
        a.span.start == b.span.start,
        a.span.file == b.span.file,
        a.span.start <= a.span.end,
        b.span.start <= b.span.end,
    ensures
        same_token(a, b),
{
    reveal(is_token_at);
    let start = a.span.start as int;
    if starts_word(chars, start) {
    } else if is_digit(chars[start]) {
    } else if chars[start] == '"' {
        let ca = a.span.end - 1;
        let cb = b.span.end - 1;
        if ca < cb {
            assert(chars[ca] != '"');
        } else if cb < ca {
            assert(chars[cb] != '"');
        }
        match (a.kind, b.kind) {
            (TokenKind::Symbol(x), TokenKind::Symbol(y)) => {
                assert(x@ =~= y@);
            },
            _ => {},
        }
    } else {
        assert(a.kind == b.kind);
        assert(a.span.end == b.span.end);
    }
}

proof fn lemma_lexed_prefix(first: Seq<Token>, second: Seq<Token>, file: FileId, text: Seq<char>, n: int)
    requires
        lexed_chars(first, file, text),
        lexed_chars(second, file, text),
        0 <= n < first.len(),
        n < second.len(),
    ensures
        forall|j: int| 0 <= j < n ==> same_token(#[trigger] first[j], second[j]),
    decreases n,
{
    if n > 0 {
        lemma_lexed_prefix(first, second, file, text, n - 1);
        reveal(scanned);
        let i = n - 1;
        let f = first.drop_last();
        let g = second.drop_last();
        assert(f[i] == first[i] && g[i] == second[i]);
        assert(previous_end(f, i) == previous_end(second.drop_last(), i)) by {
            if i > 0 {
                assert(same_token(first[i - 1], second[i - 1]));
                assert(f[i - 1] == first[i - 1] && g[i - 1] == second[i - 1]);
            }
        }
        lemma_skips_to_unique(text, previous_end(f, i), f[i].span.start as int, g[i].span.start as int);
        lemma_token_at_unique(text, f[i], g[i]);
    }
}

proof fn lemma_lexed_chars_unique(first: Seq<Token>, second: Seq<Token>, file: FileId, text: Seq<char>)
    requires
        lexed_chars(first, file, text),
        lexed_chars(second, file, text),
    ensures
        first.len() == second.len(),
        forall|i: int| 0 <= i < first.len() ==> same_token(#[trigger] first[i], second[i]),
{
    let m = if first.len() <= second.len() { first.len() - 1 } else { second.len() - 1 };
    lemma_lexed_prefix(first, second, file, text, m);
    let before = if m > 0 { first[m - 1].span.end as int } else { 0 };
    assert(previous_end(first, m) == before);
    assert(previous_end(second, m) == before) by {
        if m > 0 {
            assert(same_token(first[m - 1], second[m - 1]));
        }
    }
    reveal(scanned);
    reveal(is_token_at);
    if first.len() < second.len() {
        let g = second.drop_last();
        assert(g[m] == second[m]);
        lemma_skips_to_unique(text, before, text.len() as int, g[m].span.start as int);
    } else if second.len() < first.len() {
        let f = first.drop_last();
        assert(f[m] == first[m]);
        lemma_skips_to_unique(text, before, text.len() as int, f[m].span.start as int);
    }
    assert(first.len() == second.len());
    let last = first.len() - 1;
    assert(first[last].span == second[last].span);
    assert forall|i: int| 0 <= i < first.len() implies same_token(#[trigger] first[i], second[i]) by {
        if i < last {
            lemma_lexed_prefix(first, second, file, text, last);
        }
    }
}


/// `span` with its ends given as byte offsets into the UTF-8 of `text` in place of character
/// indices.
pub open spec fn byte_span(text: Seq<char>, span: Span) -> Span {
    Span {
        file: span.file,
        start: byte_offset(text, span.start as int) as usize,
        end: byte_offset(text, span.end as int) as usize,
    }
}

/// `tokens` are the tokens `read`, with their spans in bytes.
pub open spec fn in_bytes(tokens: Seq<Token>, read: Seq<Token>, text: Seq<char>) -> bool {
    &&& tokens.len() == read.len()
    &&& forall|i: int|
        0 <= i < tokens.len() ==> (#[trigger] tokens[i]).kind == read[i].kind && tokens[i].span
            == byte_span(text, read[i].span)
}

/// `tokens` are the tokens of `file` whose text is `text`, with spans in bytes: the tokens read
/// from its start, each past the blanks and comments after the one before, then the end-of-file
/// token past the last blanks.
pub open spec fn lexed(tokens: Seq<Token>, file: FileId, text: Seq<char>) -> bool {
    &&& byte_offset(text, text.len() as int) <= usize::MAX
    &&& exists|read: Seq<Token>| #[trigger] lexed_chars(read, file, text) && in_bytes(tokens, read, text)
}

/// Every span of `tokens` starts and ends between characters of `text`.
pub open spec fn on_boundaries(tokens: Seq<Token>, text: Seq<char>) -> bool {
    forall|i: int|
        0 <= i < tokens.len() ==> is_boundary(text, (#[trigger] tokens[i]).span.start as int)
            && is_boundary(text, tokens[i].span.end as int)
}

/// Splits the text of a file into tokens, each with its span in bytes of the UTF-8 text.
pub fn lex(source: &SourceFile) -> (result: Result<Vec<Token>, Diagnostic>)
    requires
        source.wf(),
    ensures
        result matches Ok(tokens) ==> lexed(tokens@, source.spec_id(), source.spec_text()),
        result matches Err(found) ==> found.primary matches Some(label) && source.spec_contains(
            label.span,
        ),
        result is Err ==> lexing_fails(source.spec_id(), source.spec_text()),
{
    let ghost text = source.spec_text();
    let length = source.chars().len();
    let total = source.byte_position(length);
    proof {
        assert(total == byte_offset(text, text.len() as int));
    }
    match lex_chars(source) {
        Ok(read) => {
            let ghost original = read@;
            let mut rest = read;
            let mut backwards: Vec<Token> = Vec::new();
            while rest.len() > 0
                invariant
                    source.wf(),
                    text == source.spec_text(),
                    lexed_chars(original, source.spec_id(), text),
                    rest@ == original.take(rest@.len() as int),
                    rest@.len() + backwards@.len() == original.len(),
                    forall|j: int|
                        0 <= j < backwards@.len() ==> (#[trigger] backwards@[j]).kind
                            == original[original.len() - 1 - j].kind && backwards@[j].span
                            == byte_span(text, original[original.len() - 1 - j].span),
                decreases rest@.len(),
            {
                let ghost before = rest@;
                let token = rest.pop().unwrap();
                let ghost at = before.len() - 1;
                proof {
                    assert(token == original[at]);
                    assert(rest@ =~= original.take(rest@.len() as int));
                }
                let Token { kind, span } = token;
                let start = source.byte_position(span.start);
                let end = source.byte_position(span.end);
                backwards.push(Token { kind, span: Span::new(span.file, start, end) });
            }
            let mut tokens: Vec<Token> = Vec::new();
            while backwards.len() > 0
                invariant
                    backwards@.len() + tokens@.len() == original.len(),
                    forall|j: int|
                        0 <= j < backwards@.len() ==> (#[trigger] backwards@[j]).kind
                            == original[original.len() - 1 - j].kind && backwards@[j].span
                            == byte_span(text, original[original.len() - 1 - j].span),
                    forall|j: int|
                        0 <= j < tokens@.len() ==> (#[trigger] tokens@[j]).kind == original[j].kind
                            && tokens@[j].span == byte_span(text, original[j].span),
                decreases backwards@.len(),
            {
                let ghost before = backwards@;
                let token = backwards.pop().unwrap();
                proof {
                    assert(token == before[before.len() - 1]);
                    assert forall|j: int| 0 <= j < backwards@.len() implies (#[trigger] backwards@[j]).kind
                        == original[original.len() - 1 - j].kind && backwards@[j].span == byte_span(
                        text,
                        original[original.len() - 1 - j].span,
                    ) by {
                        assert(backwards@[j] == before[j]);
                    }
                }
                tokens.push(token);
            }
            proof {
                assert(in_bytes(tokens@, original, text));
            }
            Ok(tokens)
        },
        Err(found) => {
            let Diagnostic { severity, message, primary, notes } = found;
            match primary {
                Some(label) => {
                    let Label { span, message: label_message } = label;
                    let start = source.byte_position(span.start);
                    let end = source.byte_position(span.end);
                    proof {
                        lemma_char_at(text, span.start as int);
                        lemma_char_at(text, span.end as int);
                        if span.start < span.end {
                            lemma_byte_offset_increases(text, span.start as int, span.end as int);
                        }
                    }
                    Err(
                        Diagnostic {
                            severity,
                            message,
                            primary: Some(Label { span: Span::new(span.file, start, end), message: label_message }),
                            notes,
                        },
                    )
                },
                None => {
                    proof {
                        assert(false);
                    }
                    Err(Diagnostic { severity, message, primary: None, notes })
                },
            }
        },
    }
}

proof fn lemma_utf8_bound(text: Seq<char>, k: int)
    requires
        byte_offset(text, text.len() as int) <= usize::MAX,
        0 <= k <= text.len(),
    ensures
        0 <= byte_offset(text, k) <= usize::MAX,
{
    if k < text.len() {
        lemma_byte_offset_increases(text, k, text.len() as int);
    }
}

/// The tokens of a text are determined by it: two token sequences that both lex `text` agree
/// token by token, in number, places and kinds.
pub proof fn lemma_lexed_unique(first: Seq<Token>, second: Seq<Token>, file: FileId, text: Seq<char>)
    requires
        lexed(first, file, text),
        lexed(second, file, text),
    ensures
        first.len() == second.len(),
        forall|i: int| 0 <= i < first.len() ==> same_token(#[trigger] first[i], second[i]),
{
    let a = choose|read: Seq<Token>| #[trigger] lexed_chars(read, file, text) && in_bytes(first, read, text);
    let b = choose|read: Seq<Token>| #[trigger] lexed_chars(read, file, text) && in_bytes(second, read, text);
    lemma_lexed_chars_unique(a, b, file, text);
    assert forall|i: int| 0 <= i < first.len() implies same_token(#[trigger] first[i], second[i]) by {
        assert(same_token(a[i], b[i]));
        assert(first[i].kind == a[i].kind && second[i].kind == b[i].kind);
    }
}

/// The case of the first character of a word decides how it is read: a type identifier starts
/// with an uppercase letter, a value identifier with a lowercase letter or an underscore.
pub open spec fn identifier_case_fits(first: char, kind: TokenKind) -> bool {
    &&& kind is TypeIdentifier ==> 'A' <= first <= 'Z'
    &&& kind is ValueIdentifier ==> ('a' <= first <= 'z' || first == '_')
}

proof fn lemma_run_end_from(chars: Seq<char>, from: int)
    requires
        0 <= from <= chars.len(),
    ensures
        from <= run_end(chars, from) <= chars.len(),
    decreases chars.len() - from,
{
    if 0 <= from < chars.len() && is_word_char(chars[from]) {
        lemma_run_end_from(chars, from + 1);
    }
}

proof fn lemma_token_case(chars: Seq<char>, token: Token)
    requires
        is_token_at(chars, token),
    ensures
        identifier_case_fits(chars[token.span.start as int], token.kind),
{
    reveal(is_token_at);
    let start = token.span.start as int;
    if starts_word(chars, start) {
        lemma_run_end_from(chars, start + 1);
        let word = chars.subrange(start, token.span.end as int);
        assert(word[0] == chars[start]);
    }
}

proof fn lemma_scanned_token(chars: Seq<char>, file: FileId, tokens: Seq<Token>, i: int)
    requires
        scanned(chars, file, tokens),
        0 <= i < tokens.len(),
    ensures
        is_token_at(chars, tokens[i]),
        tokens[i].span.start < chars.len(),
{
    reveal(scanned);
    reveal(is_token_at);
}

proof fn lemma_read_token_case(token: Token, read: Token, text: Seq<char>)
    requires
        is_token_at(text, read),
        read.span.start < text.len(),
        byte_offset(text, text.len() as int) <= usize::MAX,
        token.kind == read.kind,
        token.span == byte_span(text, read.span),
    ensures
        identifier_case_fits(text[char_at(text, token.span.start as int)], token.kind),
{
    lemma_token_case(text, read);
    lemma_char_at(text, read.span.start as int);
    lemma_byte_offset_increases(text, read.span.start as int, text.len() as int);
    assert(token.span.start as int == byte_offset(text, read.span.start as int));
}

/// Identifiers are told apart by the case of their first character: in the tokens of any text,
/// a type identifier starts with an uppercase letter and a value identifier with a lowercase
/// letter or an underscore.
pub proof fn lemma_identifier_case(tokens: Seq<Token>, file: FileId, text: Seq<char>)
    requires
        lexed(tokens, file, text),
    ensures
        forall|i: int|
            0 <= i < tokens.len() ==> identifier_case_fits(
                text[char_at(text, (#[trigger] tokens[i]).span.start as int)],
                tokens[i].kind,
            ),
{
    let read = choose|read: Seq<Token>| #[trigger] lexed_chars(read, file, text) && in_bytes(tokens, read, text);
    assert forall|i: int| 0 <= i < tokens.len() implies identifier_case_fits(
        text[char_at(text, (#[trigger] tokens[i]).span.start as int)],
        tokens[i].kind,
    ) by {
        assert(tokens[i].kind == read[i].kind);
        if i < tokens.len() - 1 {
            assert(read.drop_last()[i] == read[i]);
            lemma_scanned_token(text, file, read.drop_last(), i);
            lemma_read_token_case(tokens[i], read[i], text);
        } else {
            assert(read.last().kind == TokenKind::Eof);
        }
    }
}

/// Lexed tokens keep their order and lengths in bytes, and their spans fall between characters.
pub proof fn lemma_lexed_in_bytes(tokens: Seq<Token>, file: FileId, text: Seq<char>)
    requires
        lexed(tokens, file, text),
    ensures
        well_formed_tokens(tokens, file, byte_offset(text, text.len() as int)),
        on_boundaries(tokens, text),
        forall|i: int|
            0 <= i < tokens.len() ==> char_at(text, (#[trigger] tokens[i]).span.start as int)
                <= char_at(text, tokens[i].span.end as int),
{
    let read = choose|read: Seq<Token>| #[trigger] lexed_chars(read, file, text) && in_bytes(tokens, read, text);
    let length = text.len() as int;
    assert forall|i: int| 0 <= i < tokens.len() implies {
        &&& (#[trigger] tokens[i]).span.file == file
        &&& tokens[i].span.start <= tokens[i].span.end <= byte_offset(text, length)
        &&& i + 1 < tokens.len() ==> tokens[i].span.end <= tokens[i + 1].span.start
        &&& i + 1 < tokens.len() ==> tokens[i].kind != TokenKind::Eof
        &&& i + 1 < tokens.len() ==> tokens[i].span.start < tokens[i].span.end
        &&& is_boundary(text, tokens[i].span.start as int)
        &&& is_boundary(text, tokens[i].span.end as int)
        &&& char_at(text, tokens[i].span.start as int) <= char_at(text, tokens[i].span.end as int)
    } by {
        let r = read[i];
        let cs = r.span.start as int;
        let ce = r.span.end as int;
        assert(tokens[i].span == byte_span(text, r.span));
        lemma_char_at(text, cs);
        lemma_char_at(text, ce);
        lemma_char_at(text, length);
        if cs < ce {
            lemma_byte_offset_increases(text, cs, ce);
        }
        if ce < length {
            lemma_byte_offset_increases(text, ce, length);
        }
        assert(byte_offset(text, cs) as usize as int == byte_offset(text, cs)) by {
            lemma_utf8_bound(text, cs);
        }
        assert(byte_offset(text, ce) as usize as int == byte_offset(text, ce)) by {
            lemma_utf8_bound(text, ce);
        }
        if i + 1 < tokens.len() {
            let n = read[i + 1];
            assert(tokens[i + 1].span == byte_span(text, n.span));
            let ns = n.span.start as int;
            if ce < ns {
                lemma_byte_offset_increases(text, ce, ns);
            }
            assert(byte_offset(text, ns) as usize as int == byte_offset(text, ns)) by {
                lemma_utf8_bound(text, ns);
            }
        }
    }
    assert(tokens.last() == tokens[tokens.len() - 1]);
}

} // verus!
