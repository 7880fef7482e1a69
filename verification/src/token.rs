//! The token that starts at an offset of the source.

use crate::chars::C_APOSTROPHE;
use crate::chars::C_AT_SIGN;
use crate::chars::C_COLON;
use crate::chars::C_COMMA;
use crate::chars::C_EXCLAMATION_MARK;
use crate::chars::C_FULL_STOP;
use crate::chars::C_GREATER_THAN_SIGN;
use crate::chars::C_HYPHEN_MINUS;
use crate::chars::C_LEFT_CURLY;
use crate::chars::C_LEFT_PARENTHESIS;
use crate::chars::C_LESS_THAN_SIGN;
use crate::chars::C_NUMBER_SIGN;
use crate::chars::C_PLUS_SIGN;
use crate::chars::C_QUOTATION_MARK;
use crate::chars::C_REVERSE_SOLIDUS;
use crate::chars::C_RIGHT_CURLY;
use crate::chars::C_RIGHT_PARENTHESIS;
use crate::chars::C_SEMICOLON;
use crate::chars::is_digit;
use crate::chars::is_ident_start;
use crate::chars::to_ascii_lower;
use crate::lexer::Pos;
use crate::scan::at_ident_sequence;
use crate::scan::at_number;
use crate::scan::at_valid_escape;
use crate::scan::byte_at;
use crate::scan::ident_end;
use crate::scan::is_boundary;
use crate::scan::lemma_boundary_after_ascii;
use crate::scan::lemma_ident_end;
use crate::scan::lemma_numeric_end;
use crate::scan::lemma_string_end;
use crate::scan::lemma_url_end;
use crate::scan::lemma_white_space_end;
use crate::scan::numeric_end;
use crate::scan::skip_ident;
use crate::scan::skip_numeric;
use crate::scan::skip_string;
use crate::scan::skip_url;
use crate::scan::skip_white_space;
use crate::scan::starts_ident_sequence;
use crate::scan::starts_number;
use crate::scan::string_end;
use crate::scan::url_end;
use crate::scan::valid_escape;
use crate::scan::white_space_end;
use vstd::prelude::*;
use vstd::utf8::valid_utf8;

verus! {

#[derive(Debug, Clone, Copy, PartialEq, Eq, Structural)]
pub enum TokenKind {
    /// An ident sequence that no `(` follows.
    Ident,
    /// An ident sequence and the `(` after it.
    Function,
    /// An unquoted `url(...)`.
    Url,
    /// A string with both its quotes.
    String,
    /// `@` and an ident sequence.
    AtKeyword,
    /// `#` and an ident sequence, where selectors are expected.
    Id,
    /// `.` and an ident sequence, where selectors are expected.
    Class,
    /// `:` and an ident sequence that no `(` follows, where selectors are
    /// expected.
    PseudoClass,
    /// `:`, an ident sequence and the `(` after it, where selectors are
    /// expected.
    PseudoFunction,
    LeftParenthesis,
    RightParenthesis,
    Comma,
    Semicolon,
    LeftCurlyBracket,
    RightCurlyBracket,
    /// Anything else: a number, a delimiter, `<!--`, `-->`, a string that a
    /// newline cut short.
    Other,
    /// A string that the end of the source cut short.
    Unterminated,
}

/// A token without its start: its kind, its end and, for a URL, the span of
/// the content between the parentheses, without the white space around it.
#[derive(Debug, Clone, Copy, PartialEq, Eq, Structural)]
pub struct Token {
    pub kind: TokenKind,
    pub end: Pos,
    pub content_start: Pos,
    pub content_end: Pos,
}

pub ghost struct TokenModel {
    pub kind: TokenKind,
    pub end: int,
    pub content_start: int,
    pub content_end: int,
}

impl View for Token {
    type V = TokenModel;

    open spec fn view(&self) -> TokenModel {
        TokenModel {
            kind: self.kind,
            end: self.end as int,
            content_start: self.content_start as int,
            content_end: self.content_end as int,
        }
    }
}

/// A token that has no content span of its own.
pub open spec fn plain(kind: TokenKind, end: int) -> TokenModel {
    TokenModel { kind, end, content_start: end, content_end: end }
}

/// The ident sequence `[p, e)` is `url` in any case.
pub open spec fn is_url_name(src: Seq<u8>, p: int, e: int) -> bool {
    e == p + 3 && to_ascii_lower(src[p]) == 0x75 && to_ascii_lower(src[p + 1]) == 0x72
        && to_ascii_lower(src[p + 2]) == 0x6c
}

/// The token that an ident sequence at `p` starts: an ident, a function,
/// or a URL. `url(` makes a function where a quote follows it, after white
/// space if any, and an unquoted URL otherwise.
pub open spec fn ident_like_at(src: Seq<u8>, p: int) -> TokenModel {
    let e = ident_end(src, p);
    if byte_at(src, e, C_LEFT_PARENTHESIS) {
        if is_url_name(src, p, e) {
            let c = white_space_end(src, e + 1);
            if byte_at(src, c, C_QUOTATION_MARK) || byte_at(src, c, C_APOSTROPHE) {
                plain(TokenKind::Function, e + 1)
            } else {
                TokenModel {
                    kind: TokenKind::Url,
                    end: url_end(src, c, c).1,
                    content_start: c,
                    content_end: url_end(src, c, c).0,
                }
            }
        } else {
            plain(TokenKind::Function, e + 1)
        }
    } else {
        plain(TokenKind::Ident, e)
    }
}

/// The token that starts at `p`, where no white space and no comment
/// starts. `selector` says whether selectors are expected there: only then
/// do `#`, `.` and `:` start an id, a class or a pseudo class.
pub open spec fn token_at(src: Seq<u8>, p: int, selector: bool) -> TokenModel
    recommends
        0 <= p < src.len(),
{
    let b = src[p];
    if b == C_QUOTATION_MARK || b == C_APOSTROPHE {
        let s = string_end(src, p + 1, b);
        if s.1 {
            plain(TokenKind::String, s.0)
        } else if s.0 >= src.len() {
            plain(TokenKind::Unterminated, src.len() as int)
        } else {
            plain(TokenKind::Other, s.0)
        }
    } else if b == C_NUMBER_SIGN {
        if selector && starts_ident_sequence(src, p + 1) {
            plain(TokenKind::Id, ident_end(src, p + 1))
        } else {
            plain(TokenKind::Other, p + 1)
        }
    } else if b == C_LEFT_PARENTHESIS {
        plain(TokenKind::LeftParenthesis, p + 1)
    } else if b == C_RIGHT_PARENTHESIS {
        plain(TokenKind::RightParenthesis, p + 1)
    } else if b == C_COMMA {
        plain(TokenKind::Comma, p + 1)
    } else if b == C_SEMICOLON {
        plain(TokenKind::Semicolon, p + 1)
    } else if b == C_LEFT_CURLY {
        plain(TokenKind::LeftCurlyBracket, p + 1)
    } else if b == C_RIGHT_CURLY {
        plain(TokenKind::RightCurlyBracket, p + 1)
    } else if b == C_PLUS_SIGN {
        if starts_number(src, p) {
            plain(TokenKind::Other, numeric_end(src, p))
        } else {
            plain(TokenKind::Other, p + 1)
        }
    } else if b == C_HYPHEN_MINUS {
        if starts_number(src, p) {
            plain(TokenKind::Other, numeric_end(src, p))
        } else if byte_at(src, p + 1, C_HYPHEN_MINUS) && byte_at(src, p + 2, C_GREATER_THAN_SIGN) {
            plain(TokenKind::Other, p + 3)
        } else if starts_ident_sequence(src, p) {
            ident_like_at(src, p)
        } else {
            plain(TokenKind::Other, p + 1)
        }
    } else if b == C_FULL_STOP {
        if starts_number(src, p) {
            plain(TokenKind::Other, numeric_end(src, p))
        } else if selector && starts_ident_sequence(src, p + 1) {
            plain(TokenKind::Class, ident_end(src, p + 1))
        } else {
            plain(TokenKind::Other, p + 1)
        }
    } else if b == C_COLON {
        if selector && starts_ident_sequence(src, p + 1) {
            let e = ident_end(src, p + 1);
            if byte_at(src, e, C_LEFT_PARENTHESIS) {
                plain(TokenKind::PseudoFunction, e + 1)
            } else {
                plain(TokenKind::PseudoClass, e)
            }
        } else {
            plain(TokenKind::Other, p + 1)
        }
    } else if b == C_LESS_THAN_SIGN {
        if byte_at(src, p + 1, C_EXCLAMATION_MARK) && byte_at(src, p + 2, C_HYPHEN_MINUS)
            && byte_at(src, p + 3, C_HYPHEN_MINUS) {
            plain(TokenKind::Other, p + 4)
        } else {
            plain(TokenKind::Other, p + 1)
        }
    } else if b == C_AT_SIGN {
        if starts_ident_sequence(src, p + 1) {
            plain(TokenKind::AtKeyword, ident_end(src, p + 1))
        } else {
            plain(TokenKind::Other, p + 1)
        }
    } else if b == C_REVERSE_SOLIDUS {
        if valid_escape(src, p) {
            ident_like_at(src, p)
        } else {
            plain(TokenKind::Other, p + 1)
        }
    } else if is_digit(b) {
        plain(TokenKind::Other, numeric_end(src, p))
    } else if is_ident_start(b) {
        ident_like_at(src, p)
    } else {
        plain(TokenKind::Other, p + 1)
    }
}

/// `t` is the token that starts at `start`, whether or not selectors are
/// expected there.
pub open spec fn is_token(src: Seq<u8>, start: int, t: TokenModel) -> bool {
    0 <= start < src.len() && (token_at(src, start, true) == t || token_at(src, start, false)
        == t)
}

/// What the shape of a token is, by its kind: the sigil it starts with,
/// the bracket or quote it ends with, how long it is at least.
pub open spec fn token_shape(src: Seq<u8>, start: int, t: TokenModel) -> bool {
    &&& 0 <= start < t.end <= src.len()
    &&& is_boundary(src, t.end)
    &&& t.kind !is Url ==> t == plain(t.kind, t.end)
    &&& match t.kind {
        TokenKind::Ident => true,
        TokenKind::Function => start + 1 < t.end && src[t.end - 1] == C_LEFT_PARENTHESIS,
        TokenKind::Url => {
            &&& start + 4 <= t.content_start <= t.content_end <= t.end
            &&& is_url_name(src, start, start + 3)
            &&& src[start + 3] == C_LEFT_PARENTHESIS
            &&& is_boundary(src, t.content_start)
            &&& is_boundary(src, t.content_end)
            &&& t.end == src.len() || src[t.end - 1] == C_RIGHT_PARENTHESIS
        },
        TokenKind::String => {
            &&& src[start] == C_QUOTATION_MARK || src[start] == C_APOSTROPHE
            &&& start + 2 <= t.end
            &&& src[t.end - 1] == src[start]
        },
        TokenKind::AtKeyword => src[start] == C_AT_SIGN && start + 1 < t.end,
        TokenKind::Id => src[start] == C_NUMBER_SIGN && start + 1 < t.end,
        TokenKind::Class => src[start] == C_FULL_STOP && start + 1 < t.end,
        TokenKind::PseudoClass => src[start] == C_COLON && start + 1 < t.end,
        TokenKind::PseudoFunction => src[start] == C_COLON && start + 2 < t.end && src[t.end - 1]
            == C_LEFT_PARENTHESIS,
        TokenKind::LeftParenthesis => src[start] == C_LEFT_PARENTHESIS && t.end == start + 1,
        TokenKind::RightParenthesis => src[start] == C_RIGHT_PARENTHESIS && t.end == start + 1,
        TokenKind::Comma => src[start] == C_COMMA && t.end == start + 1,
        TokenKind::Semicolon => src[start] == C_SEMICOLON && t.end == start + 1,
        TokenKind::LeftCurlyBracket => src[start] == C_LEFT_CURLY && t.end == start + 1,
        TokenKind::RightCurlyBracket => src[start] == C_RIGHT_CURLY && t.end == start + 1,
        TokenKind::Other => true,
        TokenKind::Unterminated => t.end == src.len(),
    }
}

proof fn lemma_ident_like_shape(src: Seq<u8>, p: int)
    requires
        valid_utf8(src),
        0 <= p < src.len(),
        starts_ident_sequence(src, p),
    ensures
        token_shape(src, p, ident_like_at(src, p)),
{
    lemma_ident_end(src, p);
    if src[p] == C_HYPHEN_MINUS {
        lemma_ident_end(src, p + 1);
    }
    let e = ident_end(src, p);
    if byte_at(src, e, C_LEFT_PARENTHESIS) {
        lemma_boundary_after_ascii(src, e);
        if is_url_name(src, p, e) {
            lemma_white_space_end(src, e + 1);
            let c = white_space_end(src, e + 1);
            if c > e + 1 {
                lemma_boundary_after_ascii(src, c - 1);
            }
            lemma_url_end(src, c, c);
            let end = url_end(src, c, c).1;
            if end < src.len() {
                lemma_boundary_after_ascii(src, end - 1);
            }
        }
    }
}

/// Every token has the shape of its kind, is not empty, and ends at a
/// boundary of the source.
pub proof fn lemma_token_shape(src: Seq<u8>, p: int, selector: bool)
    requires
        valid_utf8(src),
        0 <= p < src.len(),
        is_boundary(src, p),
    ensures
        token_shape(src, p, token_at(src, p, selector)),
{
    let b = src[p];
    let t = token_at(src, p, selector);
    if b < 0x80 {
        lemma_boundary_after_ascii(src, p);
    }
    if b == C_QUOTATION_MARK || b == C_APOSTROPHE {
        lemma_string_end(src, p + 1, b);
        let s = string_end(src, p + 1, b);
        if s.1 {
            lemma_boundary_after_ascii(src, s.0 - 1);
        }
    } else if b == C_NUMBER_SIGN || b == C_FULL_STOP || b == C_COLON || b == C_AT_SIGN {
        if starts_number(src, p) {
            lemma_numeric_end(src, p);
        } else if starts_ident_sequence(src, p + 1) {
            lemma_ident_end(src, p + 1);
            if src[p + 1] == C_HYPHEN_MINUS {
                lemma_ident_end(src, p + 2);
            }
            let e = ident_end(src, p + 1);
            if byte_at(src, e, C_LEFT_PARENTHESIS) {
                lemma_boundary_after_ascii(src, e);
            }
        }
    } else if b == C_PLUS_SIGN || b == C_HYPHEN_MINUS || is_digit(b) {
        if starts_number(src, p) {
            lemma_numeric_end(src, p);
        } else if byte_at(src, p + 1, C_HYPHEN_MINUS) && byte_at(src, p + 2, C_GREATER_THAN_SIGN) {
            lemma_boundary_after_ascii(src, p + 2);
        } else if starts_ident_sequence(src, p) {
            lemma_ident_like_shape(src, p);
        }
    } else if b == C_LESS_THAN_SIGN {
        if byte_at(src, p + 1, C_EXCLAMATION_MARK) && byte_at(src, p + 2, C_HYPHEN_MINUS)
            && byte_at(src, p + 3, C_HYPHEN_MINUS) {
            lemma_boundary_after_ascii(src, p + 3);
        }
    } else if b == C_REVERSE_SOLIDUS {
        if valid_escape(src, p) {
            lemma_ident_like_shape(src, p);
        }
    } else if is_ident_start(b) {
        lemma_ident_like_shape(src, p);
    }
}

fn plain_token(kind: TokenKind, end: Pos) -> (t: Token)
    ensures
        t@ == plain(kind, end as int),
{
    Token { kind, end, content_start: end, content_end: end }
}

/// Reads the token that an ident sequence at `pos` starts.
fn scan_ident_like(src: &[u8], pos: Pos) -> (t: Token)
    requires
        pos < src.len(),
        starts_ident_sequence(src@, pos as int),
        valid_utf8(src@),
    ensures
        t@ == ident_like_at(src@, pos as int),
{
    proof {
        lemma_ident_like_shape(src@, pos as int);
        lemma_ident_end(src@, pos as int);
    }
    let e: usize = skip_ident(src, pos);
    if e < src.len() && src[e] == C_LEFT_PARENTHESIS {
        if e - pos == 3 && to_ascii_lower(src[pos]) == 0x75 && to_ascii_lower(src[pos + 1]) == 0x72
            && to_ascii_lower(src[pos + 2]) == 0x6c {
            let c: usize = skip_white_space(src, e + 1);
            if c < src.len() && (src[c] == C_QUOTATION_MARK || src[c] == C_APOSTROPHE) {
                plain_token(TokenKind::Function, e + 1)
            } else {
                let (content_end, end) = skip_url(src, c, c);
                Token { kind: TokenKind::Url, end, content_start: c, content_end }
            }
        } else {
            plain_token(TokenKind::Function, e + 1)
        }
    } else {
        plain_token(TokenKind::Ident, e)
    }
}

/// Reads the token that starts at `pos`.
pub fn scan_token(src: &[u8], pos: Pos, selector: bool) -> (t: Token)
    requires
        pos < src.len(),
        valid_utf8(src@),
        is_boundary(src@, pos as int),
    ensures
        t@ == token_at(src@, pos as int, selector),
        token_shape(src@, pos as int, t@),
{
    proof {
        lemma_token_shape(src@, pos as int, selector);
    }
    let b: u8 = src[pos];
    if b == C_QUOTATION_MARK || b == C_APOSTROPHE {
        let (e, closed) = skip_string(src, pos + 1, b);
        if closed {
            plain_token(TokenKind::String, e)
        } else if e >= src.len() {
            plain_token(TokenKind::Unterminated, src.len())
        } else {
            plain_token(TokenKind::Other, e)
        }
    } else if b == C_NUMBER_SIGN {
        if selector && at_ident_sequence(src, pos + 1) {
            plain_token(TokenKind::Id, skip_ident(src, pos + 1))
        } else {
            plain_token(TokenKind::Other, pos + 1)
        }
    } else if b == C_LEFT_PARENTHESIS {
        plain_token(TokenKind::LeftParenthesis, pos + 1)
    } else if b == C_RIGHT_PARENTHESIS {
        plain_token(TokenKind::RightParenthesis, pos + 1)
    } else if b == C_COMMA {
        plain_token(TokenKind::Comma, pos + 1)
    } else if b == C_SEMICOLON {
        plain_token(TokenKind::Semicolon, pos + 1)
    } else if b == C_LEFT_CURLY {
        plain_token(TokenKind::LeftCurlyBracket, pos + 1)
    } else if b == C_RIGHT_CURLY {
        plain_token(TokenKind::RightCurlyBracket, pos + 1)
    } else if b == C_PLUS_SIGN {
        if at_number(src, pos) {
            plain_token(TokenKind::Other, skip_numeric(src, pos))
        } else {
            plain_token(TokenKind::Other, pos + 1)
        }
    } else if b == C_HYPHEN_MINUS {
        if at_number(src, pos) {
            plain_token(TokenKind::Other, skip_numeric(src, pos))
        } else if src.len() - pos > 2 && src[pos + 1] == C_HYPHEN_MINUS && src[pos + 2]
            == C_GREATER_THAN_SIGN {
            plain_token(TokenKind::Other, pos + 3)
        } else if at_ident_sequence(src, pos) {
            scan_ident_like(src, pos)
        } else {
            plain_token(TokenKind::Other, pos + 1)
        }
    } else if b == C_FULL_STOP {
        if at_number(src, pos) {
            plain_token(TokenKind::Other, skip_numeric(src, pos))
        } else if selector && at_ident_sequence(src, pos + 1) {
            plain_token(TokenKind::Class, skip_ident(src, pos + 1))
        } else {
            plain_token(TokenKind::Other, pos + 1)
        }
    } else if b == C_COLON {
        if selector && at_ident_sequence(src, pos + 1) {
            let e: usize = skip_ident(src, pos + 1);
            if e < src.len() && src[e] == C_LEFT_PARENTHESIS {
                plain_token(TokenKind::PseudoFunction, e + 1)
            } else {
                plain_token(TokenKind::PseudoClass, e)
            }
        } else {
            plain_token(TokenKind::Other, pos + 1)
        }
    } else if b == C_LESS_THAN_SIGN {
        if src.len() - pos > 3 && src[pos + 1] == C_EXCLAMATION_MARK && src[pos + 2]
            == C_HYPHEN_MINUS && src[pos + 3]
            == C_HYPHEN_MINUS {
            plain_token(TokenKind::Other, pos + 4)
        } else {
            plain_token(TokenKind::Other, pos + 1)
        }
    } else if b == C_AT_SIGN {
        if at_ident_sequence(src, pos + 1) {
            plain_token(TokenKind::AtKeyword, skip_ident(src, pos + 1))
        } else {
            plain_token(TokenKind::Other, pos + 1)
        }
    } else if b == C_REVERSE_SOLIDUS {
        if at_valid_escape(src, pos) {
            scan_ident_like(src, pos)
        } else {
            plain_token(TokenKind::Other, pos + 1)
        }
    } else if is_digit(b) {
        plain_token(TokenKind::Other, skip_numeric(src, pos))
    } else if is_ident_start(b) {
        scan_ident_like(src, pos)
    } else {
        plain_token(TokenKind::Other, pos + 1)
    }
}

} // verus!
