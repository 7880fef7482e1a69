//! Where each lexical element of CSS ends: the definitions, as functions of
//! the source bytes and a start offset, and the code that computes them.

use crate::chars::C_ASTERISK;
use crate::chars::C_CARRIAGE_RETURN;
use crate::chars::C_FULL_STOP;
use crate::chars::C_HYPHEN_MINUS;
use crate::chars::C_LINE_FEED;
use crate::chars::C_PERCENTAGE;
use crate::chars::C_PLUS_SIGN;
use crate::chars::C_REVERSE_SOLIDUS;
use crate::chars::C_RIGHT_PARENTHESIS;
use crate::chars::C_SOLIDUS;
use crate::chars::is_digit;
use crate::chars::is_hex_digit;
use crate::chars::is_ident;
use crate::chars::is_ident_start;
use crate::chars::is_new_line;
use crate::chars::is_white_space;
use vstd::prelude::*;
use vstd::utf8::is_char_boundary;
use vstd::utf8::is_char_boundary_iff_not_is_continuation_byte;
use vstd::utf8::is_char_boundary_start_end_of_seq;
use vstd::utf8::is_continuation_byte;
use vstd::utf8::valid_utf8;
use vstd::utf8::valid_utf8_split;

verus! {

/// `p` is an offset at which a character of `src` starts, or its end.
pub open spec fn is_boundary(src: Seq<u8>, p: int) -> bool {
    0 <= p <= src.len() && (p == src.len() || !is_continuation_byte(src[p]))
}

/// On valid UTF-8 the boundaries above are exactly those of `str`.
pub proof fn lemma_boundary_is_char_boundary(src: Seq<u8>, p: int)
    requires
        valid_utf8(src),
    ensures
        is_boundary(src, p) <==> is_char_boundary(src, p),
{
    if 0 <= p < src.len() {
        is_char_boundary_iff_not_is_continuation_byte(src, p);
    } else if p == src.len() {
        is_char_boundary_start_end_of_seq(src);
    } else if p < 0 {
        reveal_with_fuel(is_char_boundary, 2);
    }
}

/// The offset after an ASCII byte is a boundary.
pub proof fn lemma_boundary_after_ascii(src: Seq<u8>, p: int)
    requires
        valid_utf8(src),
        0 <= p < src.len(),
        src[p] < 0x80,
    ensures
        is_boundary(src, p + 1),
{
    is_char_boundary_iff_not_is_continuation_byte(src, p);
    valid_utf8_split(src, p);
    let tail = src.subrange(p, src.len() as int);
    assert(tail[0] == src[p]);
    reveal_with_fuel(valid_utf8, 2);
    let rest = tail.subrange(1, tail.len() as int);
    assert(valid_utf8(rest));
    if p + 1 < src.len() {
        assert(rest[0] == src[p + 1]);
    }
}

/// The byte at `p` is `b`.
pub open spec fn byte_at(src: Seq<u8>, p: int, b: u8) -> bool {
    0 <= p < src.len() && src[p] == b
}

/// End of the run of white space that starts at `p`.
pub open spec fn white_space_end(src: Seq<u8>, p: int) -> int
    decreases src.len() - p,
{
    if 0 <= p < src.len() && is_white_space(src[p]) {
        white_space_end(src, p + 1)
    } else {
        p
    }
}

/// The run `[p, white_space_end)` is white space and cannot be extended.
pub proof fn lemma_white_space_end(src: Seq<u8>, p: int)
    requires
        0 <= p <= src.len(),
    ensures
        p <= white_space_end(src, p) <= src.len(),
        forall|i: int| p <= i < white_space_end(src, p) ==> is_white_space(#[trigger] src[i]),
        white_space_end(src, p) < src.len() ==> !is_white_space(src[white_space_end(src, p)]),
    decreases src.len() - p,
{
    if p < src.len() && is_white_space(src[p]) {
        lemma_white_space_end(src, p + 1);
    }
}

/// `/*` stands at `p`.
pub open spec fn starts_comment(src: Seq<u8>, p: int) -> bool {
    0 <= p && p + 1 < src.len() && src[p] == C_SOLIDUS && src[p + 1] == C_ASTERISK
}

/// End of a comment whose body starts at `q`: just after the first `*/` at
/// or after `q`, or the end of the source where the comment is not closed.
pub open spec fn comment_end(src: Seq<u8>, q: int) -> int
    decreases src.len() - q,
{
    if q < 0 || q + 1 >= src.len() {
        src.len() as int
    } else if src[q] == C_ASTERISK && src[q + 1] == C_SOLIDUS {
        q + 2
    } else {
        comment_end(src, q + 1)
    }
}

pub proof fn lemma_comment_end(src: Seq<u8>, q: int)
    requires
        0 <= q <= src.len(),
    ensures
        q <= comment_end(src, q) <= src.len(),
        comment_end(src, q) == src.len() || byte_at(src, comment_end(src, q) - 1, C_SOLIDUS),
    decreases src.len() - q,
{
    if q + 1 >= src.len() {
    } else if src[q] == C_ASTERISK && src[q + 1] == C_SOLIDUS {
    } else {
        lemma_comment_end(src, q + 1);
    }
}

/// End of the run of white space and comments that starts at `p`.
pub open spec fn trivia_end(src: Seq<u8>, p: int) -> int
    decreases src.len() - p,
{
    if 0 <= p < src.len() && is_white_space(src[p]) {
        trivia_end(src, p + 1)
    } else if starts_comment(src, p) {
        proof {
            lemma_comment_end(src, p + 2);
        }
        trivia_end(src, comment_end(src, p + 2))
    } else {
        p
    }
}

/// After the run, no white space and no comment follows.
pub proof fn lemma_trivia_end(src: Seq<u8>, p: int)
    requires
        0 <= p <= src.len(),
    ensures
        p <= trivia_end(src, p) <= src.len(),
        trivia_end(src, p) < src.len() ==> !is_white_space(src[trivia_end(src, p)]),
        !starts_comment(src, trivia_end(src, p)),
        trivia_end(src, trivia_end(src, p)) == trivia_end(src, p),
    decreases src.len() - p,
{
    if p < src.len() && is_white_space(src[p]) {
        lemma_trivia_end(src, p + 1);
    } else if starts_comment(src, p) {
        lemma_comment_end(src, p + 2);
        lemma_trivia_end(src, comment_end(src, p + 2));
    }
}

/// A run of trivia that starts at a boundary ends at one.
pub proof fn lemma_trivia_end_boundary(src: Seq<u8>, p: int)
    requires
        valid_utf8(src),
        is_boundary(src, p),
    ensures
        is_boundary(src, trivia_end(src, p)),
    decreases src.len() - p,
{
    if p < src.len() && is_white_space(src[p]) {
        lemma_boundary_after_ascii(src, p);
        lemma_trivia_end_boundary(src, p + 1);
    } else if starts_comment(src, p) {
        lemma_comment_end(src, p + 2);
        let e = comment_end(src, p + 2);
        if e < src.len() {
            lemma_boundary_after_ascii(src, e - 1);
        }
        lemma_trivia_end_boundary(src, e);
    }
}

pub fn skip_white_space(src: &[u8], pos: usize) -> (r: usize)
    requires
        pos <= src.len(),
    ensures
        r == white_space_end(src@, pos as int),
        pos <= r <= src.len(),
{
    let mut p: usize = pos;
    while p < src.len() && is_white_space(src[p])
        invariant
            pos <= p <= src.len(),
            white_space_end(src@, p as int) == white_space_end(src@, pos as int),
        decreases src.len() - p,
    {
        p += 1;
    }
    p
}

/// Skips a comment body: `pos` is just after the opening `/*`.
pub fn skip_comment(src: &[u8], pos: usize) -> (r: usize)
    requires
        pos <= src.len(),
    ensures
        r == comment_end(src@, pos as int),
        pos <= r <= src.len(),
{
    let mut p: usize = pos;
    while p < src.len() && p + 1 < src.len() && !(src[p] == C_ASTERISK && src[p + 1] == C_SOLIDUS)
        invariant
            pos <= p <= src.len(),
            comment_end(src@, p as int) == comment_end(src@, pos as int),
        decreases src.len() - p,
    {
        p += 1;
    }
    if p < src.len() && p + 1 < src.len() {
        p + 2
    } else {
        src.len()
    }
}

pub fn skip_trivia(src: &[u8], pos: usize) -> (r: usize)
    requires
        pos <= src.len(),
    ensures
        r == trivia_end(src@, pos as int),
        pos <= r <= src.len(),
{
    let mut p: usize = pos;
    loop
        invariant_except_break
            pos <= p <= src.len(),
            trivia_end(src@, p as int) == trivia_end(src@, pos as int),
        ensures
            pos <= p <= src.len(),
            p == trivia_end(src@, pos as int),
        decreases src.len() - p,
    {
        if p < src.len() && is_white_space(src[p]) {
            p += 1;
        } else if p < src.len() && p + 1 < src.len() && src[p] == C_SOLIDUS && src[p + 1]
            == C_ASTERISK {
            proof {
                lemma_comment_end(src@, p + 2);
            }
            p = skip_comment(src, p + 2);
        } else {
            break ;
        }
    }
    p
}

/// A backslash at `p` that is followed by something other than a newline.
pub open spec fn valid_escape(src: Seq<u8>, p: int) -> bool {
    0 <= p && p + 1 < src.len() && src[p] == C_REVERSE_SOLIDUS && !is_new_line(src[p + 1])
}

/// End of a run of at most `n` hex digits that starts at `p`.
pub open spec fn hex_run_end(src: Seq<u8>, p: int, n: nat) -> int
    decreases n,
{
    if n > 0 && 0 <= p < src.len() && is_hex_digit(src[p]) {
        hex_run_end(src, p + 1, (n - 1) as nat)
    } else {
        p
    }
}

pub proof fn lemma_hex_run_end(src: Seq<u8>, p: int, n: nat)
    requires
        0 <= p <= src.len(),
    ensures
        p <= hex_run_end(src, p, n) <= src.len(),
        hex_run_end(src, p, n) <= p + n,
        hex_run_end(src, p, n) > p ==> src[hex_run_end(src, p, n) - 1] < 0x80,
    decreases n,
{
    if n > 0 && p < src.len() && is_hex_digit(src[p]) {
        lemma_hex_run_end(src, p + 1, (n - 1) as nat);
    }
}

/// End of the white space that closes a hex escape, if any follows at `q`:
/// one white space byte, or a carriage return and line feed together.
pub open spec fn escape_space_end(src: Seq<u8>, q: int) -> int {
    if 0 <= q < src.len() && is_white_space(src[q]) {
        if src[q] == C_CARRIAGE_RETURN && q + 1 < src.len() && src[q + 1] == C_LINE_FEED {
            q + 2
        } else {
            q + 1
        }
    } else {
        q
    }
}

/// End of the escape whose backslash is at `p`, where `valid_escape` holds:
/// up to six hex digits and the white space that closes them, or else the
/// backslash and one more byte.
pub open spec fn escape_end(src: Seq<u8>, p: int) -> int {
    if is_hex_digit(src[p + 1]) {
        escape_space_end(src, hex_run_end(src, p + 1, 6))
    } else {
        p + 2
    }
}

pub proof fn lemma_escape_end(src: Seq<u8>, p: int)
    requires
        0 <= p,
        p + 1 < src.len(),
    ensures
        p + 2 <= escape_end(src, p) <= src.len(),
        !is_hex_digit(src[p + 1]) ==> escape_end(src, p) == p + 2,
        is_hex_digit(src[p + 1]) ==> src[escape_end(src, p) - 1] < 0x80,
{
    if is_hex_digit(src[p + 1]) {
        lemma_hex_run_end(src, p + 2, 5);
        assert(hex_run_end(src, p + 1, 6) == hex_run_end(src, p + 2, 5));
    }
}

/// End of what a backslash at `p` takes with it inside a string or a URL,
/// where a byte follows it: a newline (a line continuation), or an escape.
pub open spec fn backslash_end(src: Seq<u8>, p: int) -> int {
    if src[p + 1] == C_CARRIAGE_RETURN && p + 2 < src.len() && src[p + 2] == C_LINE_FEED {
        p + 3
    } else if is_new_line(src[p + 1]) {
        p + 2
    } else {
        escape_end(src, p)
    }
}

pub proof fn lemma_backslash_end(src: Seq<u8>, p: int)
    requires
        0 <= p,
        p + 1 < src.len(),
    ensures
        p + 2 <= backslash_end(src, p) <= src.len(),
        backslash_end(src, p) == p + 2 || src[backslash_end(src, p) - 1] < 0x80,
{
    lemma_escape_end(src, p);
}

/// End of the ident sequence that starts at `p`: ident bytes and escapes.
pub open spec fn ident_end(src: Seq<u8>, p: int) -> int
    decreases src.len() - p,
{
    if 0 <= p < src.len() && is_ident(src[p]) {
        ident_end(src, p + 1)
    } else if valid_escape(src, p) {
        proof {
            lemma_escape_end(src, p);
        }
        ident_end(src, escape_end(src, p))
    } else {
        p
    }
}

/// The sequence ends before a byte that is no ident byte, so before an
/// ASCII byte, or at the end of the source.
pub proof fn lemma_ident_end(src: Seq<u8>, p: int)
    requires
        0 <= p <= src.len(),
    ensures
        p <= ident_end(src, p) <= src.len(),
        ident_end(src, p) < src.len() ==> !is_ident(src[ident_end(src, p)]),
        !valid_escape(src, ident_end(src, p)),
        is_boundary(src, ident_end(src, p)),
        (p < src.len() && is_ident(src[p])) || valid_escape(src, p) ==> p < ident_end(src, p),
    decreases src.len() - p,
{
    if p < src.len() && is_ident(src[p]) {
        lemma_ident_end(src, p + 1);
    } else if valid_escape(src, p) {
        lemma_escape_end(src, p);
        lemma_ident_end(src, escape_end(src, p));
    }
}

/// An ident sequence starts at `p`.
pub open spec fn starts_ident_sequence(src: Seq<u8>, p: int) -> bool {
    if !(0 <= p < src.len()) {
        false
    } else if src[p] == C_HYPHEN_MINUS {
        (p + 1 < src.len() && (is_ident_start(src[p + 1]) || src[p + 1] == C_HYPHEN_MINUS))
            || valid_escape(src, p + 1)
    } else if src[p] == C_REVERSE_SOLIDUS {
        valid_escape(src, p)
    } else {
        is_ident_start(src[p])
    }
}

/// A number starts at `p`.
pub open spec fn starts_number(src: Seq<u8>, p: int) -> bool {
    if !(0 <= p < src.len()) {
        false
    } else if src[p] == C_PLUS_SIGN || src[p] == C_HYPHEN_MINUS {
        (p + 1 < src.len() && is_digit(src[p + 1])) || (p + 2 < src.len() && src[p + 1]
            == C_FULL_STOP && is_digit(src[p + 2]))
    } else if src[p] == C_FULL_STOP {
        p + 1 < src.len() && is_digit(src[p + 1])
    } else {
        is_digit(src[p])
    }
}

/// End of the run of digits that starts at `p`.
pub open spec fn digits_end(src: Seq<u8>, p: int) -> int
    decreases src.len() - p,
{
    if 0 <= p < src.len() && is_digit(src[p]) {
        digits_end(src, p + 1)
    } else {
        p
    }
}

pub proof fn lemma_digits_end(src: Seq<u8>, p: int)
    requires
        0 <= p <= src.len(),
    ensures
        p <= digits_end(src, p) <= src.len(),
        digits_end(src, p) > p ==> src[digits_end(src, p) - 1] < 0x80,
    decreases src.len() - p,
{
    if p < src.len() && is_digit(src[p]) {
        lemma_digits_end(src, p + 1);
    }
}

/// End of the fraction at `p`, if one stands there: a full stop and digits.
pub open spec fn fraction_end(src: Seq<u8>, p: int) -> int {
    if 0 <= p && p + 1 < src.len() && src[p] == C_FULL_STOP && is_digit(src[p + 1]) {
        digits_end(src, p + 2)
    } else {
        p
    }
}

/// End of the exponent at `p`, if one stands there: `e` or `E`, a sign if
/// any, and digits.
pub open spec fn exponent_end(src: Seq<u8>, p: int) -> int {
    if 0 <= p && p + 1 < src.len() && (src[p] == 0x45 || src[p] == 0x65) {
        if is_digit(src[p + 1]) {
            digits_end(src, p + 2)
        } else if (src[p + 1] == C_PLUS_SIGN || src[p + 1] == C_HYPHEN_MINUS) && p + 2
            < src.len() && is_digit(src[p + 2]) {
            digits_end(src, p + 3)
        } else {
            p
        }
    } else {
        p
    }
}

/// End of the number that starts at `p`: sign, digits, fraction, exponent.
pub open spec fn number_end(src: Seq<u8>, p: int) -> int {
    let after_sign = if 0 <= p < src.len() && (src[p] == C_PLUS_SIGN || src[p] == C_HYPHEN_MINUS) {
        p + 1
    } else {
        p
    };
    exponent_end(src, fraction_end(src, digits_end(src, after_sign)))
}

/// End of the numeric token that starts at `p`: the number and its unit
/// or percent sign.
pub open spec fn numeric_end(src: Seq<u8>, p: int) -> int {
    let e = number_end(src, p);
    if starts_ident_sequence(src, e) {
        ident_end(src, e)
    } else if byte_at(src, e, C_PERCENTAGE) {
        e + 1
    } else {
        e
    }
}

pub proof fn lemma_number_end(src: Seq<u8>, p: int)
    requires
        starts_number(src, p),
    ensures
        p < number_end(src, p) <= src.len(),
        src[number_end(src, p) - 1] < 0x80,
{
    let after_sign = if src[p] == C_PLUS_SIGN || src[p] == C_HYPHEN_MINUS {
        p + 1
    } else {
        p
    };
    lemma_digits_end(src, after_sign);
    if after_sign < src.len() && is_digit(src[after_sign]) {
        lemma_digits_end(src, after_sign + 1);
        assert(digits_end(src, after_sign) == digits_end(src, after_sign + 1));
    }
    let d = digits_end(src, after_sign);
    let f = fraction_end(src, d);
    if d + 2 <= src.len() {
        lemma_digits_end(src, d + 2);
    }
    assert(p < f <= src.len() && src[f - 1] < 0x80);
    let e = exponent_end(src, f);
    if e != f {
        if is_digit(src[f + 1]) {
            lemma_digits_end(src, f + 2);
        } else {
            lemma_digits_end(src, f + 3);
        }
    }
}

pub proof fn lemma_numeric_end(src: Seq<u8>, p: int)
    requires
        valid_utf8(src),
        starts_number(src, p),
    ensures
        p < numeric_end(src, p) <= src.len(),
        is_boundary(src, numeric_end(src, p)),
{
    lemma_number_end(src, p);
    let e = number_end(src, p);
    lemma_boundary_after_ascii(src, e - 1);
    if starts_ident_sequence(src, e) {
        lemma_ident_end(src, e);
    } else if byte_at(src, e, C_PERCENTAGE) {
        lemma_boundary_after_ascii(src, e);
    }
}

/// Where the string whose body starts at `p` ends, and whether `quote`
/// closed it there. An unescaped newline ends it unclosed, before the
/// newline; so does the end of the source.
pub open spec fn string_end(src: Seq<u8>, p: int, quote: u8) -> (int, bool)
    decreases src.len() - p,
{
    if p < 0 || p >= src.len() {
        (src.len() as int, false)
    } else if src[p] == quote {
        (p + 1, true)
    } else if is_new_line(src[p]) {
        (p, false)
    } else if src[p] == C_REVERSE_SOLIDUS {
        if p + 1 >= src.len() {
            (src.len() as int, false)
        } else {
            proof {
                lemma_backslash_end(src, p);
            }
            string_end(src, backslash_end(src, p), quote)
        }
    } else {
        string_end(src, p + 1, quote)
    }
}

pub proof fn lemma_string_end(src: Seq<u8>, p: int, quote: u8)
    requires
        0 <= p <= src.len(),
        quote < 0x80,
    ensures
        p <= string_end(src, p, quote).0 <= src.len(),
        string_end(src, p, quote).1 ==> p < string_end(src, p, quote).0 && src[string_end(
            src,
            p,
            quote,
        ).0 - 1] == quote,
        !string_end(src, p, quote).1 && string_end(src, p, quote).0 < src.len() ==> is_new_line(
            src[string_end(src, p, quote).0],
        ),
    decreases src.len() - p,
{
    if p >= src.len() {
    } else if src[p] == quote {
    } else if is_new_line(src[p]) {
    } else if src[p] == C_REVERSE_SOLIDUS {
        if p + 1 < src.len() {
            lemma_backslash_end(src, p);
            lemma_string_end(src, backslash_end(src, p), quote);
        }
    } else {
        lemma_string_end(src, p + 1, quote);
    }
}

/// The rest of an unquoted URL from `p` on: the end of its content, where
/// `content_end` is that end as far as known before `p`, and the end of the
/// token. The content ends after the last byte that is not white space; the
/// token ends after the first `)` outside an escape, or with the source.
pub open spec fn url_end(src: Seq<u8>, p: int, content_end: int) -> (int, int)
    decreases src.len() - p,
{
    if p < 0 || p >= src.len() {
        (content_end, src.len() as int)
    } else if src[p] == C_RIGHT_PARENTHESIS {
        (content_end, p + 1)
    } else if src[p] == C_REVERSE_SOLIDUS {
        if p + 1 >= src.len() {
            (src.len() as int, src.len() as int)
        } else {
            proof {
                lemma_backslash_end(src, p);
            }
            url_end(src, backslash_end(src, p), backslash_end(src, p))
        }
    } else if is_white_space(src[p]) {
        url_end(src, p + 1, content_end)
    } else {
        url_end(src, p + 1, p + 1)
    }
}

pub proof fn lemma_url_end(src: Seq<u8>, p: int, content_end: int)
    requires
        0 <= content_end <= p <= src.len(),
        forall|i: int| content_end <= i < p ==> is_white_space(#[trigger] src[i]),
    ensures
        content_end <= url_end(src, p, content_end).0 <= url_end(src, p, content_end).1
            <= src.len(),
        p <= url_end(src, p, content_end).1,
        p < src.len() ==> p < url_end(src, p, content_end).1,
        is_boundary(src, url_end(src, p, content_end).0),
        url_end(src, p, content_end).1 == src.len() || byte_at(
            src,
            url_end(src, p, content_end).1 - 1,
            C_RIGHT_PARENTHESIS,
        ),
    decreases src.len() - p,
{
    if p >= src.len() {
    } else if src[p] == C_RIGHT_PARENTHESIS {
    } else if src[p] == C_REVERSE_SOLIDUS {
        if p + 1 < src.len() {
            lemma_backslash_end(src, p);
            lemma_url_end(src, backslash_end(src, p), backslash_end(src, p));
        }
    } else if is_white_space(src[p]) {
        lemma_url_end(src, p + 1, content_end);
    } else {
        lemma_url_end(src, p + 1, p + 1);
    }
}

pub fn skip_hex_run(src: &[u8], pos: usize, n: usize) -> (r: usize)
    requires
        pos <= src.len(),
    ensures
        r == hex_run_end(src@, pos as int, n as nat),
        pos <= r <= src.len(),
{
    let mut p: usize = pos;
    let mut k: usize = n;
    while k > 0 && p < src.len() && is_hex_digit(src[p])
        invariant
            pos <= p <= src.len(),
            hex_run_end(src@, p as int, k as nat) == hex_run_end(src@, pos as int, n as nat),
        decreases k,
    {
        p += 1;
        k -= 1;
    }
    p
}

pub fn at_valid_escape(src: &[u8], pos: usize) -> (r: bool)
    requires
        pos <= src.len(),
    ensures
        r == valid_escape(src@, pos as int),
{
    pos < src.len() && pos + 1 < src.len() && src[pos] == C_REVERSE_SOLIDUS && !is_new_line(
        src[pos + 1],
    )
}

/// Skips the escape whose backslash is at `pos`.
pub fn skip_escape(src: &[u8], pos: usize) -> (r: usize)
    requires
        pos + 1 < src.len(),
    ensures
        r == escape_end(src@, pos as int),
        pos + 2 <= r <= src.len(),
{
    proof {
        lemma_escape_end(src@, pos as int);
    }
    if is_hex_digit(src[pos + 1]) {
        let q: usize = skip_hex_run(src, pos + 1, 6);
        if q < src.len() && is_white_space(src[q]) {
            if src[q] == C_CARRIAGE_RETURN && q + 1 < src.len() && src[q + 1] == C_LINE_FEED {
                q + 2
            } else {
                q + 1
            }
        } else {
            q
        }
    } else {
        pos + 2
    }
}

/// Skips a backslash at `pos` and what it takes with it.
pub fn skip_backslash(src: &[u8], pos: usize) -> (r: usize)
    requires
        pos + 1 < src.len(),
    ensures
        r == backslash_end(src@, pos as int),
        pos + 2 <= r <= src.len(),
{
    proof {
        lemma_backslash_end(src@, pos as int);
    }
    if src[pos + 1] == C_CARRIAGE_RETURN && pos + 2 < src.len() && src[pos + 2] == C_LINE_FEED {
        pos + 3
    } else if is_new_line(src[pos + 1]) {
        pos + 2
    } else {
        skip_escape(src, pos)
    }
}

pub fn skip_ident(src: &[u8], pos: usize) -> (r: usize)
    requires
        pos <= src.len(),
    ensures
        r == ident_end(src@, pos as int),
        pos <= r <= src.len(),
{
    let mut p: usize = pos;
    loop
        invariant_except_break
            pos <= p <= src.len(),
            ident_end(src@, p as int) == ident_end(src@, pos as int),
        ensures
            pos <= p <= src.len(),
            p == ident_end(src@, pos as int),
        decreases src.len() - p,
    {
        if p < src.len() && is_ident(src[p]) {
            p += 1;
        } else if at_valid_escape(src, p) {
            p = skip_escape(src, p);
        } else {
            break ;
        }
    }
    p
}

pub fn at_ident_sequence(src: &[u8], pos: usize) -> (r: bool)
    requires
        pos <= src.len(),
    ensures
        r == starts_ident_sequence(src@, pos as int),
{
    if pos >= src.len() {
        false
    } else if src[pos] == C_HYPHEN_MINUS {
        (pos + 1 < src.len() && (is_ident_start(src[pos + 1]) || src[pos + 1] == C_HYPHEN_MINUS))
            || at_valid_escape(src, pos + 1)
    } else if src[pos] == C_REVERSE_SOLIDUS {
        at_valid_escape(src, pos)
    } else {
        is_ident_start(src[pos])
    }
}

pub fn at_number(src: &[u8], pos: usize) -> (r: bool)
    requires
        pos <= src.len(),
    ensures
        r == starts_number(src@, pos as int),
{
    if pos >= src.len() {
        false
    } else if src[pos] == C_PLUS_SIGN || src[pos] == C_HYPHEN_MINUS {
        (pos + 1 < src.len() && is_digit(src[pos + 1])) || (pos + 1 < src.len() && pos + 2
            < src.len() && src[pos + 1] == C_FULL_STOP && is_digit(src[pos + 2]))
    } else if src[pos] == C_FULL_STOP {
        pos + 1 < src.len() && is_digit(src[pos + 1])
    } else {
        is_digit(src[pos])
    }
}

pub fn skip_digits(src: &[u8], pos: usize) -> (r: usize)
    requires
        pos <= src.len(),
    ensures
        r == digits_end(src@, pos as int),
        pos <= r <= src.len(),
{
    let mut p: usize = pos;
    while p < src.len() && is_digit(src[p])
        invariant
            pos <= p <= src.len(),
            digits_end(src@, p as int) == digits_end(src@, pos as int),
        decreases src.len() - p,
    {
        p += 1;
    }
    p
}

/// Skips the numeric token that starts at `pos`.
pub fn skip_numeric(src: &[u8], pos: usize) -> (r: usize)
    requires
        starts_number(src@, pos as int),
    ensures
        r == numeric_end(src@, pos as int),
        pos < r <= src.len(),
{
    proof {
        lemma_number_end(src@, pos as int);
    }
    let after_sign: usize = if src[pos] == C_PLUS_SIGN || src[pos] == C_HYPHEN_MINUS {
        pos + 1
    } else {
        pos
    };
    let d: usize = skip_digits(src, after_sign);
    let f: usize = if d < src.len() && d + 1 < src.len() && src[d] == C_FULL_STOP && is_digit(
        src[d + 1],
    ) {
        skip_digits(src, d + 2)
    } else {
        d
    };
    let e: usize = if f < src.len() && f + 1 < src.len() && (src[f] == 0x45 || src[f] == 0x65) {
        if is_digit(src[f + 1]) {
            skip_digits(src, f + 2)
        } else if (src[f + 1] == C_PLUS_SIGN || src[f + 1] == C_HYPHEN_MINUS) && f + 2
            < src.len() && is_digit(src[f + 2]) {
            skip_digits(src, f + 3)
        } else {
            f
        }
    } else {
        f
    };
    assert(e == number_end(src@, pos as int));
    if at_ident_sequence(src, e) {
        skip_ident(src, e)
    } else if e < src.len() && src[e] == C_PERCENTAGE {
        e + 1
    } else {
        e
    }
}

/// Skips the body of a string: `pos` is just after the opening quote.
pub fn skip_string(src: &[u8], pos: usize, quote: u8) -> (r: (usize, bool))
    requires
        pos <= src.len(),
    ensures
        (r.0 as int, r.1) == string_end(src@, pos as int, quote),
        pos <= r.0 <= src.len(),
{
    let mut p: usize = pos;
    let mut closed: bool = false;
    loop
        invariant_except_break
            pos <= p <= src.len(),
            string_end(src@, p as int, quote) == string_end(src@, pos as int, quote),
            !closed,
        ensures
            pos <= p <= src.len(),
            (p as int, closed) == string_end(src@, pos as int, quote),
        decreases src.len() - p,
    {
        if p >= src.len() {
            break ;
        } else if src[p] == quote {
            p += 1;
            closed = true;
            break ;
        } else if is_new_line(src[p]) {
            break ;
        } else if src[p] == C_REVERSE_SOLIDUS {
            if p + 1 >= src.len() {
                p = src.len();
                break ;
            }
            p = skip_backslash(src, p);
        } else {
            p += 1;
        }
    }
    (p, closed)
}

/// Skips the rest of an unquoted URL from `pos` on, where the content is
/// known to end at `content_end` as far as it lies before `pos`.
pub fn skip_url(src: &[u8], pos: usize, content_end: usize) -> (r: (usize, usize))
    requires
        content_end <= pos <= src.len(),
    ensures
        (r.0 as int, r.1 as int) == url_end(src@, pos as int, content_end as int),
        pos <= r.1 <= src.len(),
{
    let mut p: usize = pos;
    let mut c: usize = content_end;
    loop
        invariant_except_break
            c <= p <= src.len(),
            pos <= p,
            url_end(src@, p as int, c as int) == url_end(src@, pos as int, content_end as int),
        ensures
            pos <= p <= src.len(),
            (c as int, p as int) == url_end(src@, pos as int, content_end as int),
        decreases src.len() - p,
    {
        if p >= src.len() {
            break ;
        } else if src[p] == C_RIGHT_PARENTHESIS {
            p += 1;
            break ;
        } else if src[p] == C_REVERSE_SOLIDUS {
            if p + 1 >= src.len() {
                p = src.len();
                c = p;
                break ;
            }
            p = skip_backslash(src, p);
            c = p;
        } else if is_white_space(src[p]) {
            p += 1;
        } else {
            p += 1;
            c = p;
        }
    }
    (c, p)
}

} // verus!
