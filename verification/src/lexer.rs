//! The lexer: a cursor over the source that reports each token to a visitor.

use crate::chars::C_COLON;
use crate::chars::C_FULL_STOP;
use crate::chars::C_NUMBER_SIGN;
use crate::scan::ident_end;
use crate::scan::is_boundary;
use crate::scan::lemma_boundary_is_char_boundary;
use crate::scan::lemma_ident_end;
use crate::scan::lemma_trivia_end;
use crate::scan::lemma_trivia_end_boundary;
use crate::scan::skip_ident;
use crate::scan::skip_trivia;
use crate::scan::trivia_end;
use crate::token::is_token;
use crate::token::lemma_token_shape;
use crate::token::token_shape;
use crate::token::plain;
use crate::token::scan_token;
use crate::token::token_at;
use crate::token::Token;
use crate::token::TokenKind;
use crate::token::TokenModel;
use vstd::prelude::*;
use vstd::string::group_string_axioms;
use vstd::string::StringSliceAdditionalSpecFns;
use vstd::utf8::decode_first_scalar;
use vstd::utf8::decode_utf8;
use vstd::utf8::encode_utf8_decode_utf8;
use vstd::utf8::encode_utf8_valid_utf8;
use vstd::utf8::is_char_boundary;
use vstd::utf8::is_continuation_byte;
use vstd::utf8::valid_utf8;
use vstd::utf8::valid_utf8_split;

verus! {

/// A byte offset into the source.
pub type Pos = usize;

/// End of the run of continuation bytes that starts at `p`.
pub open spec fn continuation_end(src: Seq<u8>, p: int) -> int
    decreases src.len() - p,
{
    if 0 <= p < src.len() && is_continuation_byte(src[p]) {
        continuation_end(src, p + 1)
    } else {
        p
    }
}

/// End of the character that starts at `p`; `p` itself at the end of the
/// source.
pub open spec fn char_end(src: Seq<u8>, p: int) -> int {
    if 0 <= p < src.len() {
        continuation_end(src, p + 1)
    } else {
        p
    }
}

pub proof fn lemma_continuation_end(src: Seq<u8>, p: int)
    requires
        0 <= p <= src.len(),
    ensures
        p <= continuation_end(src, p) <= src.len(),
        is_boundary(src, continuation_end(src, p)),
        is_boundary(src, p) ==> continuation_end(src, p) == p,
    decreases src.len() - p,
{
    if p < src.len() && is_continuation_byte(src[p]) {
        lemma_continuation_end(src, p + 1);
    }
}

/// The character that starts at the boundary `p`, if one does.
pub open spec fn char_at(src: Seq<u8>, p: int) -> Option<char> {
    if 0 <= p < src.len() {
        Some(decode_first_scalar(src.subrange(p, src.len() as int)) as char)
    } else {
        None
    }
}

/// The byte at `p`, if there is one.
pub open spec fn byte_of(src: Seq<u8>, p: int) -> Option<u8> {
    if 0 <= p < src.len() {
        Some(src[p])
    } else {
        None
    }
}

/// What a lexer tells a visitor, with the visitor's answer.
pub ghost enum Event {
    /// The lexer asked whether selectors are expected at `at`.
    Selector { at: int, answer: Option<bool> },
    /// The lexer reported `token`, which starts at `start`. The visitor left
    /// the cursor at `after` and said whether the pass goes on.
    Token { start: int, token: TokenModel, after: int, go_on: bool },
}

/// The byte `first` starts a token that depends on whether selectors are
/// expected.
pub open spec fn asks_selector(first: u8) -> bool {
    first == C_NUMBER_SIGN || first == C_FULL_STOP || first == C_COLON
}

/// `events` are what a pass over `src` from `p` on tells a visitor, where
/// the pass ends at `end`, at the end of the source if `done` and stopped
/// before it if not. After white space and comments the lexer asks, where
/// the next byte calls for it, whether selectors are expected; then it
/// reads the token there and reports it, unless the token is of no kind
/// that has an event; then it goes on from where the visitor left the
/// cursor. A visitor that answers `None`, and a string that the end of
/// the source cuts short, stop the pass.
pub open spec fn is_pass(src: Seq<u8>, p: int, events: Seq<Event>, end: int, done: bool) -> bool
    decreases src.len() - p,
{
    let q = trivia_end(src, p);
    if p < 0 || q >= src.len() {
        events.len() == 0 && end == q && done
    } else if asks_selector(src[q]) && !(events.len() > 0 && events[0] is Selector
        && events[0]->at == q) {
        false
    } else if asks_selector(src[q]) && events[0]->answer is None {
        events.len() == 1 && end == q && !done
    } else {
        let selector = if asks_selector(src[q]) {
            events[0]->answer->0
        } else {
            true
        };
        let rest = if asks_selector(src[q]) {
            events.drop_first()
        } else {
            events
        };
        let t = token_at(src, q, selector);
        if t.kind is Unterminated {
            rest.len() == 0 && end == t.end && !done
        } else if t.kind is Other {
            p < t.end <= src.len() && is_pass(src, t.end, rest, end, done)
        } else {
            &&& rest.len() > 0
            &&& rest[0] is Token
            &&& rest[0]->start == q
            &&& rest[0]->token == t
            &&& if rest[0]->go_on {
                p < rest[0]->after <= src.len() && is_pass(
                    src,
                    rest[0]->after,
                    rest.drop_first(),
                    end,
                    done,
                )
            } else {
                rest.len() == 1 && end == rest[0]->after && !done
            }
        }
    }
}

/// `step` is what one round of a pass tells a visitor: the pass stands at
/// `p`, reads one token, and goes on from `here`.
spec fn is_step(src: Seq<u8>, p: int, step: Seq<Event>, here: int) -> bool {
    let q = trivia_end(src, p);
    let asks = asks_selector(src[q]);
    let selector = if asks {
        step[0]->answer->0
    } else {
        true
    };
    let rest = if asks {
        step.drop_first()
    } else {
        step
    };
    let t = token_at(src, q, selector);
    &&& 0 <= p
    &&& q < src.len()
    &&& p < here <= src.len()
    &&& asks ==> step.len() > 0 && step[0] is Selector && step[0]->at == q && step[0]->answer
        is Some
    &&& !(t.kind is Unterminated)
    &&& if t.kind is Other {
        rest.len() == 0 && here == t.end
    } else {
        rest == seq![Event::Token { start: q, token: t, after: here, go_on: true }]
    }
}

/// A pass from `from` that has told `seen` and stands at `here` goes on as
/// a pass from `here` does.
#[verifier::opaque]
spec fn leads(src: Seq<u8>, from: int, seen: Seq<Event>, here: int) -> bool {
    forall|rest: Seq<Event>, end: int, done: bool| #[trigger]
        is_pass(src, here, rest, end, done) ==> is_pass(src, from, seen + rest, end, done)
}

/// A pass that is done has come to the end of the source.
pub proof fn lemma_pass_done(src: Seq<u8>, p: int, events: Seq<Event>, end: int)
    requires
        0 <= p,
        is_pass(src, p, events, end, true),
    ensures
        end >= src.len(),
    decreases src.len() - p,
{
    let q = trivia_end(src, p);
    if p < 0 || q >= src.len() {
    } else if asks_selector(src[q]) && events[0]->answer is None {
    } else {
        let selector = if asks_selector(src[q]) {
            events[0]->answer->0
        } else {
            true
        };
        let rest = if asks_selector(src[q]) {
            events.drop_first()
        } else {
            events
        };
        let t = token_at(src, q, selector);
        if t.kind is Unterminated {
        } else if t.kind is Other {
            lemma_pass_done(src, t.end, rest, end);
        } else if rest[0]->go_on {
            lemma_pass_done(src, rest[0]->after, rest.drop_first(), end);
        }
    }
}

proof fn lemma_leads_start(src: Seq<u8>, from: int)
    ensures
        leads(src, from, Seq::empty(), from),
{
    reveal(leads);
    assert forall|rest: Seq<Event>, end: int, done: bool| #[trigger]
        is_pass(src, from, rest, end, done) implies is_pass(
        src,
        from,
        Seq::<Event>::empty() + rest,
        end,
        done,
    ) by {
        assert(Seq::<Event>::empty() + rest =~= rest);
    }
}

proof fn lemma_step(
    src: Seq<u8>,
    p: int,
    step: Seq<Event>,
    here: int,
    rest: Seq<Event>,
    end: int,
    done: bool,
)
    requires
        is_step(src, p, step, here),
        is_pass(src, here, rest, end, done),
    ensures
        is_pass(src, p, step + rest, end, done),
{
    let q = trivia_end(src, p);
    let all = step + rest;
    let asks = asks_selector(src[q]);
    if asks {
        assert(all[0] == step[0]);
        assert(all.drop_first() =~= step.drop_first() + rest);
    }
    let tail = if asks {
        step.drop_first()
    } else {
        step
    };
    let selector = if asks {
        step[0]->answer->0
    } else {
        true
    };
    let t = token_at(src, q, selector);
    if t.kind is Other {
        assert(tail + rest =~= rest);
    } else {
        assert((tail + rest)[0] == tail[0]);
        assert((tail + rest).drop_first() =~= rest);
    }
}

proof fn lemma_leads_step(
    src: Seq<u8>,
    from: int,
    seen: Seq<Event>,
    p: int,
    step: Seq<Event>,
    here: int,
)
    requires
        leads(src, from, seen, p),
        is_step(src, p, step, here),
    ensures
        leads(src, from, seen + step, here),
{
    reveal(leads);
    assert forall|rest: Seq<Event>, end: int, done: bool| #[trigger]
        is_pass(src, here, rest, end, done) implies is_pass(
        src,
        from,
        (seen + step) + rest,
        end,
        done,
    ) by {
        lemma_step(src, p, step, here, rest, end, done);
        assert(seen + (step + rest) =~= (seen + step) + rest);
    }
}

proof fn lemma_leads_end(
    src: Seq<u8>,
    from: int,
    seen: Seq<Event>,
    p: int,
    last: Seq<Event>,
    end: int,
    done: bool,
)
    requires
        leads(src, from, seen, p),
        is_pass(src, p, last, end, done),
    ensures
        is_pass(src, from, seen + last, end, done),
{
    reveal(leads);
}

/// A cursor over a source text. The cursor always stands where a character
/// starts, or at the end.
pub struct Lexer<'s> {
    value: &'s str,
    len: usize,
    pos: usize,
}

/// The receiver of the lexer's events. Each method may move the cursor
/// forward; where one returns `None` the pass stops.
pub trait Visitor<'s>: Sized {
    /// What the visitor maintains of its own state between events, over the
    /// source `src`.
    open spec fn inv(&self, src: Seq<u8>) -> bool {
        true
    }

    /// The offset up to which the visitor has recorded anything.
    open spec fn frontier(&self) -> int {
        0
    }

    /// Whether the visitor as it is, once a lexer over `src` has told it
    /// `event`, may be as `after` is and have answered as `event` says.
    open spec fn takes(&self, src: Seq<u8>, event: Event, after: &Self) -> bool {
        true
    }

    /// Whether selectors are expected at the cursor. The lexer asks before
    /// a `#`, a `.` or a `:`.
    fn is_selector(&mut self, lexer: &mut Lexer<'s>) -> (r: Option<bool>)
        requires
            old(self).inv(old(lexer).source()),
            old(self).frontier() <= old(lexer).position(),
        ensures
            final(lexer).source() == old(lexer).source(),
            final(lexer).position() == old(lexer).position(),
            final(self).inv(final(lexer).source()),
            final(self).frontier() <= final(lexer).position(),
            old(self).takes(
                old(lexer).source(),
                Event::Selector { at: old(lexer).position(), answer: r },
                final(self),
            ),
    ;

    /// An unquoted `url(...)`; the content span leaves out the white space
    /// around the content.
    fn url(
        &mut self,
        lexer: &mut Lexer<'s>,
        start: Pos,
        end: Pos,
        content_start: Pos,
        content_end: Pos,
    ) -> (r: Option<()>)
        requires
            old(self).inv(old(lexer).source()),
            old(self).frontier() <= start,
            old(lexer).at_token(
                start,
                (TokenModel {
                    kind: TokenKind::Url,
                    end: end as int,
                    content_start: content_start as int,
                    content_end: content_end as int,
                }),
            ),
        ensures
            final(lexer).follows(old(lexer)),
            final(self).inv(final(lexer).source()),
            final(self).frontier() <= final(lexer).position(),
            old(self).takes(
                old(lexer).source(),
                Event::Token {
                    start: start as int,
                    token: (TokenModel {
                        kind: TokenKind::Url,
                        end: end as int,
                        content_start: content_start as int,
                        content_end: content_end as int,
                    }),
                    after: final(lexer).position(),
                    go_on: r is Some,
                },
                final(self),
            ),
    ;

    /// An ident sequence and the `(` after it; `end` is just after the `(`.
    fn function(&mut self, lexer: &mut Lexer<'s>, start: Pos, end: Pos) -> (r: Option<()>)
        requires
            old(self).inv(old(lexer).source()),
            old(self).frontier() <= start,
            old(lexer).at_token(start, plain(TokenKind::Function, end as int)),
        ensures
            final(lexer).follows(old(lexer)),
            final(self).inv(final(lexer).source()),
            final(self).frontier() <= final(lexer).position(),
            old(self).takes(
                old(lexer).source(),
                Event::Token {
                    start: start as int,
                    token: plain(TokenKind::Function, end as int),
                    after: final(lexer).position(),
                    go_on: r is Some,
                },
                final(self),
            ),
    ;

    /// An ident sequence that no `(` follows.
    fn ident(&mut self, lexer: &mut Lexer<'s>, start: Pos, end: Pos) -> (r: Option<()>)
        requires
            old(self).inv(old(lexer).source()),
            old(self).frontier() <= start,
            old(lexer).at_token(start, plain(TokenKind::Ident, end as int)),
        ensures
            final(lexer).follows(old(lexer)),
            final(self).inv(final(lexer).source()),
            final(self).frontier() <= final(lexer).position(),
            old(self).takes(
                old(lexer).source(),
                Event::Token {
                    start: start as int,
                    token: plain(TokenKind::Ident, end as int),
                    after: final(lexer).position(),
                    go_on: r is Some,
                },
                final(self),
            ),
    ;

    /// A string; the span holds both quotes.
    fn string(&mut self, lexer: &mut Lexer<'s>, start: Pos, end: Pos) -> (r: Option<()>)
        requires
            old(self).inv(old(lexer).source()),
            old(self).frontier() <= start,
            old(lexer).at_token(start, plain(TokenKind::String, end as int)),
        ensures
            final(lexer).follows(old(lexer)),
            final(self).inv(final(lexer).source()),
            final(self).frontier() <= final(lexer).position(),
            old(self).takes(
                old(lexer).source(),
                Event::Token {
                    start: start as int,
                    token: plain(TokenKind::String, end as int),
                    after: final(lexer).position(),
                    go_on: r is Some,
                },
                final(self),
            ),
    ;

    /// `#` and an ident sequence; `start` is at the `#`.
    fn id(&mut self, lexer: &mut Lexer<'s>, start: Pos, end: Pos) -> (r: Option<()>)
        requires
            old(self).inv(old(lexer).source()),
            old(self).frontier() <= start,
            old(lexer).at_token(start, plain(TokenKind::Id, end as int)),
        ensures
            final(lexer).follows(old(lexer)),
            final(self).inv(final(lexer).source()),
            final(self).frontier() <= final(lexer).position(),
            old(self).takes(
                old(lexer).source(),
                Event::Token {
                    start: start as int,
                    token: plain(TokenKind::Id, end as int),
                    after: final(lexer).position(),
                    go_on: r is Some,
                },
                final(self),
            ),
    ;

    /// A `(` on its own.
    fn left_parenthesis(&mut self, lexer: &mut Lexer<'s>, start: Pos, end: Pos) -> (r: Option<()>)
        requires
            old(self).inv(old(lexer).source()),
            old(self).frontier() <= start,
            old(lexer).at_token(start, plain(TokenKind::LeftParenthesis, end as int)),
        ensures
            final(lexer).follows(old(lexer)),
            final(self).inv(final(lexer).source()),
            final(self).frontier() <= final(lexer).position(),
            old(self).takes(
                old(lexer).source(),
                Event::Token {
                    start: start as int,
                    token: plain(TokenKind::LeftParenthesis, end as int),
                    after: final(lexer).position(),
                    go_on: r is Some,
                },
                final(self),
            ),
    ;

    /// A `)`.
    fn right_parenthesis(&mut self, lexer: &mut Lexer<'s>, start: Pos, end: Pos) -> (r: Option<()>)
        requires
            old(self).inv(old(lexer).source()),
            old(self).frontier() <= start,
            old(lexer).at_token(start, plain(TokenKind::RightParenthesis, end as int)),
        ensures
            final(lexer).follows(old(lexer)),
            final(self).inv(final(lexer).source()),
            final(self).frontier() <= final(lexer).position(),
            old(self).takes(
                old(lexer).source(),
                Event::Token {
                    start: start as int,
                    token: plain(TokenKind::RightParenthesis, end as int),
                    after: final(lexer).position(),
                    go_on: r is Some,
                },
                final(self),
            ),
    ;

    /// A `,`.
    fn comma(&mut self, lexer: &mut Lexer<'s>, start: Pos, end: Pos) -> (r: Option<()>)
        requires
            old(self).inv(old(lexer).source()),
            old(self).frontier() <= start,
            old(lexer).at_token(start, plain(TokenKind::Comma, end as int)),
        ensures
            final(lexer).follows(old(lexer)),
            final(self).inv(final(lexer).source()),
            final(self).frontier() <= final(lexer).position(),
            old(self).takes(
                old(lexer).source(),
                Event::Token {
                    start: start as int,
                    token: plain(TokenKind::Comma, end as int),
                    after: final(lexer).position(),
                    go_on: r is Some,
                },
                final(self),
            ),
    ;

    /// `.` and an ident sequence; `start` is at the `.`.
    fn class(&mut self, lexer: &mut Lexer<'s>, start: Pos, end: Pos) -> (r: Option<()>)
        requires
            old(self).inv(old(lexer).source()),
            old(self).frontier() <= start,
            old(lexer).at_token(start, plain(TokenKind::Class, end as int)),
        ensures
            final(lexer).follows(old(lexer)),
            final(self).inv(final(lexer).source()),
            final(self).frontier() <= final(lexer).position(),
            old(self).takes(
                old(lexer).source(),
                Event::Token {
                    start: start as int,
                    token: plain(TokenKind::Class, end as int),
                    after: final(lexer).position(),
                    go_on: r is Some,
                },
                final(self),
            ),
    ;

    /// `:`, an ident sequence and the `(` after it.
    fn pseudo_function(&mut self, lexer: &mut Lexer<'s>, start: Pos, end: Pos) -> (r: Option<()>)
        requires
            old(self).inv(old(lexer).source()),
            old(self).frontier() <= start,
            old(lexer).at_token(start, plain(TokenKind::PseudoFunction, end as int)),
        ensures
            final(lexer).follows(old(lexer)),
            final(self).inv(final(lexer).source()),
            final(self).frontier() <= final(lexer).position(),
            old(self).takes(
                old(lexer).source(),
                Event::Token {
                    start: start as int,
                    token: plain(TokenKind::PseudoFunction, end as int),
                    after: final(lexer).position(),
                    go_on: r is Some,
                },
                final(self),
            ),
    ;

    /// `:` and an ident sequence that no `(` follows.
    fn pseudo_class(&mut self, lexer: &mut Lexer<'s>, start: Pos, end: Pos) -> (r: Option<()>)
        requires
            old(self).inv(old(lexer).source()),
            old(self).frontier() <= start,
            old(lexer).at_token(start, plain(TokenKind::PseudoClass, end as int)),
        ensures
            final(lexer).follows(old(lexer)),
            final(self).inv(final(lexer).source()),
            final(self).frontier() <= final(lexer).position(),
            old(self).takes(
                old(lexer).source(),
                Event::Token {
                    start: start as int,
                    token: plain(TokenKind::PseudoClass, end as int),
                    after: final(lexer).position(),
                    go_on: r is Some,
                },
                final(self),
            ),
    ;

    /// A `;`.
    fn semicolon(&mut self, lexer: &mut Lexer<'s>, start: Pos, end: Pos) -> (r: Option<()>)
        requires
            old(self).inv(old(lexer).source()),
            old(self).frontier() <= start,
            old(lexer).at_token(start, plain(TokenKind::Semicolon, end as int)),
        ensures
            final(lexer).follows(old(lexer)),
            final(self).inv(final(lexer).source()),
            final(self).frontier() <= final(lexer).position(),
            old(self).takes(
                old(lexer).source(),
                Event::Token {
                    start: start as int,
                    token: plain(TokenKind::Semicolon, end as int),
                    after: final(lexer).position(),
                    go_on: r is Some,
                },
                final(self),
            ),
    ;

    /// `@` and an ident sequence.
    fn at_keyword(&mut self, lexer: &mut Lexer<'s>, start: Pos, end: Pos) -> (r: Option<()>)
        requires
            old(self).inv(old(lexer).source()),
            old(self).frontier() <= start,
            old(lexer).at_token(start, plain(TokenKind::AtKeyword, end as int)),
        ensures
            final(lexer).follows(old(lexer)),
            final(self).inv(final(lexer).source()),
            final(self).frontier() <= final(lexer).position(),
            old(self).takes(
                old(lexer).source(),
                Event::Token {
                    start: start as int,
                    token: plain(TokenKind::AtKeyword, end as int),
                    after: final(lexer).position(),
                    go_on: r is Some,
                },
                final(self),
            ),
    ;

    /// A `{`.
    fn left_curly_bracket(&mut self, lexer: &mut Lexer<'s>, start: Pos, end: Pos) -> (r: Option<()>)
        requires
            old(self).inv(old(lexer).source()),
            old(self).frontier() <= start,
            old(lexer).at_token(start, plain(TokenKind::LeftCurlyBracket, end as int)),
        ensures
            final(lexer).follows(old(lexer)),
            final(self).inv(final(lexer).source()),
            final(self).frontier() <= final(lexer).position(),
            old(self).takes(
                old(lexer).source(),
                Event::Token {
                    start: start as int,
                    token: plain(TokenKind::LeftCurlyBracket, end as int),
                    after: final(lexer).position(),
                    go_on: r is Some,
                },
                final(self),
            ),
    ;

    /// A `}`.
    fn right_curly_bracket(&mut self, lexer: &mut Lexer<'s>, start: Pos, end: Pos) -> (r: Option<
        (),
    >)
        requires
            old(self).inv(old(lexer).source()),
            old(self).frontier() <= start,
            old(lexer).at_token(start, plain(TokenKind::RightCurlyBracket, end as int)),
        ensures
            final(lexer).follows(old(lexer)),
            final(self).inv(final(lexer).source()),
            final(self).frontier() <= final(lexer).position(),
            old(self).takes(
                old(lexer).source(),
                Event::Token {
                    start: start as int,
                    token: plain(TokenKind::RightCurlyBracket, end as int),
                    after: final(lexer).position(),
                    go_on: r is Some,
                },
                final(self),
            ),
    ;
}

/// `states` are the states that a visitor goes through as it is told
/// `events` over `src`, one after the other: the state before the first
/// event, and the state after each.
pub open spec fn takes_all<'s, V: Visitor<'s>>(src: Seq<u8>, states: Seq<V>, events: Seq<Event>)
    -> bool {
    &&& states.len() == events.len() + 1
    &&& forall|i: int|
        0 <= i < events.len() ==> (#[trigger] states[i]).takes(src, events[i], &states[i + 1])
}

impl<'s> Lexer<'s> {
    #[verifier::type_invariant]
    spec fn wf(self) -> bool {
        &&& self.len == self.value.spec_bytes().len()
        &&& is_boundary(self.value.spec_bytes(), self.pos as int)
    }

    /// The bytes of the source.
    pub closed spec fn source(&self) -> Seq<u8> {
        self.value.spec_bytes()
    }

    /// The offset of the cursor.
    pub closed spec fn position(&self) -> int {
        self.pos as int
    }

    /// The lexer has just read the token `t`, which starts at `start`: the
    /// cursor stands at its end.
    pub open spec fn at_token(&self, start: Pos, t: TokenModel) -> bool {
        &&& is_boundary(self.source(), start as int)
        &&& is_token(self.source(), start as int, t)
        &&& self.position() == t.end
    }

    /// The lexer reads the same source as `before` and its cursor has not
    /// gone back.
    pub open spec fn follows(&self, before: &Lexer<'s>) -> bool {
        &&& self.source() == before.source()
        &&& self.position() >= before.position()
    }

    /// The source is valid UTF-8.
    pub proof fn lemma_source_valid(&self)
        ensures
            valid_utf8(self.source()),
    {
        encode_utf8_valid_utf8(self.value@);
    }

    /// A lexer over `value` with its cursor at the start.
    pub fn from(value: &'s str) -> (r: Self)
        ensures
            r.source() == value.spec_bytes(),
            r.source().len() <= usize::MAX,
            r.position() == 0,
    {
        proof {
            encode_utf8_valid_utf8(value@);
            lemma_boundary_is_char_boundary(value.spec_bytes(), 0);
        }
        Lexer { value, len: value.as_bytes().len(), pos: 0 }
    }

    /// The source text.
    pub fn text(&self) -> (r: &'s str)
        ensures
            r.spec_bytes() == self.source(),
    {
        self.value
    }

    /// The length of the source in bytes.
    pub fn len(&self) -> (r: usize)
        ensures
            r == self.source().len(),
    {
        proof {
            use_type_invariant(self);
        }
        self.len
    }

    /// The bytes of the source.
    pub fn bytes(&self) -> (r: &'s [u8])
        ensures
            r@ == self.source(),
    {
        self.value.as_bytes()
    }

    /// Moves the cursor forward to `pos`.
    pub fn advance_to(&mut self, pos: Pos)
        requires
            old(self).position() <= pos,
            is_boundary(old(self).source(), pos as int),
        ensures
            final(self).source() == old(self).source(),
            final(self).position() == pos,
    {
        proof {
            use_type_invariant(&*self);
        }
        self.pos = pos;
    }

    /// The text of `[start, end)`, which runs from boundary to boundary.
    pub fn text_of(&self, start: Pos, end: Pos) -> (r: &'s str)
        requires
            start <= end,
            is_boundary(self.source(), start as int),
            is_boundary(self.source(), end as int),
        ensures
            r.spec_bytes() == self.source().subrange(start as int, end as int),
    {
        match self.slice(start, end) {
            Some(text) => text,
            None => "",
        }
    }

    /// What the token that the lexer has just read is like, by its kind.
    pub proof fn lemma_at_token(&self, start: Pos, t: TokenModel)
        requires
            self.at_token(start, t),
        ensures
            token_shape(self.source(), start as int, t),
            valid_utf8(self.source()),
    {
        self.lemma_source_valid();
        lemma_token_shape(self.source(), start as int, true);
        lemma_token_shape(self.source(), start as int, false);
    }

    /// The offset of the cursor.
    pub fn cur_pos(&self) -> (r: Pos)
        ensures
            r == self.position(),
            r <= self.source().len(),
            is_boundary(self.source(), r as int),
    {
        proof {
            use_type_invariant(self);
        }
        self.pos
    }

    /// The offset of the character after the one at the cursor, where the
    /// cursor is not at the end.
    pub fn peek_pos(&self) -> (r: Option<Pos>)
        ensures
            r is Some <==> self.position() < self.source().len(),
            r is Some ==> r->0 == char_end(self.source(), self.position()),
            r is Some ==> self.position() < r->0 <= self.source().len() && is_boundary(
                self.source(),
                r->0 as int,
            ),
    {
        proof {
            use_type_invariant(self);
            if self.position() < self.source().len() {
                lemma_continuation_end(self.source(), self.position() + 1);
            }
        }
        let src = self.value.as_bytes();
        if self.pos < src.len() {
            Some(skip_continuation(src, self.pos + 1))
        } else {
            None
        }
    }

    /// The offset of the second character after the one at the cursor,
    /// where a character follows the one at the cursor.
    pub fn peek2_pos(&self) -> (r: Option<Pos>)
        ensures
            r is Some <==> char_end(self.source(), self.position()) < self.source().len(),
            r is Some ==> r->0 == char_end(
                self.source(),
                char_end(self.source(), self.position()),
            ),
            r is Some ==> self.position() + 1 < r->0 <= self.source().len() && is_boundary(
                self.source(),
                r->0 as int,
            ),
    {
        proof {
            use_type_invariant(self);
        }
        let src = self.value.as_bytes();
        match self.peek_pos() {
            Some(next) => {
                if next < src.len() {
                    proof {
                        lemma_continuation_end(self.source(), next + 1);
                    }
                    Some(skip_continuation(src, next + 1))
                } else {
                    None
                }
            },
            None => None,
        }
    }

    /// The byte at the cursor: the first byte of the current character.
    pub fn cur_byte(&self) -> (r: Option<u8>)
        ensures
            r == byte_of(self.source(), self.position()),
            0 <= self.position() <= self.source().len(),
    {
        proof {
            use_type_invariant(self);
        }
        let src = self.value.as_bytes();
        if self.pos < src.len() {
            Some(src[self.pos])
        } else {
            None
        }
    }

    /// The first byte of the character after the one at the cursor.
    pub fn peek_byte(&self) -> (r: Option<u8>)
        ensures
            r == byte_of(self.source(), char_end(self.source(), self.position())),
            r is Some ==> self.position() < self.source().len(),
            0 <= self.position() <= self.source().len(),
    {
        proof {
            use_type_invariant(self);
        }
        let src = self.value.as_bytes();
        match self.peek_pos() {
            Some(next) => if next < src.len() {
                Some(src[next])
            } else {
                None
            },
            None => None,
        }
    }

    fn char_from(&self, pos: Pos) -> (r: Option<char>)
        requires
            is_boundary(self.source(), pos as int),
        ensures
            r == char_at(self.source(), pos as int),
    {
        proof {
            encode_utf8_valid_utf8(self.value@);
            lemma_boundary_is_char_boundary(self.value.spec_bytes(), pos as int);
        }
        let (_, rest) = self.value.split_at(pos);
        let mut it = rest.chars();
        let r = it.next();
        proof {
            broadcast use group_string_axioms;

            let bytes = rest.spec_bytes();
            assert(bytes == self.source().subrange(pos as int, self.source().len() as int));
            encode_utf8_valid_utf8(rest@);
            encode_utf8_decode_utf8(rest@);
            assert(decode_utf8(bytes) == rest@);
            if bytes.len() == 0 {
                assert(rest@.len() == 0);
            } else {
                assert(rest@.len() > 0);
                assert(rest@[0] == decode_first_scalar(bytes) as char);
            }
        }
        r
    }

    /// The character at the cursor; `None` at the end of the source.
    pub fn cur(&self) -> (r: Option<char>)
        ensures
            r == char_at(self.source(), self.position()),
            r is Some <==> self.position() < self.source().len(),
    {
        proof {
            use_type_invariant(self);
        }
        self.char_from(self.pos)
    }

    /// The character after the one at the cursor.
    pub fn peek(&self) -> (r: Option<char>)
        ensures
            r == char_at(self.source(), char_end(self.source(), self.position())),
    {
        proof {
            use_type_invariant(self);
        }
        match self.peek_pos() {
            Some(next) => self.char_from(next),
            None => None,
        }
    }

    /// The second character after the one at the cursor.
    pub fn peek2(&self) -> (r: Option<char>)
        ensures
            r == char_at(
                self.source(),
                char_end(self.source(), char_end(self.source(), self.position())),
            ),
    {
        proof {
            use_type_invariant(self);
        }
        match self.peek2_pos() {
            Some(next) => self.char_from(next),
            None => None,
        }
    }

    /// Moves the cursor past the character it stands at, if any.
    pub fn consume(&mut self)
        ensures
            final(self).source() == old(self).source(),
            final(self).position() == char_end(old(self).source(), old(self).position()),
            old(self).position() <= final(self).position() <= old(self).source().len(),
            old(self).position() < old(self).source().len() ==> old(self).position()
                < final(self).position(),
    {
        proof {
            use_type_invariant(&*self);
        }
        if let Some(next) = self.peek_pos() {
            self.pos = next;
        }
    }

    /// The text of `[start, end)`, where both are boundaries of the source.
    pub fn slice(&self, start: Pos, end: Pos) -> (r: Option<&'s str>)
        ensures
            r is Some <==> start <= end && is_boundary(self.source(), start as int)
                && is_boundary(self.source(), end as int),
            r is Some ==> r->0.spec_bytes() == self.source().subrange(start as int, end as int),
    {
        proof {
            encode_utf8_valid_utf8(self.value@);
            lemma_boundary_is_char_boundary(self.value.spec_bytes(), start as int);
            lemma_boundary_is_char_boundary(self.value.spec_bytes(), end as int);
            if start <= end && is_char_boundary(self.value.spec_bytes(), end as int) {
                let head = self.value.spec_bytes().subrange(0, end as int);
                valid_utf8_split(self.value.spec_bytes(), end as int);
                lemma_boundary_is_char_boundary(head, start as int);
                if start < end {
                    assert(head[start as int] == self.value.spec_bytes()[start as int]);
                }
            }
        }
        if start > end || end > self.value.as_bytes().len() {
            return None;
        }
        if !self.value.is_char_boundary(start) || !self.value.is_char_boundary(end) {
            return None;
        }
        let (head, _) = self.value.split_at(end);
        let (_, body) = head.split_at(start);
        Some(body)
    }

    /// Moves the cursor past white space and comments.
    pub fn consume_white_space_and_comments(&mut self)
        ensures
            final(self).source() == old(self).source(),
            final(self).position() == trivia_end(old(self).source(), old(self).position()),
            old(self).position() <= final(self).position() <= old(self).source().len(),
    {
        proof {
            use_type_invariant(&*self);
            encode_utf8_valid_utf8(self.value@);
            lemma_trivia_end_boundary(self.value.spec_bytes(), self.pos as int);
        }
        self.pos = skip_trivia(self.value.as_bytes(), self.pos);
    }

    /// Moves the cursor past an ident sequence.
    pub fn consume_ident_sequence(&mut self)
        ensures
            final(self).source() == old(self).source(),
            final(self).position() == ident_end(old(self).source(), old(self).position()),
            old(self).position() <= final(self).position() <= old(self).source().len(),
    {
        proof {
            use_type_invariant(&*self);
            lemma_ident_end(self.value.spec_bytes(), self.pos as int);
        }
        self.pos = skip_ident(self.value.as_bytes(), self.pos);
    }

    /// Whether the byte `first` starts a token that depends on whether
    /// selectors are expected.
    pub fn asks_selector(first: u8) -> (r: bool)
        ensures
            r == asks_selector(first),
    {
        first == C_NUMBER_SIGN || first == C_FULL_STOP || first == C_COLON
    }

    /// Reads the token at the cursor, which stands before the end of the
    /// source, and moves the cursor to the end of the token.
    pub fn read_token(&mut self, selector: bool) -> (t: Token)
        requires
            0 <= old(self).position() < old(self).source().len(),
        ensures
            final(self).source() == old(self).source(),
            t@ == token_at(old(self).source(), old(self).position(), selector),
            final(self).at_token(old(self).position() as usize, t@),
            old(self).position() < final(self).position() <= old(self).source().len(),
    {
        proof {
            use_type_invariant(&*self);
            encode_utf8_valid_utf8(self.value@);
        }
        let t = scan_token(self.value.as_bytes(), self.pos, selector);
        self.pos = t.end;
        t
    }

    /// Reports to `visitor` the token `t`, which has just been read from
    /// `start` on, if it is of a kind that has an event.
    fn report<T: Visitor<'s>>(&mut self, visitor: &mut T, start: Pos, t: Token) -> (r: Option<
        (),
    >)
        requires
            old(visitor).inv(old(self).source()),
            old(visitor).frontier() <= start,
            old(self).at_token(start, t@),
        ensures
            final(self).follows(old(self)),
            final(self).position() <= old(self).source().len(),
            final(visitor).inv(final(self).source()),
            final(visitor).frontier() <= final(self).position(),
            t.kind is Other ==> r is Some,
            t.kind is Unterminated ==> r is None,
            t.kind is Other || t.kind is Unterminated ==> final(self).position() == old(
                self,
            ).position(),
            if t.kind is Other || t.kind is Unterminated {
                *final(visitor) == *old(visitor)
            } else {
                old(visitor).takes(
                    old(self).source(),
                    Event::Token {
                        start: start as int,
                        token: t@,
                        after: final(self).position(),
                        go_on: r is Some,
                    },
                    final(visitor),
                )
            },
    {
        proof {
            self.lemma_at_token(start, t@);
        }
        let r = match t.kind {
            TokenKind::Url => visitor.url(self, start, t.end, t.content_start, t.content_end),
            TokenKind::Function => visitor.function(self, start, t.end),
            TokenKind::Ident => visitor.ident(self, start, t.end),
            TokenKind::String => visitor.string(self, start, t.end),
            TokenKind::Id => visitor.id(self, start, t.end),
            TokenKind::LeftParenthesis => visitor.left_parenthesis(self, start, t.end),
            TokenKind::RightParenthesis => visitor.right_parenthesis(self, start, t.end),
            TokenKind::Comma => visitor.comma(self, start, t.end),
            TokenKind::Class => visitor.class(self, start, t.end),
            TokenKind::PseudoFunction => visitor.pseudo_function(self, start, t.end),
            TokenKind::PseudoClass => visitor.pseudo_class(self, start, t.end),
            TokenKind::Semicolon => visitor.semicolon(self, start, t.end),
            TokenKind::AtKeyword => visitor.at_keyword(self, start, t.end),
            TokenKind::LeftCurlyBracket => visitor.left_curly_bracket(self, start, t.end),
            TokenKind::RightCurlyBracket => visitor.right_curly_bracket(self, start, t.end),
            TokenKind::Other => Some(()),
            TokenKind::Unterminated => None,
        };
        proof {
            use_type_invariant(&*self);
        }
        r
    }

    /// Runs over the source from the cursor on and reports each token to
    /// `visitor`. Returns `None` where the visitor stopped the pass, or a
    /// string ran into the end of the source; then the cursor stays where
    /// the pass stopped. Otherwise the cursor ends at the end of the source.
    ///
    /// The visitor is told the events of a pass, and goes through its
    /// states as it takes one after the other.
    pub fn lex<T: Visitor<'s>>(&mut self, visitor: &mut T) -> (r: Option<()>)
        requires
            old(visitor).inv(old(self).source()),
            old(visitor).frontier() <= old(self).position(),
        ensures
            final(self).source() == old(self).source(),
            final(self).position() >= old(self).position(),
            final(visitor).inv(final(self).source()),
            final(visitor).frontier() <= final(self).position(),
            r is Some ==> final(self).position() == final(self).source().len(),
            exists|events: Seq<Event>, states: Seq<T>|
                {
                    &&& #[trigger] is_pass(
                        old(self).source(),
                        old(self).position(),
                        events,
                        final(self).position(),
                        r is Some,
                    )
                    &&& #[trigger] takes_all(old(self).source(), states, events)
                    &&& states.first() == *old(visitor)
                    &&& states.last() == *final(visitor)
                },
    {
        let ghost src = self.source();
        let ghost from = self.position();
        let ghost mut seen: Seq<Event> = Seq::empty();
        let ghost mut states: Seq<T> = seq![*visitor];
        let mut outcome: Option<()> = Some(());
        proof {
            use_type_invariant(&*self);
            lemma_leads_start(src, from);
        }
        loop
            invariant_except_break
                leads(src, from, seen, self.position()),
            invariant
                0 <= from,
                src == old(self).source(),
                from == old(self).position(),
                self.source() == src,
                self.position() >= from,
                visitor.inv(src),
                visitor.frontier() <= self.position(),
                takes_all(src, states, seen),
                states.first() == *old(visitor),
                states.last() == *visitor,
            ensures
                is_pass(src, from, seen, self.position(), outcome is Some),
            decreases src.len() - self.position(),
        {
            let ghost p = self.position();
            let ghost seen_before = seen;
            let ghost mut step: Seq<Event> = Seq::empty();
            proof {
                use_type_invariant(&*self);
                lemma_trivia_end(src, p);
            }
            self.consume_white_space_and_comments();
            let start: Pos = self.cur_pos();
            let at_cursor = self.cur_byte();
            if at_cursor.is_none() {
                proof {
                    assert(is_pass(src, p, step, start as int, true));
                    lemma_leads_end(src, from, seen, p, step, start as int, true);
                    assert(seen + step =~= seen);
                }
                outcome = Some(());
                break ;
            }
            let first: u8 = at_cursor.unwrap();
            let mut selector: bool = true;
            if Self::asks_selector(first) {
                let answer = visitor.is_selector(self);
                proof {
                    let asked = Event::Selector { at: start as int, answer };
                    lemma_takes_one(src, states, seen, asked, *visitor);
                    step = step.push(asked);
                    seen = seen.push(asked);
                    states = states.push(*visitor);
                    assert(seen_before + step =~= seen);
                }
                if answer.is_none() {
                    proof {
                        assert(is_pass(src, p, step, start as int, false));
                        lemma_leads_end(src, from, seen_before, p, step, start as int, false);
                    }
                    outcome = None;
                    break ;
                }
                selector = answer.unwrap();
            }
            let ghost asked = step;
            let t = self.read_token(selector);
            outcome = self.report(visitor, start, t);
            proof {
                if !(t.kind is Other || t.kind is Unterminated) {
                    let reported = Event::Token {
                        start: start as int,
                        token: t@,
                        after: self.position(),
                        go_on: outcome is Some,
                    };
                    lemma_takes_one(src, states, seen, reported, *visitor);
                    step = step.push(reported);
                    seen = seen.push(reported);
                    states = states.push(*visitor);
                    if asked.len() > 0 {
                        assert(step.drop_first() =~= seq![reported]);
                    } else {
                        assert(step =~= seq![reported]);
                    }
                } else if asked.len() > 0 {
                    assert(step.drop_first() =~= Seq::<Event>::empty());
                }
                assert(seen_before + step =~= seen);
            }
            if outcome.is_none() {
                proof {
                    assert(is_pass(src, p, step, self.position(), false));
                    lemma_leads_end(src, from, seen_before, p, step, self.position(), false);
                }
                break ;
            }
            proof {
                assert(is_step(src, p, step, self.position()));
                lemma_leads_step(src, from, seen_before, p, step, self.position());
            }
        }
        proof {
            use_type_invariant(&*self);
            if outcome is Some {
                lemma_pass_done(src, from, seen, self.position());
            }
        }
        outcome
    }
}

/// A visitor that has gone through `states` as it was told `events`, and
/// then takes `event` and is as `after` is, has gone through these states
/// and `after` as it was told these events and `event`.
proof fn lemma_takes_one<'s, V: Visitor<'s>>(
    src: Seq<u8>,
    states: Seq<V>,
    events: Seq<Event>,
    event: Event,
    after: V,
)
    requires
        takes_all(src, states, events),
        states.last().takes(src, event, &after),
    ensures
        takes_all(src, states.push(after), events.push(event)),
{
    let longer = states.push(after);
    let more = events.push(event);
    assert forall|i: int| 0 <= i < more.len() implies (#[trigger] longer[i]).takes(
        src,
        more[i],
        &longer[i + 1],
    ) by {
        if i < events.len() {
            assert(states[i].takes(src, events[i], &states[i + 1]));
        }
    }
}

fn skip_continuation(src: &[u8], pos: usize) -> (r: usize)
    requires
        pos <= src.len(),
    ensures
        r == continuation_end(src@, pos as int),
        pos <= r <= src.len(),
{
    let mut p: usize = pos;
    while p < src.len() && 0x80 <= src[p] && src[p] <= 0xbf
        invariant
            pos <= p <= src.len(),
            continuation_end(src@, p as int) == continuation_end(src@, pos as int),
        decreases src.len() - p,
    {
        p += 1;
    }
    p
}

} // verus!
