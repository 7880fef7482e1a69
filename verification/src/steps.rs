//! Each step of the analysis keeps the state in order.

use crate::chars::C_COLON;
use crate::chars::C_HYPHEN_MINUS;
use crate::chars::C_LEFT_CURLY;
use crate::chars::C_RIGHT_CURLY;
use crate::chars::C_RIGHT_PARENTHESIS;
use crate::dependencies::BalancedItemKind;
use crate::dependencies::Range;
use crate::dependencies::Warning;
use crate::order::balanced_ok;
use crate::order::closed_span;
use crate::order::lemma_advance;
use crate::order::lemma_emit;
use crate::order::lemma_warn;
use crate::order::state_ok;
use crate::lexer::asks_selector;
use crate::lexer::char_end;
use crate::lexer::is_pass;
use crate::lexer::Event;
use crate::model::answer;
use crate::model::answered;
use crate::model::Outcome;
use crate::lexer::lemma_continuation_end;
use crate::lexer::Pos;
use crate::model::after_value;
use crate::model::lemma_prop_end;
use crate::model::lemma_value_end;
use crate::model::prop_end;
use crate::model::span;
use crate::model::value_end;
use crate::model::DependencyModel;
use crate::model::ImportModel;
use crate::model::ScopeModel;
use crate::model::StateModel;
use crate::scan::ident_end;
use crate::scan::lemma_ident_end;
use crate::scan::is_boundary;
use crate::scan::lemma_boundary_after_ascii;
use crate::scan::lemma_trivia_end;
use crate::scan::lemma_trivia_end_boundary;
use vstd::utf8::valid_utf8;
use crate::scan::trivia_end;
use crate::text::lemma_at_import;
use crate::text::lower;
use crate::token::lemma_token_shape;
use crate::token::plain;
use crate::token::token_at;
use crate::token::token_shape;
use crate::token::TokenKind;
use crate::token::TokenModel;
use vstd::prelude::*;
use vstd::string::StringSliceAdditionalSpecFns;

verus! {

pub proof fn lemma_char_end(src: Seq<u8>, p: int)
    requires
        0 <= p <= src.len(),
    ensures
        p <= char_end(src, p) <= src.len(),
        p < src.len() ==> p < char_end(src, p),
{
    if p < src.len() {
        lemma_continuation_end(src, p + 1);
    }
}

/// A string runs from boundary to boundary inside its quotes.
pub proof fn lemma_quote_boundary(src: Seq<u8>, start: int, end: int)
    requires
        vstd::utf8::valid_utf8(src),
        token_shape(src, start, plain(TokenKind::String, end)),
    ensures
        crate::scan::is_boundary(src, start + 1),
        crate::scan::is_boundary(src, end - 1),
        start + 1 <= end - 1,
{
    crate::scan::lemma_boundary_after_ascii(src, start);
}

pub proof fn lemma_on_url(
    s: StateModel,
    src: Seq<u8>,
    frontier: int,
    start: Pos,
    end: Pos,
    content_start: Pos,
    content_end: Pos,
)
    requires
        state_ok(s, src, frontier),
        frontier <= start,
        token_shape(
            src,
            start as int,
            (TokenModel {
                kind: TokenKind::Url,
                end: end as int,
                content_start: content_start as int,
                content_end: content_end as int,
            }),
        ),
    ensures
        state_ok(s.on_url(src, start, end, content_start, content_end), src, end as int),
{
    lemma_advance(s, src, frontier, end as int);
    let value = src.subrange(content_start as int, content_end as int);
    match s.scope {
        ScopeModel::InAtImport(import) => {
            if import.supports is InSupports {
            } else if import.url is Some {
                let w = Warning::DuplicateUrl { range: Range { start: import.start, end } };
                lemma_warn(s, src, end as int, w);
            } else {
            }
        },
        ScopeModel::InBlock => {
            let d = DependencyModel::Url {
                request: value,
                range: Range { start, end },
                kind: crate::dependencies::UrlRangeKind::Function,
            };
            lemma_emit(s, src, frontier, d, end as int);
        },
        _ => {},
    }
}

pub proof fn lemma_on_string(s: StateModel, src: Seq<u8>, frontier: int, start: Pos, end: Pos)
    requires
        state_ok(s, src, frontier),
        frontier <= start,
        token_shape(src, start as int, plain(TokenKind::String, end as int)),
    ensures
        state_ok(s.on_string(src, start, end), src, end as int),
{
    lemma_advance(s, src, frontier, end as int);
    let value = src.subrange(start + 1, end - 1);
    match s.scope {
        ScopeModel::InAtImport(import) => {
            let inside_url = s.innermost() == Some(BalancedItemKind::Url);
            if import.supports is InSupports || (!inside_url && import.url is Some) {
            } else if import.url is Some {
                let w = Warning::DuplicateUrl { range: Range { start: import.start, end } };
                lemma_warn(s, src, end as int, w);
            } else {
            }
        },
        ScopeModel::InBlock => {
            match s.innermost() {
                Some(BalancedItemKind::Url) => {
                    let d = DependencyModel::Url {
                        request: value,
                        range: Range { start, end },
                        kind: crate::dependencies::UrlRangeKind::String,
                    };
                    lemma_emit(s, src, frontier, d, end as int);
                },
                Some(BalancedItemKind::ImageSet) => {
                    let d = DependencyModel::Url {
                        request: value,
                        range: Range { start, end },
                        kind: crate::dependencies::UrlRangeKind::Function,
                    };
                    lemma_emit(s, src, frontier, d, end as int);
                },
                _ => {},
            }
        },
        _ => {},
    }
}

pub proof fn lemma_on_at_keyword(s: StateModel, src: Seq<u8>, frontier: int, start: Pos, end: Pos)
    requires
        state_ok(s, src, frontier),
        frontier <= start,
        token_shape(src, start as int, plain(TokenKind::AtKeyword, end as int)),
    ensures
        state_ok(s.on_at_keyword(src, start, end), src, end as int),
{
    lemma_advance(s, src, frontier, end as int);
    lemma_at_import();
    let name = lower(src.subrange(start as int, end as int));
    if name == "@namespace".spec_bytes() {
        let t = s.with_scope(ScopeModel::AtNamespaceInvalid);
        lemma_warn(
            t,
            src,
            end as int,
            Warning::NamespaceNotSupportedInBundledCss { range: Range { start, end } },
        );
    } else if name == "@import".spec_bytes() {
        if !s.allow_import_at_rule {
            let t = s.with_scope(ScopeModel::AtImportInvalid);
            lemma_warn(
                t,
                src,
                end as int,
                Warning::NotPrecededAtImport { range: Range { start, end } },
            );
        } else {
            assert(name.len() == 7);
            assert(end == start + 7);
        }
    }
}

pub proof fn lemma_finish_import(
    s: StateModel,
    src: Seq<u8>,
    frontier: int,
    import: ImportModel,
    start: Pos,
    end: Pos,
)
    requires
        state_ok(s, src, frontier),
        s.scope == ScopeModel::InAtImport(import),
        frontier <= start,
        token_shape(src, start as int, plain(TokenKind::Semicolon, end as int)),
    ensures
        state_ok(s.finish_import(src, import, start, end), src, end as int),
{
    lemma_advance(s, src, frontier, end as int);
    let top = s.with_scope(ScopeModel::TopLevel);
    let whole = Range { start: import.start, end };
    assert(state_ok(top, src, end as int));
    if import.url is None {
        lemma_warn(top, src, end as int, Warning::ExpectedUrl { range: whole });
    } else if import.url_range is None {
        lemma_warn(
            top,
            src,
            end as int,
            Warning::Unexpected { unexpected: Range { start, end }, range: whole },
        );
    } else {
        let url_range = import.url_range->0;
        if import.layer_range() is Some && url_range.start > import.layer_range()->0.start {
            lemma_warn(
                top,
                src,
                end as int,
                Warning::ExpectedBefore {
                    should_after: import.layer_range()->0,
                    range: url_range,
                },
            );
        } else {
            let warned = match import.supports {
                crate::model::SupportsModel::InSupports { start: supports_start } => top.warn(
                    Warning::Unexpected {
                        unexpected: Range { start, end },
                        range: Range { start: supports_start, end },
                    },
                ),
                _ => top,
            };
            assert(state_ok(warned, src, end as int)) by {
                if let crate::model::SupportsModel::InSupports { start: supports_start } =
                    import.supports {
                    lemma_warn(
                        top,
                        src,
                        end as int,
                        Warning::Unexpected {
                            unexpected: Range { start, end },
                            range: Range { start: supports_start, end },
                        },
                    );
                }
            }
            if import.supports_range() is Some && url_range.start
                > import.supports_range()->0.start {
                lemma_warn(
                    warned,
                    src,
                    end as int,
                    Warning::ExpectedBefore {
                        should_after: import.supports_range()->0,
                        range: url_range,
                    },
                );
            } else if import.layer_range() is Some && import.supports_range() is Some
                && import.layer_range()->0.start > import.supports_range()->0.start {
                lemma_warn(
                    warned,
                    src,
                    end as int,
                    Warning::ExpectedBefore {
                        should_after: import.supports_range()->0,
                        range: import.layer_range()->0,
                    },
                );
            } else {
                let d = DependencyModel::Import {
                    request: import.url->0,
                    range: whole,
                    layer: match import.layer {
                        crate::model::LayerModel::EndLayer { value, .. } => Some(value),
                        crate::model::LayerModel::Absent => None,
                    },
                    supports: match import.supports {
                        crate::model::SupportsModel::EndSupports { value, .. } => Some(value),
                        _ => None,
                    },
                    media: crate::model::media(src, import.last_end() as int, start as int),
                };
                lemma_emit(warned, src, end as int, d, end as int);
            }
        }
    }
}

pub proof fn lemma_on_semicolon(s: StateModel, src: Seq<u8>, frontier: int, start: Pos, end: Pos)
    requires
        state_ok(s, src, frontier),
        frontier <= start,
        token_shape(src, start as int, plain(TokenKind::Semicolon, end as int)),
    ensures
        state_ok(s.on_semicolon(src, start, end), src, end as int),
{
    lemma_advance(s, src, frontier, end as int);
    if let ScopeModel::InAtImport(import) = s.scope {
        lemma_finish_import(s, src, frontier, import, start, end);
    }
}

pub proof fn lemma_push_balanced(
    s: StateModel,
    src: Seq<u8>,
    frontier: int,
    kind: BalancedItemKind,
    start: Pos,
    end: Pos,
)
    requires
        state_ok(s, src, frontier),
        closed_span(Range { start, end }, src, frontier),
    ensures
        state_ok(s.push_balanced(kind, start, end), src, frontier),
{
    let t = s.push_balanced(kind, start, end);
    assert forall|i: int| 0 <= i < t.balanced.len() implies closed_span(
        (#[trigger] t.balanced[i]).range,
        src,
        frontier,
    ) by {
        if i < s.balanced.len() {
            assert(t.balanced[i] == s.balanced[i]);
        }
    }
}

pub proof fn lemma_open_function(s: StateModel, src: Seq<u8>, frontier: int, start: Pos, end: Pos)
    requires
        state_ok(s, src, frontier),
        frontier <= start,
        token_shape(src, start as int, plain(TokenKind::Function, end as int)),
    ensures
        state_ok(s.open_function(src, start, end), src, end as int),
{
    lemma_advance(s, src, frontier, end as int);
    let name = lower(src.subrange(start as int, end - 1));
    lemma_push_balanced(s, src, end as int, crate::model::classify(name), start, end);
}

pub proof fn lemma_local_var(s: StateModel, src: Seq<u8>, pos: int, start: Pos)
    requires
        valid_utf8(src),
        is_boundary(src, pos),
        state_ok(s, src, pos),
        s.mode is Some,
        start <= pos,
    ensures
        state_ok(s.local_var(src, pos, start).state, src, s.local_var(src, pos, start).pos),
        pos <= s.local_var(src, pos, start).pos <= src.len(),
        is_boundary(src, s.local_var(src, pos, start).pos),
{
    lemma_trivia_end(src, pos);
    lemma_trivia_end_boundary(src, pos);
    lemma_ident_end(src, trivia_end(src, pos));
    lemma_trivia_end_boundary(src, ident_end(src, trivia_end(src, pos)));
    let here = trivia_end(src, pos);
    lemma_char_end(src, here);
    let next = char_end(src, here);
    lemma_char_end(src, next);
    lemma_advance(s, src, pos, here);
    if here >= src.len() {
    } else if src[here] == C_HYPHEN_MINUS && next >= src.len() {
    } else if !(src[here] == C_HYPHEN_MINUS && src[next] == C_HYPHEN_MINUS) {
        if next >= src.len() {
        } else {
            let e = char_end(src, next);
            lemma_warn(
                s,
                src,
                here,
                Warning::Unexpected { unexpected: span(here, e), range: span(start as int, e) },
            );
        }
    } else {
        lemma_ident_end(src, here);
        let there = ident_end(src, here);
        assert(there >= here + 2) by {
            lemma_ident_end(src, here + 1);
            lemma_ident_end(src, here + 2);
            lemma_continuation_end(src, here + 1);
        }
        lemma_trivia_end(src, there);
        let close = trivia_end(src, there);
        lemma_char_end(src, close);
        lemma_advance(s, src, pos, close);
        if close >= src.len() {
        } else if src[close] != C_RIGHT_PARENTHESIS {
            let e = char_end(src, close);
            lemma_warn(
                s,
                src,
                close,
                Warning::Unexpected { unexpected: span(close, e), range: span(here + 2, e) },
            );
        } else {
            let d = DependencyModel::LocalVar {
                name: src.subrange(here + 2, there),
                range: span(here, there),
            };
            lemma_emit(s, src, pos, d, close);
        }
    }
}

pub proof fn lemma_on_function(s: StateModel, src: Seq<u8>, frontier: int, start: Pos, end: Pos)
    requires
        state_ok(s, src, frontier),
        frontier <= start,
        token_shape(src, start as int, plain(TokenKind::Function, end as int)),
        valid_utf8(src),
    ensures
        state_ok(s.on_function(src, start, end).state, src, s.on_function(src, start, end).pos),
        end <= s.on_function(src, start, end).pos <= src.len(),
        is_boundary(src, s.on_function(src, start, end).pos),
{
    lemma_open_function(s, src, frontier, start, end);
    let opened = s.open_function(src, start, end);
    if opened.is_local() {
        lemma_local_var(opened, src, end as int, start);
    }
}

pub proof fn lemma_on_left_parenthesis(
    s: StateModel,
    src: Seq<u8>,
    frontier: int,
    start: Pos,
    end: Pos,
)
    requires
        state_ok(s, src, frontier),
        frontier <= start,
        token_shape(src, start as int, plain(TokenKind::LeftParenthesis, end as int)),
    ensures
        state_ok(s.on_left_parenthesis(start, end), src, end as int),
{
    lemma_advance(s, src, frontier, end as int);
    lemma_push_balanced(s, src, end as int, BalancedItemKind::Other, start, end);
}

pub proof fn lemma_on_right_parenthesis(
    s: StateModel,
    src: Seq<u8>,
    frontier: int,
    start: Pos,
    end: Pos,
)
    requires
        state_ok(s, src, frontier),
        frontier <= start,
        token_shape(src, start as int, plain(TokenKind::RightParenthesis, end as int)),
    ensures
        state_ok(s.on_right_parenthesis(src, start, end), src, end as int),
{
    lemma_advance(s, src, frontier, end as int);
    if s.balanced.len() > 0 {
        let last = s.balanced.last();
        let popped = StateModel { balanced: s.balanced.drop_last(), ..s };
        assert(closed_span(last.range, src, frontier));
        assert(balanced_ok(popped.balanced, src, frontier)) by {
            assert forall|i: int| 0 <= i < popped.balanced.len() implies closed_span(
                (#[trigger] popped.balanced[i]).range,
                src,
                frontier,
            ) by {
                assert(popped.balanced[i] == s.balanced[i]);
            }
        }
        assert(state_ok(popped, src, frontier));
        if s.mode is Some && (last.kind is Local || last.kind is Global) {
            let current = match popped.innermost() {
                Some(BalancedItemKind::Local) => crate::dependencies::CssModulesMode::Local,
                Some(BalancedItemKind::Global) => crate::dependencies::CssModulesMode::Global,
                _ => crate::dependencies::CssModulesMode::Unset,
            };
            let t = popped.with_current(current);
            assert(state_ok(t, src, frontier));
            lemma_emit(
                t,
                src,
                frontier,
                DependencyModel::Replace { content: Seq::empty(), range: Range { start, end } },
                end as int,
            );
        } else {
            lemma_advance(popped, src, frontier, end as int);
        }
    }
}

pub proof fn lemma_local_var_decl(s: StateModel, src: Seq<u8>, frontier: int, start: Pos, end: Pos)
    requires
        valid_utf8(src),
        is_boundary(src, end as int),
        state_ok(s, src, frontier),
        s.mode is Some,
        frontier <= start <= end <= src.len(),
    ensures
        is_boundary(src, s.local_var_decl(src, end as int, start, end).pos),
        state_ok(
            s.local_var_decl(src, end as int, start, end).state,
            src,
            s.local_var_decl(src, end as int, start, end).pos,
        ),
        end <= s.local_var_decl(src, end as int, start, end).pos <= src.len(),
{
    lemma_trivia_end(src, end as int);
    lemma_trivia_end_boundary(src, end as int);
    let here = trivia_end(src, end as int);
    lemma_char_end(src, here);
    lemma_advance(s, src, frontier, here);
    if here >= src.len() {
    } else if src[here] != C_COLON {
        let e = char_end(src, here);
        lemma_warn(
            s,
            src,
            here,
            Warning::Unexpected { unexpected: span(here, e), range: span(start as int, e) },
        );
    } else {
        lemma_trivia_end(src, here + 1);
        let vs = trivia_end(src, here + 1);
        lemma_value_end(src, vs);
        let ve = value_end(src, vs);
        if ve >= src.len() {
            lemma_advance(s, src, frontier, ve);
        } else {
            lemma_trivia_end(src, ve + 1);
            lemma_boundary_after_ascii(src, ve);
            lemma_trivia_end_boundary(src, ve + 1);
            let d = DependencyModel::LocalVarDecl {
                name_range: Range { start, end },
                name: src.subrange(start + 2, end as int),
                value: src.subrange(vs, ve),
            };
            lemma_emit(s, src, frontier, d, after_value(src, ve));
        }
    }
}

pub proof fn lemma_on_ident(s: StateModel, src: Seq<u8>, frontier: int, start: Pos, end: Pos)
    requires
        state_ok(s, src, frontier),
        frontier <= start,
        token_shape(src, start as int, plain(TokenKind::Ident, end as int)),
        valid_utf8(src),
    ensures
        state_ok(s.on_ident(src, start, end).state, src, s.on_ident(src, start, end).pos),
        end <= s.on_ident(src, start, end).pos <= src.len(),
        is_boundary(src, s.on_ident(src, start, end).pos),
{
    lemma_advance(s, src, frontier, end as int);
    match s.scope {
        ScopeModel::InBlock => {
            if s.is_local() {
                lemma_local_var_decl(s, src, frontier, start, end);
            }
        },
        _ => {},
    }
}

pub proof fn lemma_on_name(
    s: StateModel,
    src: Seq<u8>,
    frontier: int,
    start: Pos,
    end: Pos,
    kind: TokenKind,
)
    requires
        state_ok(s, src, frontier),
        frontier <= start,
        kind is Class || kind is Id,
        token_shape(src, start as int, plain(kind, end as int)),
    ensures
        state_ok(s.on_name(src, start, end), src, end as int),
{
    lemma_advance(s, src, frontier, end as int);
    if s.is_local() {
        let d = DependencyModel::LocalIdent {
            name: src.subrange(start + 1, end as int),
            range: span(start + 1, end as int),
        };
        lemma_emit(s, src, frontier, d, end as int);
    }
}

pub proof fn lemma_on_curly_bracket(
    s: StateModel,
    src: Seq<u8>,
    frontier: int,
    start: Pos,
    end: Pos,
)
    requires
        state_ok(s, src, frontier),
        frontier <= start < end <= src.len(),
    ensures
        state_ok(s.on_left_curly_bracket(), src, end as int),
        state_ok(s.on_right_curly_bracket(), src, end as int),
{
    lemma_advance(s, src, frontier, end as int);
}

pub proof fn lemma_on_pseudo_function(
    s: StateModel,
    src: Seq<u8>,
    frontier: int,
    start: Pos,
    end: Pos,
)
    requires
        state_ok(s, src, frontier),
        frontier <= start,
        token_shape(src, start as int, plain(TokenKind::PseudoFunction, end as int)),
    ensures
        state_ok(s.on_pseudo_function(src, start, end), src, end as int),
{
    lemma_advance(s, src, frontier, end as int);
    let kind = crate::model::classify(lower(src.subrange(start as int, end - 1)));
    let name = lower(src.subrange(start as int, end - 1));
    let erase = DependencyModel::Replace { content: Seq::empty(), range: Range { start, end } };
    if s.mode is Some && (name == ":global".spec_bytes() || name == ":local".spec_bytes()) {
        let current = if name == ":global".spec_bytes() {
            crate::dependencies::CssModulesMode::Global
        } else {
            crate::dependencies::CssModulesMode::Local
        };
        let erased = s.with_current(current).emit(erase);
        lemma_emit(s.with_current(current), src, frontier, erase, end as int);
        lemma_push_balanced(erased, src, end as int, kind, start, end);
        assert(s.on_pseudo_function(src, start, end) == erased.push_balanced(kind, start, end));
    } else {
        lemma_push_balanced(s, src, end as int, kind, start, end);
    }
}

pub proof fn lemma_on_pseudo_class(s: StateModel, src: Seq<u8>, frontier: int, start: Pos, end: Pos)
    requires
        state_ok(s, src, frontier),
        frontier <= start,
        token_shape(src, start as int, plain(TokenKind::PseudoClass, end as int)),
        valid_utf8(src),
    ensures
        state_ok(
            s.on_pseudo_class(src, start, end).state,
            src,
            s.on_pseudo_class(src, start, end).pos,
        ),
        end <= s.on_pseudo_class(src, start, end).pos <= src.len(),
        is_boundary(src, s.on_pseudo_class(src, start, end).pos),
{
    lemma_advance(s, src, frontier, end as int);
    lemma_trivia_end_boundary(src, end as int);
    let name = lower(src.subrange(start as int, end as int));
    if s.mode is None {
    } else if name == ":global".spec_bytes() || name == ":local".spec_bytes() {
        lemma_trivia_end(src, end as int);
        let end2 = trivia_end(src, end as int);
        let from = crate::text::trim_start_pos(src, end as int, end2);
        let d = DependencyModel::Replace {
            content: src.subrange(from, crate::text::trim_end_pos(src, from, end2)),
            range: span(start as int, end2),
        };
        lemma_emit(s, src, frontier, d, end2);
    } else if s.scope is TopLevel && name == ":export".spec_bytes() {
        lemma_trivia_end(src, end as int);
        let here = trivia_end(src, end as int);
        lemma_char_end(src, here);
        let read = s.icss_export(src, end as int, start);
        assert(state_ok(read.state, src, frontier) && end <= read.pos <= src.len()
            && read.state.mode is Some && read.state.scope is TopLevel) by {
            if here >= src.len() {
            } else if src[here] != C_LEFT_CURLY {
                let e = char_end(src, here);
                lemma_warn(
                    s,
                    src,
                    frontier,
                    Warning::Unexpected { unexpected: span(here, e), range: span(start as int, e) },
                );
            } else {
                lemma_trivia_end(src, here + 1);
                lemma_boundary_after_ascii(src, here);
                lemma_trivia_end_boundary(src, here + 1);
                lemma_export_entries_kept(s, src, frontier, trivia_end(src, here + 1));
            }
        }
        assert(is_boundary(src, read.pos)) by {
            if here < src.len() && src[here] == C_LEFT_CURLY {
                lemma_trivia_end(src, here + 1);
                lemma_boundary_after_ascii(src, here);
                lemma_trivia_end_boundary(src, here + 1);
                lemma_export_entries_kept(s, src, frontier, trivia_end(src, here + 1));
            }
        }
        if read.done {
            let d = DependencyModel::Replace {
                content: Seq::empty(),
                range: span(start as int, read.pos),
            };
            lemma_emit(read.state, src, frontier, d, read.pos);
        } else {
            lemma_advance(read.state, src, frontier, read.pos);
        }
    }
}

/// The entries of an export block add exports and warnings only: the state
/// stays in order up to where it was.
pub proof fn lemma_export_entries_kept(s: StateModel, src: Seq<u8>, frontier: int, pos: int)
    requires
        valid_utf8(src),
        is_boundary(src, pos),
        state_ok(s, src, frontier),
        s.mode is Some,
        frontier <= pos <= src.len(),
    ensures
        state_ok(s.export_entries(src, pos).state, src, frontier),
        s.export_entries(src, pos).state.mode is Some,
        s.export_entries(src, pos).state.scope == s.scope,
        pos <= s.export_entries(src, pos).pos <= src.len(),
        is_boundary(src, s.export_entries(src, pos).pos),
    decreases src.len() - pos,
{
    if pos >= src.len() {
    } else if src[pos] == C_RIGHT_CURLY {
        lemma_boundary_after_ascii(src, pos);
    } else {
        lemma_trivia_end(src, pos);
        let ps = trivia_end(src, pos);
        lemma_prop_end(src, ps);
        let pe = prop_end(src, ps);
        lemma_trivia_end(src, pe);
        lemma_trivia_end_boundary(src, pe);
        let there = trivia_end(src, pe);
        lemma_char_end(src, there);
        if pe >= src.len() || there >= src.len() {
        } else if src[there] != C_COLON {
            let e = char_end(src, there);
            lemma_warn(
                s,
                src,
                frontier,
                Warning::Unexpected { unexpected: span(there, e), range: span(ps, e) },
            );
        } else {
            lemma_trivia_end(src, there + 1);
            let vs = trivia_end(src, there + 1);
            lemma_value_end(src, vs);
            let ve = value_end(src, vs);
            if ve >= src.len() {
            } else {
                lemma_trivia_end(src, ve + 1);
                let d = DependencyModel::ICSSExport {
                    prop: src.subrange(ps, crate::text::trim_end_pos(src, ps, pe)),
                    value: src.subrange(vs, crate::text::trim_end_pos(src, vs, ve)),
                };
                lemma_emit(s, src, frontier, d, frontier);
                lemma_boundary_after_ascii(src, ve);
                lemma_trivia_end_boundary(src, ve + 1);
                lemma_export_entries_kept(s.emit(d), src, frontier, after_value(src, ve));
            }
        }
    }
}

pub proof fn lemma_on_comma(s: StateModel, src: Seq<u8>, frontier: int, start: Pos, end: Pos)
    requires
        state_ok(s, src, frontier),
        frontier <= start < end <= src.len(),
    ensures
        state_ok(s.on_comma(), src, end as int),
{
    lemma_advance(s, src, frontier, end as int);
}

/// Whatever token comes next, the state stays in order and the cursor
/// stays on a boundary.
pub proof fn lemma_on_token(
    s: StateModel,
    src: Seq<u8>,
    frontier: int,
    start: Pos,
    t: TokenModel,
)
    requires
        valid_utf8(src),
        state_ok(s, src, frontier),
        frontier <= start,
        token_shape(src, start as int, t),
    ensures
        state_ok(s.on_token(src, start, t).state, src, s.on_token(src, start, t).pos),
        t.end <= s.on_token(src, start, t).pos <= src.len(),
        is_boundary(src, s.on_token(src, start, t).pos),
{
    reveal(StateModel::on_token);
    let end = t.end as usize;
    match t.kind {
        TokenKind::Url => {
            lemma_on_url(
                s,
                src,
                frontier,
                start,
                end,
                t.content_start as usize,
                t.content_end as usize,
            );
        },
        TokenKind::Function => {
            lemma_on_function(s, src, frontier, start, end);
        },
        TokenKind::Ident => {
            lemma_on_ident(s, src, frontier, start, end);
        },
        TokenKind::String => {
            lemma_on_string(s, src, frontier, start, end);
        },
        TokenKind::Id => {
            lemma_on_name(s, src, frontier, start, end, TokenKind::Id);
        },
        TokenKind::Class => {
            lemma_on_name(s, src, frontier, start, end, TokenKind::Class);
        },
        TokenKind::LeftParenthesis => {
            lemma_on_left_parenthesis(s, src, frontier, start, end);
        },
        TokenKind::RightParenthesis => {
            lemma_on_right_parenthesis(s, src, frontier, start, end);
        },
        TokenKind::Comma => {
            lemma_on_comma(s, src, frontier, start, end);
        },
        TokenKind::PseudoFunction => {
            lemma_on_pseudo_function(s, src, frontier, start, end);
        },
        TokenKind::PseudoClass => {
            lemma_on_pseudo_class(s, src, frontier, start, end);
        },
        TokenKind::Semicolon => {
            lemma_on_semicolon(s, src, frontier, start, end);
        },
        TokenKind::AtKeyword => {
            lemma_on_at_keyword(s, src, frontier, start, end);
        },
        TokenKind::LeftCurlyBracket => {
            lemma_on_curly_bracket(s, src, frontier, start, end);
        },
        TokenKind::RightCurlyBracket => {
            lemma_on_curly_bracket(s, src, frontier, start, end);
        },
        TokenKind::Other => {
            lemma_advance(s, src, frontier, t.end);
        },
        TokenKind::Unterminated => {
            lemma_advance(s, src, frontier, t.end);
        },
    }
}

/// The whole pass keeps the state in order, and runs to the end of the
/// source unless it is stopped.
pub proof fn lemma_run(s: StateModel, src: Seq<u8>, pos: int)
    requires
        valid_utf8(src),
        is_boundary(src, pos),
        state_ok(s, src, pos),
    ensures
        state_ok(s.run(src, pos).state, src, s.run(src, pos).pos),
        pos <= s.run(src, pos).pos <= src.len(),
        s.run(src, pos).done ==> s.run(src, pos).pos == src.len(),
        s.run(src, pos).state.mode is Some <==> s.mode is Some,
    decreases src.len() - pos,
{
    lemma_trivia_end(src, pos);
    lemma_trivia_end_boundary(src, pos);
    let start = trivia_end(src, pos);
    lemma_advance(s, src, pos, start);
    if start < src.len() {
        let t = token_at(src, start, s.selector_at(src, start));
        lemma_token_shape(src, start, s.selector_at(src, start));
        lemma_on_token(s, src, start, start as usize, t);
        let after = s.on_token(src, start as usize, t);
        lemma_on_token_mode(s, src, start as usize, t);
        if after.done && pos < after.pos <= src.len() {
            lemma_run(after.state, src, after.pos);
        }
    }
}

/// No token turns CSS Modules on or off.
pub proof fn lemma_on_token_mode(s: StateModel, src: Seq<u8>, start: Pos, t: TokenModel)
    ensures
        s.on_token(src, start, t).state.mode is Some <==> s.mode is Some,
{
    reveal(StateModel::on_token);
    if t.kind is PseudoClass {
        lemma_pseudo_class_mode(s, src, start, t.end as usize);
    }
}

proof fn lemma_export_entries_mode(s: StateModel, src: Seq<u8>, pos: int)
    ensures
        s.export_entries(src, pos).state.mode == s.mode,
    decreases src.len() - pos,
{
    if pos < 0 || pos >= src.len() {
    } else if src[pos] == C_RIGHT_CURLY {
    } else {
        let ps = trivia_end(src, pos);
        let pe = prop_end(src, ps);
        let there = trivia_end(src, pe);
        if pe >= src.len() || there >= src.len() {
        } else if src[there] != C_COLON {
        } else {
            let vs = trivia_end(src, there + 1);
            let ve = value_end(src, vs);
            if ve >= src.len() {
            } else {
                lemma_trivia_end(src, pos);
                lemma_prop_end(src, ps);
                lemma_trivia_end(src, pe);
                lemma_trivia_end(src, there + 1);
                lemma_value_end(src, vs);
                lemma_trivia_end(src, ve + 1);
                let d = DependencyModel::ICSSExport {
                    prop: src.subrange(ps, crate::text::trim_end_pos(src, ps, pe)),
                    value: src.subrange(vs, crate::text::trim_end_pos(src, vs, ve)),
                };
                lemma_export_entries_mode(s.emit(d), src, after_value(src, ve));
            }
        }
    }
}

proof fn lemma_pseudo_class_mode(s: StateModel, src: Seq<u8>, start: Pos, end: Pos)
    ensures
        s.on_pseudo_class(src, start, end).state.mode is Some <==> s.mode is Some,
{
    let here = trivia_end(src, end as int);
    if here < src.len() && src[here] == C_LEFT_CURLY {
        lemma_export_entries_mode(s, src, trivia_end(src, here + 1));
    }
}

/// A token that has no event leaves the state as it is.
pub proof fn lemma_on_token_plain(s: StateModel, src: Seq<u8>, start: Pos, t: TokenModel)
    ensures
        t.kind is Other ==> s.on_token(src, start, t) == s.done(t.end),
        t.kind is Unterminated ==> s.on_token(src, start, t) == s.stop(t.end),
{
    reveal(StateModel::on_token);
}

/// A pass of the lexer in which the analysis takes each event is the pass
/// of the analysis: where the lexer tells the events of a pass from `p`
/// on, and the analysis takes them one after the other from the state `s`
/// on, the pass of the analysis from `p` on in the state `s` ends as the
/// pass of the lexer does, in the state that the events lead to.
pub proof fn lemma_pass_is_run(
    s: StateModel,
    src: Seq<u8>,
    p: int,
    events: Seq<Event>,
    end: int,
    done: bool,
)
    requires
        0 <= p <= src.len() <= usize::MAX,
        is_pass(src, p, events, end, done),
        answered(s, src, events) is Some,
    ensures
        s.run(src, p) == (Outcome { state: answered(s, src, events)->0, pos: end, done }),
    decreases src.len() - p,
{
    lemma_trivia_end(src, p);
    let q = trivia_end(src, p);
    if q >= src.len() {
    } else {
        let asks = asks_selector(src[q]);
        if asks && events[0]->answer is None {
        } else {
            let selector = if asks {
                events[0]->answer->0
            } else {
                true
            };
            let rest = if asks {
                events.drop_first()
            } else {
                events
            };
            assert(answered(s, src, rest) == answered(s, src, events));
            let t = token_at(src, q, selector);
            assert(selector == s.selector_at(src, q));
            let taken = s.on_token(src, q as usize, t);
            lemma_on_token_plain(s, src, q as usize, t);
            if t.kind is Unterminated {
                assert(taken == s.stop(t.end));
            } else if t.kind is Other {
                assert(taken == s.done(t.end));
                lemma_pass_is_run(s, src, t.end, rest, end, done);
            } else {
                assert(answer(s, src, rest[0]) == Some(taken.state));
                assert(answered(s, src, rest) == answered(taken.state, src, rest.drop_first()));
                if rest[0]->go_on {
                    lemma_pass_is_run(taken.state, src, taken.pos, rest.drop_first(), end, done);
                }
            }
        }
    }
}

/// The states that the analysis goes through as it takes `events` lead
/// from the first to the last.
pub proof fn lemma_answered(src: Seq<u8>, states: Seq<StateModel>, events: Seq<Event>)
    requires
        states.len() == events.len() + 1,
        forall|i: int|
            0 <= i < events.len() ==> answer(#[trigger] states[i], src, events[i]) == Some(
                states[i + 1],
            ),
    ensures
        answered(states.first(), src, events) == Some(states.last()),
    decreases events.len(),
{
    if events.len() > 0 {
        let later = states.drop_first();
        let rest = events.drop_first();
        assert(answer(states[0], src, events[0]) == Some(states[1]));
        assert forall|i: int| 0 <= i < rest.len() implies answer(
            #[trigger] later[i],
            src,
            rest[i],
        ) == Some(later[i + 1]) by {
            assert(answer(states[i + 1], src, events[i + 1]) == Some(states[i + 2]));
        }
        lemma_answered(src, later, rest);
    }
}

} // verus!
