//! What holds of all that the analysis emits, for every source.

use crate::chars::C_COLON;
use crate::chars::C_LEFT_CURLY;
use crate::chars::C_RIGHT_CURLY;
use crate::dependencies::Range;
use crate::lexer::Pos;
use crate::model::after_value;
use crate::model::lemma_prop_end;
use crate::model::lemma_value_end;
use crate::model::prop_end;
use crate::model::span;
use crate::model::value_end;
use crate::order::lemma_advance;
use crate::scan::is_boundary;
use crate::scan::lemma_trivia_end;
use crate::scan::lemma_trivia_end_boundary;
use crate::steps::lemma_on_token;
use crate::token::lemma_token_shape;
use crate::token::TokenKind;
use crate::scan::trivia_end;
use crate::text::lower;
use crate::text::trim_end_pos;
use crate::text::trim_start_pos;
use crate::token::token_at;
use crate::token::TokenModel;
use vstd::string::StringSliceAdditionalSpecFns;
use crate::model::analyze;
use crate::model::DependencyModel;
use crate::model::ModeModel;
use crate::model::StateModel;
use crate::order::delimits_import;
use crate::order::dependency_ok;
use crate::order::from_modules;
use crate::order::in_order;
use crate::order::rewritten_span;
use crate::order::state_ok;
use crate::order::warning_ok;
use crate::steps::lemma_run;
use vstd::prelude::*;
use vstd::utf8::valid_utf8;

verus! {

/// Every span that the dependency `d` holds is well formed and lies inside
/// a source of `len` bytes.
pub open spec fn dependency_within(d: DependencyModel, len: int) -> bool {
    match d {
        DependencyModel::Url { range, .. } => range.within(len),
        DependencyModel::Import { range, .. } => range.within(len),
        DependencyModel::Replace { range, .. } => range.within(len),
        DependencyModel::LocalIdent { range, .. } => range.within(len),
        DependencyModel::LocalVar { range, .. } => range.within(len),
        DependencyModel::LocalVarDecl { name_range, .. } => name_range.within(len),
        DependencyModel::ICSSExport { .. } => true,
    }
}

/// Two spans that share no byte.
pub open spec fn disjoint(a: Range, b: Range) -> bool {
    a.end <= b.start || b.end <= a.start
}

/// The state at the end of the pass over a source is in order.
pub proof fn lemma_analyze(src: Seq<u8>, mode: Option<ModeModel>)
    requires
        valid_utf8(src),
        src.len() <= usize::MAX,
    ensures
        exists|read: int| state_ok(analyze(src, mode), src, read),
        analyze(src, mode).mode is Some <==> mode is Some,
{
    let start = StateModel::initial(mode);
    assert(state_ok(start, src, 0));
    if src.len() > 0 {
        vstd::utf8::is_char_boundary_start_end_of_seq(src);
        crate::scan::lemma_boundary_is_char_boundary(src, 0);
    }
    lemma_run(start, src, 0);
    assert(state_ok(analyze(src, mode), src, start.run(src, 0).pos));
}

/// Every span that the analysis emits, in a dependency or in a warning, is
/// well formed and lies inside the source: `0 <= start <= end <= len`.
pub proof fn law_ranges_within(src: Seq<u8>, mode: Option<ModeModel>)
    requires
        valid_utf8(src),
        src.len() <= usize::MAX,
    ensures
        forall|i: int|
            0 <= i < analyze(src, mode).dependencies.len() ==> dependency_within(
                #[trigger] analyze(src, mode).dependencies[i],
                src.len() as int,
            ),
        forall|i: int|
            0 <= i < analyze(src, mode).warnings.len() ==> warning_ok(
                #[trigger] analyze(src, mode).warnings[i],
                src.len() as int,
            ),
{
    lemma_analyze(src, mode);
    let end = analyze(src, mode);
    let read = choose|read: int| state_ok(end, src, read);
    assert forall|i: int| 0 <= i < end.dependencies.len() implies dependency_within(
        #[trigger] end.dependencies[i],
        src.len() as int,
    ) by {
        assert(dependency_ok(end.dependencies[i], src, read, end.mode is Some));
    }
}

/// The span of every import that the analysis emits starts with `@import`,
/// in any case of letters, and ends with the `;` of the rule.
pub proof fn law_import_delimited(src: Seq<u8>, mode: Option<ModeModel>)
    requires
        valid_utf8(src),
        src.len() <= usize::MAX,
    ensures
        forall|i: int|
            0 <= i < analyze(src, mode).dependencies.len() ==> (
            #[trigger] analyze(src, mode).dependencies[i] matches DependencyModel::Import {
                range,
                ..
            } ==> delimits_import(src, range)),
{
    lemma_analyze(src, mode);
    let end = analyze(src, mode);
    let read = choose|read: int| state_ok(end, src, read);
    assert forall|i: int| 0 <= i < end.dependencies.len() implies (
    #[trigger] end.dependencies[i] matches DependencyModel::Import { range, .. }
        ==> delimits_import(src, range)) by {
        assert(dependency_ok(end.dependencies[i], src, read, end.mode is Some));
    }
}

/// No two spans that the analysis asks to rewrite overlap: so no
/// replacement clips a URL, a local name or a local variable, nor another
/// replacement. The spans come in the order of the source.
pub proof fn law_rewritten_spans_disjoint(src: Seq<u8>, mode: Option<ModeModel>)
    requires
        valid_utf8(src),
        src.len() <= usize::MAX,
    ensures
        forall|i: int, j: int|
            0 <= i < j < analyze(src, mode).dependencies.len() ==> in_order(
                #[trigger] analyze(src, mode).dependencies[i],
                #[trigger] analyze(src, mode).dependencies[j],
            ),
        forall|i: int, j: int|
            0 <= i < analyze(src, mode).dependencies.len() && 0 <= j < analyze(
                src,
                mode,
            ).dependencies.len() && i != j ==> (rewritten_span(
                #[trigger] analyze(src, mode).dependencies[i],
            ) matches Some(a) ==> (rewritten_span(
                #[trigger] analyze(src, mode).dependencies[j],
            ) matches Some(b) ==> disjoint(a, b))),
{
    lemma_analyze(src, mode);
    let end = analyze(src, mode);
    assert forall|i: int, j: int|
        0 <= i < end.dependencies.len() && 0 <= j < end.dependencies.len() && i != j implies (
    rewritten_span(#[trigger] end.dependencies[i]) matches Some(a) ==> (rewritten_span(
        #[trigger] end.dependencies[j],
    ) matches Some(b) ==> disjoint(a, b))) by {
        if i < j {
            assert(in_order(end.dependencies[i], end.dependencies[j]));
        } else {
            assert(in_order(end.dependencies[j], end.dependencies[i]));
        }
    }
}

/// With CSS Modules off the analysis emits URLs and imports only: no
/// replacement, no local name, no local variable, no export. So a style
/// sheet that was rewritten gives nothing more to rewrite for modules.
pub proof fn law_modules_off(src: Seq<u8>)
    requires
        valid_utf8(src),
        src.len() <= usize::MAX,
    ensures
        forall|i: int|
            0 <= i < analyze(src, None).dependencies.len() ==> !from_modules(
                #[trigger] analyze(src, None).dependencies[i],
            ),
{
    lemma_analyze(src, None);
    let end = analyze(src, None);
    let read = choose|read: int| state_ok(end, src, read);
    assert forall|i: int| 0 <= i < end.dependencies.len() implies !from_modules(
        #[trigger] end.dependencies[i],
    ) by {
        assert(dependency_ok(end.dependencies[i], src, read, end.mode is Some));
    }
}

/// A token that a pass reads: the state of the analysis before it, and
/// where it starts.
pub ghost struct Reading {
    pub state: StateModel,
    pub start: int,
    pub token: TokenModel,
}

/// The tokens that the pass over `src` from `pos` on reads, in the state
/// `s` at first.
pub open spec fn readings(s: StateModel, src: Seq<u8>, pos: int) -> Seq<Reading>
    decreases src.len() - pos,
{
    let start = trivia_end(src, pos);
    if pos < 0 || start >= src.len() {
        Seq::empty()
    } else {
        let t = token_at(src, start, s.selector_at(src, start));
        let after = s.on_token(src, start as usize, t);
        let first = seq![Reading { state: s, start, token: t }];
        if after.done && pos < after.pos <= src.len() {
            first + readings(after.state, src, after.pos)
        } else {
            first
        }
    }
}

/// What a reading calls to erase, where it reads syntax of CSS Modules
/// while these are on: `:local(` or `:global(`, and the `)` that closes
/// one; `:local` or `:global` with the white space and comments after it,
/// of which the comments stay; or `:export` at the top level with its
/// block, where the block is read to its end.
pub open spec fn erasure(src: Seq<u8>, r: Reading) -> Option<DependencyModel> {
    let function_name = lower(src.subrange(r.start, r.token.end - 1));
    let name = lower(src.subrange(r.start, r.token.end));
    let export = r.state.icss_export(src, r.token.end, r.start as usize);
    let space_end = trivia_end(src, r.token.end);
    let comments_start = trim_start_pos(src, r.token.end, space_end);
    if r.state.mode is None {
        None
    } else if r.token.kind is PseudoFunction && (function_name == ":local".spec_bytes()
        || function_name == ":global".spec_bytes()) {
        Some(
            DependencyModel::Replace {
                content: Seq::empty(),
                range: span(r.start, r.token.end),
            },
        )
    } else if r.token.kind is PseudoClass && (name == ":local".spec_bytes() || name
        == ":global".spec_bytes()) {
        Some(
            DependencyModel::Replace {
                content: src.subrange(
                    comments_start,
                    trim_end_pos(src, comments_start, space_end),
                ),
                range: span(r.start, space_end),
            },
        )
    } else if r.token.kind is RightParenthesis && r.state.balanced.len() > 0 && (
    r.state.balanced.last().kind is Local || r.state.balanced.last().kind is Global) {
        Some(
            DependencyModel::Replace {
                content: Seq::empty(),
                range: span(r.start, r.token.end),
            },
        )
    } else if r.token.kind is PseudoClass && name == ":export".spec_bytes() && r.state.scope
        is TopLevel && export.done {
        Some(DependencyModel::Replace { content: Seq::empty(), range: span(r.start, export.pos) })
    } else {
        None
    }
}

/// `later` holds the dependencies of `earlier`, and perhaps more after
/// them.
pub open spec fn extends(earlier: StateModel, later: StateModel) -> bool {
    &&& earlier.dependencies.len() <= later.dependencies.len()
    &&& forall|i: int|
        0 <= i < earlier.dependencies.len() ==> later.dependencies[i]
            == #[trigger] earlier.dependencies[i]
}

proof fn lemma_extends_further(a: StateModel, b: StateModel, c: StateModel)
    requires
        extends(a, b),
        extends(b, c),
    ensures
        extends(a, c),
{
    assert forall|i: int| 0 <= i < a.dependencies.len() implies c.dependencies[i]
        == #[trigger] a.dependencies[i] by {
        assert(b.dependencies[i] == a.dependencies[i]);
        assert(c.dependencies[i] == b.dependencies[i]);
    }
}

proof fn lemma_export_entries_extends(s: StateModel, src: Seq<u8>, pos: int)
    ensures
        extends(s, s.export_entries(src, pos).state),
    decreases src.len() - pos,
{
    if pos < 0 || pos >= src.len() {
    } else if src[pos] == C_RIGHT_CURLY {
    } else {
        let ps = trivia_end(src, pos);
        let pe = prop_end(src, ps);
        let colon = trivia_end(src, pe);
        if pe >= src.len() || colon >= src.len() {
        } else if src[colon] != C_COLON {
        } else {
            let vs = trivia_end(src, colon + 1);
            let ve = value_end(src, vs);
            if ve >= src.len() {
            } else {
                lemma_trivia_end(src, pos);
                lemma_prop_end(src, ps);
                lemma_trivia_end(src, pe);
                lemma_trivia_end(src, colon + 1);
                lemma_value_end(src, vs);
                lemma_trivia_end(src, ve + 1);
                let d = DependencyModel::ICSSExport {
                    prop: src.subrange(ps, trim_end_pos(src, ps, pe)),
                    value: src.subrange(vs, trim_end_pos(src, vs, ve)),
                };
                lemma_export_entries_extends(s.emit(d), src, after_value(src, ve));
                assert(extends(s, s.emit(d)));
                lemma_extends_further(
                    s,
                    s.emit(d),
                    s.emit(d).export_entries(src, after_value(src, ve)).state,
                );
            }
        }
    }
}

/// No token takes back a dependency.
pub proof fn lemma_on_token_extends(s: StateModel, src: Seq<u8>, start: Pos, t: TokenModel)
    ensures
        extends(s, s.on_token(src, start, t).state),
{
    reveal(StateModel::on_token);
    let end = t.end as usize;
    match t.kind {
        TokenKind::Url => {
            assert(extends(
                s,
                s.on_url(src, start, end, t.content_start as usize, t.content_end as usize),
            ));
        },
        TokenKind::Function => {
            let opened = s.open_function(src, start, end);
            assert(opened.dependencies == s.dependencies);
            assert(extends(opened, opened.local_var(src, end as int, start).state));
        },
        TokenKind::Ident => {
            assert(extends(s, s.local_var_decl(src, end as int, start, end).state));
        },
        TokenKind::String => {
            assert(extends(s, s.on_string(src, start, end)));
        },
        TokenKind::Id => {
            assert(extends(s, s.on_name(src, start, end)));
        },
        TokenKind::Class => {
            assert(extends(s, s.on_name(src, start, end)));
        },
        TokenKind::RightParenthesis => {
            assert(extends(s, s.on_right_parenthesis(src, start, end)));
        },
        TokenKind::PseudoFunction => {
            assert(extends(s, s.on_pseudo_function(src, start, end)));
        },
        TokenKind::PseudoClass => {
            let read = s.icss_export(src, end as int, start);
            let open = trivia_end(src, end as int);
            if open < src.len() && src[open] == C_LEFT_CURLY {
                lemma_export_entries_extends(s, src, trivia_end(src, open + 1));
            }
            assert(extends(s, read.state));
            assert(extends(s, s.on_pseudo_class(src, start, end).state));
        },
        TokenKind::Semicolon => {
            assert(extends(s, s.on_semicolon(src, start, end)));
        },
        TokenKind::AtKeyword => {
            assert(extends(s, s.on_at_keyword(src, start, end)));
        },
        _ => {},
    }
}

/// A pass takes back no dependency.
pub proof fn lemma_run_extends(s: StateModel, src: Seq<u8>, pos: int)
    ensures
        extends(s, s.run(src, pos).state),
    decreases src.len() - pos,
{
    let start = trivia_end(src, pos);
    if pos < 0 || start >= src.len() {
    } else {
        let t = token_at(src, start, s.selector_at(src, start));
        let after = s.on_token(src, start as usize, t);
        lemma_on_token_extends(s, src, start as usize, t);
        if after.done && pos < after.pos <= src.len() {
            lemma_run_extends(after.state, src, after.pos);
            lemma_extends_further(s, after.state, after.state.run(src, after.pos).state);
        }
    }
}

proof fn lemma_reading_erased(s: StateModel, src: Seq<u8>, pos: int, k: int)
    requires
        valid_utf8(src),
        is_boundary(src, pos),
        state_ok(s, src, pos),
        0 <= k < readings(s, src, pos).len(),
        erasure(src, readings(s, src, pos)[k]) is Some,
    ensures
        s.run(src, pos).state.dependencies.contains(erasure(src, readings(s, src, pos)[k])->0),
    decreases src.len() - pos,
{
    lemma_trivia_end(src, pos);
    lemma_trivia_end_boundary(src, pos);
    let start = trivia_end(src, pos);
    lemma_advance(s, src, pos, start);
    let t = token_at(src, start, s.selector_at(src, start));
    lemma_token_shape(src, start, s.selector_at(src, start));
    lemma_on_token(s, src, start, start as usize, t);
    let after = s.on_token(src, start as usize, t);
    let first = seq![Reading { state: s, start, token: t }];
    let goes_on = after.done && pos < after.pos <= src.len();
    if k == 0 {
        reveal(StateModel::on_token);
        let d = erasure(src, first[0])->0;
        assert(after.state.dependencies.len() > 0 && after.state.dependencies.last() == d);
        let at = after.state.dependencies.len() - 1;
        if goes_on {
            lemma_run_extends(after.state, src, after.pos);
            let end = after.state.run(src, after.pos).state;
            assert(end.dependencies[at] == after.state.dependencies[at]);
        }
        assert(s.run(src, pos).state.dependencies[at] == d);
    } else {
        assert(goes_on);
        assert(readings(s, src, pos)[k] == readings(after.state, src, after.pos)[k - 1]);
        lemma_reading_erased(after.state, src, after.pos, k - 1);
    }
}

/// Whatever syntax of CSS Modules a pass reads while these are on, the
/// analysis asks to erase: the replacement of its span is among the
/// dependencies.
pub proof fn law_locality_erased(src: Seq<u8>, mode: Option<ModeModel>)
    requires
        valid_utf8(src),
        src.len() <= usize::MAX,
    ensures
        forall|k: int|
            0 <= k < readings(StateModel::initial(mode), src, 0).len() ==> (erasure(
                src,
                #[trigger] readings(StateModel::initial(mode), src, 0)[k],
            ) matches Some(d) ==> analyze(src, mode).dependencies.contains(d)),
{
    let start = StateModel::initial(mode);
    assert(state_ok(start, src, 0));
    if src.len() > 0 {
        vstd::utf8::is_char_boundary_start_end_of_seq(src);
        crate::scan::lemma_boundary_is_char_boundary(src, 0);
    }
    assert forall|k: int| 0 <= k < readings(start, src, 0).len() implies (erasure(
        src,
        #[trigger] readings(start, src, 0)[k],
    ) matches Some(d) ==> analyze(src, mode).dependencies.contains(d)) by {
        if erasure(src, readings(start, src, 0)[k]) is Some {
            lemma_reading_erased(start, src, 0, k);
        }
    }
}

} // verus!
